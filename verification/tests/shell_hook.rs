use rbuild::client::shell_hook::{
    bash_hook, cmd_segment, dirs_home, emit_hook, fish_hook, hook_block, install, install_cmd,
    powershell_hook, rc_path, read_autorun, reg_query_args, strip_autorun_segment, strip_block,
    uninstall, uninstall_cmd, HookError, Shell, MARKER_BEGIN, MARKER_END,
};
use rbuild::config::{BuildSettings, GlobalConfig, RemoteConfig, Root};

#[test]
fn strip_is_idempotent_and_total() {
    let base = "export FOO=1\n";
    let block = hook_block(Shell::Bash, "/usr/bin/rbuild");
    let installed = format!("{base}{block}");
    // Stripping removes exactly the block, leaving the original content.
    assert_eq!(strip_block(&installed), base);
    // Double-install then strip still yields the base: no accumulation.
    let twice = format!("{base}{block}{block}");
    assert_eq!(strip_block(&twice), base);
}

#[test]
fn autorun_segment_strip_preserves_others() {
    // A user with their own AutoRun plus rbuild's segment.
    let ours = format!("set \"PATH=C:\\rb;%PATH%\" {MARKER_BEGIN}");
    let theirs = "doskey ls=dir $*";
    let combined = format!("{theirs}&{ours}");
    // Stripping leaves the user's segment untouched.
    assert_eq!(strip_autorun_segment(&combined), theirs);
    // Stripping when only ours is present yields empty (triggers reg delete).
    assert_eq!(strip_autorun_segment(&ours), "");
    // Stripping when ours is absent is a no-op.
    assert_eq!(strip_autorun_segment(theirs), theirs);
}

const SHELLS: [Shell; 5] =
    [Shell::Bash, Shell::Zsh, Shell::Fish, Shell::PowerShell, Shell::Cmd];

#[test]
fn shells_are_found_by_name() {
    for shell in SHELLS {
        assert_eq!(Shell::parse(shell.name()), Some(shell));
    }
    assert_eq!(Shell::parse("PwSh"), Some(Shell::PowerShell));
    assert_eq!(Shell::parse("BASH"), Some(Shell::Bash));
    assert_eq!(Shell::parse("tcsh"), None);
    assert_eq!(Shell::parse(" bash"), None);
    // Lowercasing first changes nothing.
    for s in ["ZSH", "Fİsh", "ΟΔΟΣ", "ﬀ", "CMD", "K", "pwsh\u{130}"] {
        assert_eq!(Shell::parse(s), Shell::parse(&s.to_lowercase()));
    }
}

#[test]
fn profiles_lie_in_the_home_directory() {
    let at = |shell| rc_path(shell, Some("/home/me"));
    assert_eq!(at(Shell::Bash), Ok("/home/me/.bashrc".to_string()));
    assert_eq!(at(Shell::Zsh), Ok("/home/me/.zshrc".to_string()));
    assert_eq!(at(Shell::Fish), Ok("/home/me/.config/fish/config.fish".to_string()));
    assert_eq!(
        at(Shell::PowerShell),
        Ok("/home/me/Documents/PowerShell/Microsoft.PowerShell_profile.ps1".to_string())
    );
    assert_eq!(at(Shell::Cmd), Err(HookError::CmdHasNoProfile));
    assert_eq!(rc_path(Shell::Cmd, None), Err(HookError::NoHome));
    assert_eq!(HookError::NoHome.message(), "could not determine home directory");
    assert_eq!(HookError::CmdHasNoProfile.message(), "cmd uses AutoRun, not an rc file");
    let (h, p) = (Some("h".to_string()), Some("p".to_string()));
    assert_eq!(dirs_home(h.clone(), p.clone()), h);
    assert_eq!(dirs_home(None, p.clone()), p);
    assert_eq!(dirs_home(None, None), None);
}

#[test]
fn hook_blocks_are_exact() {
    assert_eq!(
        hook_block(Shell::Zsh, "/usr/bin/rbuild"),
        "# >>> rbuild >>>\n\
         _rbuild_hook() { eval \"$(\"/usr/bin/rbuild\" hook zsh)\"; }\n\
         PROMPT_COMMAND=\"_rbuild_hook;${PROMPT_COMMAND:-}\"\n\
         # <<< rbuild <<<\n"
    );
    assert_eq!(
        hook_block(Shell::Fish, "/b"),
        "# >>> rbuild >>>\nfunction _rbuild_hook --on-event fish_prompt\n    /b hook fish | source\nend\n# <<< rbuild <<<\n"
    );
    let block = hook_block(Shell::PowerShell, "C:\\rbuild.exe");
    assert!(block.contains("function global:prompt { & \"C:\\rbuild.exe\" hook powershell | Out-String"));
    assert!(block.contains("{ Copy-Item Function:\\prompt Function:\\_rbuild_orig_prompt "));
    assert!(block.starts_with(MARKER_BEGIN) && block.ends_with(&format!("{MARKER_END}\n")));
    assert_eq!(hook_block(Shell::Cmd, "/b"), "");
}

#[test]
fn install_is_idempotent_and_uninstall_clean() {
    for shell in [Shell::Bash, Shell::Zsh, Shell::Fish, Shell::PowerShell] {
        for text in ["", "a\nb\n", "a\nb", "a\n\n  b\n"] {
            let once = install(shell, "/usr/bin/rbuild", text);
            assert_eq!(install(shell, "/usr/bin/rbuild", &once), once);
            // Installing anew refreshes the block.
            let moved = install(shell, "/opt/rbuild", &once);
            assert_eq!(moved, install(shell, "/opt/rbuild", text));
            let cleaned = uninstall(&once).unwrap();
            assert_eq!(cleaned.trim_end_matches('\n'), text.trim_end_matches('\n'));
            assert!(cleaned == text || cleaned == format!("{text}\n"));
            assert_eq!(uninstall(&cleaned), None);
        }
    }
}

#[test]
fn texts_without_a_block_are_left_alone() {
    let unclosed = format!("x\n{MARKER_BEGIN}\nexport A=1\n");
    let stray = format!("x\n{MARKER_END}\ny");
    let reversed = format!("{MARKER_END}\nx\n{MARKER_BEGIN}\n");
    for text in ["", "a\nb", "a\r\nb\r\n", "a\r\r\n", "\n\n", &unclosed, &stray, &reversed] {
        assert_eq!(strip_block(text), text);
        assert_eq!(uninstall(text), None);
    }
    // Even around an unclosed marker an install is found and removed again.
    let once = install(Shell::Bash, "/usr/bin/rbuild", &unclosed);
    assert_eq!(install(Shell::Bash, "/usr/bin/rbuild", &once), once);
    assert_eq!(uninstall(&once), Some(unclosed));
}

#[test]
fn strip_handles_odd_blocks() {
    // Markers are found with white space around them, and what stands around the
    // block keeps its line endings.
    let text = format!("x\r\n  {MARKER_BEGIN}\t\ngone\n\t{MARKER_END}\r\ny");
    assert_eq!(strip_block(&text), "x\r\ny");
    // A closing marker closes the nearest opening one that is still open.
    let nested = format!("a\n{MARKER_BEGIN}\nb\n{MARKER_BEGIN}\nc\n{MARKER_END}\nd\n");
    assert_eq!(strip_block(&nested), format!("a\n{MARKER_BEGIN}\nb\nd\n"));
    let closed = format!("{nested}{MARKER_END}\ne\n");
    assert_eq!(strip_block(&closed), "a\ne\n");
    // Blocks in several places all go.
    let block = hook_block(Shell::Fish, "/b");
    assert_eq!(strip_block(&format!("a\n{block}b\n{block}c\n")), "a\nb\nc\n");
}

#[test]
fn prompt_code_is_exact() {
    let reset = bash_hook(None);
    assert_eq!(
        reset,
        "if [ -n \"$RBUILD_SHIM_DIR\" ]; then PATH=$(printf '%s' \"$PATH\" | tr ':' '\\n' | grep -vxF \"$RBUILD_SHIM_DIR\" | paste -sd:); unset RBUILD_SHIM_DIR; fi\n"
    );
    assert_eq!(
        bash_hook(Some("/s")),
        format!("{reset}export RBUILD_SHIM_DIR='/s'; export PATH='/s':\"$PATH\"\n")
    );
    assert_eq!(
        fish_hook(Some("/s")),
        "if set -q RBUILD_SHIM_DIR; set PATH (string match -v -- $RBUILD_SHIM_DIR $PATH); set -e RBUILD_SHIM_DIR; end\nset -gx RBUILD_SHIM_DIR '/s'; set -gx PATH '/s' $PATH\n"
    );
    assert_eq!(
        powershell_hook(Some("/s")),
        "if ($env:RBUILD_SHIM_DIR) { $env:PATH = ($env:PATH -split ';' | Where-Object { $_ -ne $env:RBUILD_SHIM_DIR }) -join ';'; Remove-Item Env:\\RBUILD_SHIM_DIR } $env:RBUILD_SHIM_DIR = '/s'; $env:PATH = '/s' + ';' + $env:PATH"
    );
}

fn config() -> GlobalConfig {
    GlobalConfig {
        remote: RemoteConfig { host: "h".into(), identity_file: None, docker: String::new() },
        roots: vec![Root { path: "/code".into(), name: "Code".into() }],
        build: BuildSettings::default(),
    }
}

#[test]
fn shims_are_exposed_only_inside_a_code_root() {
    let c = config();
    assert_eq!(emit_hook(Shell::Bash, Some(&c), "/code/x", Some("/s")), bash_hook(Some("/s")));
    assert_eq!(emit_hook(Shell::Zsh, Some(&c), "/codex", Some("/s")), bash_hook(None));
    assert_eq!(emit_hook(Shell::Fish, Some(&c), "/code", None), fish_hook(None));
    assert_eq!(emit_hook(Shell::Fish, None, "/code", Some("/s")), fish_hook(None));
    assert_eq!(
        emit_hook(Shell::PowerShell, Some(&c), "/code", Some("/s")),
        powershell_hook(Some("/s"))
    );
    assert_eq!(emit_hook(Shell::Cmd, Some(&c), "/code", Some("/s")), "");
}

#[test]
fn cmd_integration_edits_one_segment() {
    let ours = cmd_segment("C:\\rb");
    assert_eq!(ours, "set \"PATH=C:\\rb;%PATH%\" # >>> rbuild >>>");
    let args = install_cmd(true, "C:\\rb", Some("doskey ls=dir $*".into())).unwrap();
    assert_eq!(
        args,
        vec![
            "add",
            "HKCU\\Software\\Microsoft\\Command Processor",
            "/v",
            "AutoRun",
            "/t",
            "REG_SZ",
            "/d",
            &format!("doskey ls=dir $*&{ours}"),
            "/f"
        ]
    );
    // Installing again gives the same value.
    assert_eq!(install_cmd(true, "C:\\rb", Some(args[7].clone())).unwrap(), args);
    assert_eq!(install_cmd(true, "C:\\rb", None).unwrap()[7], ours);
    assert_eq!(install_cmd(false, "C:\\rb", None), Err(HookError::CmdNeedsWindows));
    assert_eq!(
        HookError::CmdNeedsWindows.message(),
        "cmd integration is only available on Windows"
    );
}

#[test]
fn cmd_removal_leaves_the_rest() {
    let ours = cmd_segment("C:\\rb");
    let key = "HKCU\\Software\\Microsoft\\Command Processor";
    assert_eq!(
        uninstall_cmd(true, Some(ours.clone())).unwrap(),
        vec!["delete", key, "/v", "AutoRun", "/f"]
    );
    assert_eq!(uninstall_cmd(true, None).unwrap()[0], "delete");
    let args = uninstall_cmd(true, Some(format!("a&{ours}&b"))).unwrap();
    assert_eq!(args, vec!["add", key, "/v", "AutoRun", "/t", "REG_SZ", "/d", "a&b", "/f"]);
    assert_eq!(uninstall_cmd(true, Some("a&b".into())), None);
    assert_eq!(uninstall_cmd(false, Some(ours)), None);
}

#[test]
fn autorun_is_read_from_the_registry_listing() {
    assert_eq!(
        reg_query_args(),
        vec!["query", "HKCU\\Software\\Microsoft\\Command Processor", "/v", "AutoRun"]
    );
    let output = "\r\nHKEY_CURRENT_USER\\Software\\Microsoft\\Command Processor\r\n    AutoRun    REG_SZ    doskey ls=dir $*\r\n\r\n";
    assert_eq!(read_autorun(output), Some("doskey ls=dir $*".to_string()));
    assert_eq!(read_autorun("nothing here"), None);
    assert_eq!(read_autorun("AutoRun REG_DWORD 1\nAutoRun REG_SZ x\n"), None);
    assert_eq!(read_autorun("AutoRun REG_SZ a REG_SZ b"), Some("a".to_string()));
    assert_eq!(strip_autorun_segment(&strip_autorun_segment("a&&b")), "a&&b");
}
