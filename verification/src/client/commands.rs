//! The decisions behind rbuild's commands: what they do to the configuration,
//! what they say, and in which order an uninstall takes things off.

use vstd::prelude::*;
use vstd::string::StringExecFns;

use crate::client::shell_hook::{shell_named, Shell};
use crate::config::{
    chosen, default_command_names, default_workspace_name, registered, workspace_id, BuildSettings,
    GlobalConfig, Location, RemoteConfig, Root,
};
use crate::path::{components, name_on, rest, starts_with};
use crate::text::{
    all_ascii, lowercase, lowered, quote, quoted, replaced, same, to_lowercase, trim, trimmed, views,
};

verus! {

/// Why a command could not be carried out.
#[derive(Debug)]
pub enum CommandError {
    /// rbuild has not been pointed at a remote yet.
    NoConfig,
    /// The directory lies in no registered code root.
    NotTracked,
    /// The shell to set up is not one that rbuild knows.
    UnknownShell(String),
    /// The shell that asks for its prompt code is not one that rbuild knows.
    UnknownHookShell(String),
}

impl CommandError {
    /// What went wrong, in words.
    pub open spec fn text(self) -> Seq<char> {
        match self {
            CommandError::NoConfig => "no global config — run `rbuild init <host>` first"@,
            CommandError::NotTracked => "not inside a registered code root — add one with `rbuild add`"@,
            CommandError::UnknownShell(s) => "unknown shell "@ + quoted(s@)
                + " (bash|zsh|fish|powershell|cmd)"@,
            CommandError::UnknownHookShell(s) => "unknown shell "@ + quoted(s@),
        }
    }

    /// What went wrong, in words.
    pub fn message(&self) -> (text: String)
        ensures
            text@ == self.text(),
    {
        match self {
            CommandError::NoConfig => "no global config — run `rbuild init <host>` first".to_owned(),
            CommandError::NotTracked => "not inside a registered code root — add one with `rbuild add`".to_owned(),
            CommandError::UnknownShell(s) => "unknown shell ".to_owned().concat(
                quote(s.as_str()).as_str(),
            ).concat(" (bash|zsh|fish|powershell|cmd)"),
            CommandError::UnknownHookShell(s) => "unknown shell ".to_owned().concat(
                quote(s.as_str()).as_str(),
            ),
        }
    }
}

/// The configuration after `rbuild init <host>`: roots and build settings are
/// preserved when reconfiguring an existing install.
pub fn cmd_init(existing: Option<GlobalConfig>, host: String) -> (config: GlobalConfig)
    ensures
        config.remote.host == host,
        match existing {
            Some(old_config) => {
                &&& config.remote.identity_file == old_config.remote.identity_file
                &&& config.remote.docker == old_config.remote.docker
                &&& config.roots == old_config.roots
                &&& config.build == old_config.build
            },
            None => {
                &&& config.remote.identity_file is None
                &&& config.remote.docker@.len() == 0
                &&& config.roots@.len() == 0
                &&& config.build.linux_image@ == "rbuild/linux:latest"@
                &&& config.build.wine_image@ == "rbuild/wine:latest"@
                &&& views(config.build.artifacts@) == seq!["target/**"@]
                &&& views(config.build.commands@) == default_command_names()
            },
        },
{
    match existing {
        Some(mut config) => {
            config.remote.host = host;
            config
        },
        None => GlobalConfig {
            remote: RemoteConfig { host, identity_file: None, docker: String::new() },
            roots: Vec::new(),
            build: BuildSettings::default(),
        },
    }
}

/// What a root is called when the user gives no name: after its folder.
pub open spec fn name_for(root: Seq<char>, name: Option<String>, windows: bool) -> Seq<char> {
    match name {
        Some(n) => n@,
        None => match name_on(root, windows) {
            Some(n) => n,
            None => "root"@,
        },
    }
}

/// Registers a code root, as `rbuild add` does, and returns the name of its
/// workspace.
pub fn cmd_add(
    config: &mut GlobalConfig,
    root: &str,
    name: Option<String>,
    windows: bool,
) -> (used: String)
    ensures
        used@ == name_for(root@, name, windows),
        final(config).remote == old(config).remote,
        final(config).build == old(config).build,
        forall|k: int| #[trigger]
            registered(old(config).roots@, root@, k) ==> final(config).roots@ == old(
                config,
            ).roots@.update(k, Root { path: old(config).roots@[k].path, name: used }),
        (forall|k: int| !#[trigger] registered(old(config).roots@, root@, k)) ==> {
            let n = old(config).roots@.len() as int;
            &&& final(config).roots@.len() == n + 1
            &&& final(config).roots@.take(n) == old(config).roots@
            &&& final(config).roots@[n].path@ == root@
            &&& final(config).roots@[n].name == used
        },
{
    let used = match name {
        Some(n) => n,
        None => default_workspace_name(root, windows),
    };
    config.add_root(root, used.clone());
    used
}

/// What `rbuild roots` prints, line by line.
pub open spec fn roots_lines(roots: Seq<Root>) -> Seq<Seq<char>> {
    if roots.len() == 0 {
        seq!["No code roots registered. Add one with `rbuild add ~/Code`."@]
    } else {
        Seq::new(
            roots.len(),
            |i: int| roots[i].path@ + "  (workspace '"@ + roots[i].name@ + "')"@,
        )
    }
}

/// What `rbuild roots` prints, line by line.
pub fn cmd_roots(config: &GlobalConfig) -> (list: Vec<String>)
    ensures
        views(list@) == roots_lines(config.roots@),
{
    let mut list: Vec<String> = Vec::new();
    if config.roots.len() == 0 {
        list.push("No code roots registered. Add one with `rbuild add ~/Code`.".to_owned());
        assert(views(list@) =~= roots_lines(config.roots@));
        return list;
    }
    let mut i: usize = 0;
    while i < config.roots.len()
        invariant
            i <= config.roots@.len(),
            config.roots@.len() > 0,
            views(list@) =~= roots_lines(config.roots@).take(i as int),
        decreases config.roots@.len() - i,
    {
        let r = &config.roots[i];
        let ghost before = list@;
        list.push(
            r.path.clone().concat("  (workspace '").concat(r.name.as_str()).concat("')"),
        );
        assert(views(list@) =~= views(before).push(roots_lines(config.roots@)[i as int]));
        i = i + 1;
    }
    assert(roots_lines(config.roots@).take(config.roots@.len() as int) =~= roots_lines(
        config.roots@,
    ));
    list
}

/// Where a command that works on the current code root works: what `rbuild
/// sync` and every build start with.
pub fn cmd_location(config: Option<&GlobalConfig>, cwd: &str) -> (found: Result<
    Location,
    CommandError,
>)
    ensures
        match found {
            Ok(l) => config matches Some(c) && exists|k: int| #[trigger]
                chosen(c.roots@, cwd@, k) && l.root == c.roots@[k].path && l.workspace_id@
                    == workspace_id(c.roots@[k].name@) && l.rel_cwd@ == replaced(
                    rest(cwd@, components(c.roots@[k].path@).len() as int),
                    '\\',
                    '/',
                ),
            Err(CommandError::NoConfig) => config is None,
            Err(e) => e == CommandError::NotTracked && (config matches Some(c) && forall|k: int|
                0 <= k < c.roots@.len() ==> !starts_with(cwd@, (#[trigger] c.roots@[k]).path@)),
        },
{
    match config {
        None => Err(CommandError::NoConfig),
        Some(c) => match c.locate(cwd) {
            Some(l) => Ok(l),
            None => Err(CommandError::NotTracked),
        },
    }
}

/// What becomes of a shell's name, given the shell that it stands for.
pub open spec fn set_up(
    named: Option<Shell>,
    name: Seq<char>,
    out: Result<Shell, CommandError>,
) -> bool {
    match named {
        Some(s) => out == Ok::<Shell, CommandError>(s),
        None => out matches Err(CommandError::UnknownShell(t)) && t@ == name,
    }
}

/// The same for the shell that asks for its prompt code.
pub open spec fn hooked(
    named: Option<Shell>,
    name: Seq<char>,
    out: Result<Shell, CommandError>,
) -> bool {
    match named {
        Some(s) => out == Ok::<Shell, CommandError>(s),
        None => out matches Err(CommandError::UnknownHookShell(t)) && t@ == name,
    }
}

/// The shell that `rbuild init-shell` sets up.
pub fn cmd_init_shell(shell: &str) -> (out: Result<Shell, CommandError>)
    ensures
        set_up(shell_named(lowercase(shell@)), shell@, out),
        all_ascii(shell@) ==> set_up(shell_named(lowered(shell@)), shell@, out),
{
    match Shell::parse(shell) {
        Some(s) => Ok(s),
        None => Err(CommandError::UnknownShell(shell.to_owned())),
    }
}

/// What is said once a shell's hook is installed.
pub fn hook_installed(shell: Shell) -> (text: String)
    ensures
        text@ == "Installed rbuild hook for "@ + shell.text()
            + ". Restart your shell or open a new one to activate it."@,
{
    "Installed rbuild hook for ".to_owned().concat(shell.name()).concat(
        ". Restart your shell or open a new one to activate it.",
    )
}

/// The shell that `rbuild hook` prints its code for.
pub fn cmd_hook(shell: &str) -> (out: Result<Shell, CommandError>)
    ensures
        hooked(shell_named(lowercase(shell@)), shell@, out),
        all_ascii(shell@) ==> hooked(shell_named(lowered(shell@)), shell@, out),
{
    match Shell::parse(shell) {
        Some(s) => Ok(s),
        None => Err(CommandError::UnknownHookShell(shell.to_owned())),
    }
}

/// Whether an answer in lowercase is a yes.
pub open spec fn says_yes(answer: Seq<char>) -> bool {
    answer == "y"@ || answer == "yes"@
}

/// Whether an answer to a yes/no question is a yes, in upper or lower case.
pub fn is_yes(answer: &str) -> (yes: bool)
    ensures
        yes == says_yes(lowercase(trimmed(answer@))),
        all_ascii(trimmed(answer@)) ==> yes == says_yes(lowered(trimmed(answer@))),
{
    let bare = to_lowercase(trim(answer).as_str());
    same(bare.as_str(), "y") || same(bare.as_str(), "yes")
}

/// How a yes/no question is put; no answer means no.
pub fn prompt(question: &str) -> (text: String)
    ensures
        text@ == question@ + " [y/N] "@,
{
    question.to_owned().concat(" [y/N] ")
}

/// What was answered on the terminal; `None` when it is not interactive or
/// could not be read, so scripted or piped invocations never accidentally wipe
/// a shared remote.
pub fn prompt_yes_no(answer: Option<&str>) -> (yes: bool)
    ensures
        match answer {
            Some(a) => yes == says_yes(lowercase(trimmed(a@))) && (all_ascii(trimmed(a@)) ==> yes
                == says_yes(lowered(trimmed(a@)))),
            None => !yes,
        },
{
    match answer {
        Some(a) => is_yes(a),
        None => false,
    }
}

/// Whether the flags decide about wiping the remote; where they do not, the
/// user is asked.
pub fn wipe_flag(keep_remote: bool, wipe_remote: bool) -> (decided: Option<bool>)
    ensures
        decided == if wipe_remote {
            Some(true)
        } else if keep_remote {
            Some(false)
        } else {
            None
        },
{
    if wipe_remote {
        Some(true)
    } else if keep_remote {
        Some(false)
    } else {
        None
    }
}

/// A step of an uninstall.
#[derive(Debug, Clone, Copy, PartialEq, Eq, Structural)]
pub enum UninstallStep {
    /// Remove everything that rbuild has on the remote.
    WipeRemote,
    RemoveHook(Shell),
    RemoveShims,
    /// Stop and remove the login service running the agent.
    RemoveService,
    RemoveConfigDir,
    RemoveBinary,
}

/// The steps of a local uninstall: shell hooks, shims, the service, then the
/// whole config dir and finally the binary itself.
pub open spec fn local_steps() -> Seq<UninstallStep> {
    seq![
        UninstallStep::RemoveHook(Shell::Bash),
        UninstallStep::RemoveHook(Shell::Zsh),
        UninstallStep::RemoveHook(Shell::Fish),
        UninstallStep::RemoveHook(Shell::PowerShell),
        UninstallStep::RemoveHook(Shell::Cmd),
        UninstallStep::RemoveShims,
        UninstallStep::RemoveService,
        UninstallStep::RemoveConfigDir,
        UninstallStep::RemoveBinary,
    ]
}

/// The steps of an uninstall, in order. The remote is wiped first, while the
/// configuration that says where it is still exists, and only if there is one.
pub fn cmd_uninstall(wipe: bool, configured: bool) -> (steps: Vec<UninstallStep>)
    ensures
        steps@ == if wipe && configured {
            seq![UninstallStep::WipeRemote] + local_steps()
        } else {
            local_steps()
        },
{
    let mut steps: Vec<UninstallStep> = Vec::new();
    if wipe && configured {
        steps.push(UninstallStep::WipeRemote);
    }
    steps.push(UninstallStep::RemoveHook(Shell::Bash));
    steps.push(UninstallStep::RemoveHook(Shell::Zsh));
    steps.push(UninstallStep::RemoveHook(Shell::Fish));
    steps.push(UninstallStep::RemoveHook(Shell::PowerShell));
    steps.push(UninstallStep::RemoveHook(Shell::Cmd));
    steps.push(UninstallStep::RemoveShims);
    steps.push(UninstallStep::RemoveService);
    steps.push(UninstallStep::RemoveConfigDir);
    steps.push(UninstallStep::RemoveBinary);
    proof {
        if wipe && configured {
            assert(steps@ =~= seq![UninstallStep::WipeRemote] + local_steps());
        } else {
            assert(steps@ =~= local_steps());
        }
    }
    steps
}

/// An uninstall leaves no shell hooked: the hook of every shell is removed.
pub proof fn law_uninstall_removes_every_hook(shell: Shell)
    ensures
        local_steps().contains(UninstallStep::RemoveHook(shell)),
{
    let i = match shell {
        Shell::Bash => 0int,
        Shell::Zsh => 1,
        Shell::Fish => 2,
        Shell::PowerShell => 3,
        Shell::Cmd => 4,
    };
    assert(local_steps()[i] == UninstallStep::RemoveHook(shell));
}

/// The command that deletes the client's binary on Windows once this process is
/// gone: a running .exe can't delete itself. The path is quoted so paths with
/// spaces work.
pub fn remove_self(exe: &str) -> (script: String)
    ensures
        script@ == "ping 127.0.0.1 -n 2 >nul & del /f /q \""@ + exe@ + "\""@,
{
    "ping 127.0.0.1 -n 2 >nul & del /f /q \"".to_owned().concat(exe).concat("\"")
}

/// An uninstall goes from the outside in: every hook, the shims and the service go
/// before the configuration directory, the binary goes last, nothing goes twice,
/// and the remote is not touched by it.
pub proof fn law_uninstall_removes_the_binary_last(i: int)
    requires
        0 <= i < local_steps().len(),
    ensures
        local_steps().contains(UninstallStep::RemoveShims),
        local_steps().contains(UninstallStep::RemoveService),
        local_steps().contains(UninstallStep::RemoveConfigDir),
        local_steps().contains(UninstallStep::RemoveBinary),
        local_steps()[i] != UninstallStep::WipeRemote,
        local_steps()[i] == UninstallStep::RemoveBinary <==> i == local_steps().len() - 1,
        local_steps()[i] == UninstallStep::RemoveConfigDir <==> i == local_steps().len() - 2,
        forall|j: int| 0 <= j < i ==> #[trigger] local_steps()[j] != local_steps()[i],
{
    let steps = local_steps();
    assert(steps[5] == UninstallStep::RemoveShims);
    assert(steps[6] == UninstallStep::RemoveService);
    assert(steps[7] == UninstallStep::RemoveConfigDir);
    assert(steps[8] == UninstallStep::RemoveBinary);
}

/// Every root is listed on a line of its own, in order, by its path and the name
/// of its workspace.
pub proof fn law_every_root_is_listed(roots: Seq<Root>, i: int)
    requires
        0 <= i < roots.len(),
    ensures
        roots_lines(roots).len() == roots.len(),
        roots_lines(roots)[i] == roots[i].path@ + "  (workspace '"@ + roots[i].name@ + "')"@,
{
}

/// A root is called as the user says, or else after its folder, on every platform.
/// On Windows the latter speaks of folders on a drive.
pub proof fn law_root_is_called_after_its_folder(
    dir: Seq<char>,
    folder: Seq<char>,
    name: String,
    windows: bool,
)
    requires
        dir.len() > 0,
        dir.last() != '/',
        folder.len() > 0,
        !folder.contains('/'),
        folder != "."@,
        folder != ".."@,
        windows ==> dir.len() >= 2 && ('a' <= dir[0] <= 'z' || 'A' <= dir[0] <= 'Z') && dir[1]
            == ':',
    ensures
        name_for(dir + seq!['/'] + folder, None, windows) == folder,
        name_for(dir + seq!['/'] + folder, Some(name), windows) == name@,
{
    crate::path::law_own_name_on_a_platform(dir, folder, windows);
}

/// A shell is set up, or its prompt code printed, just where its name stands for a
/// shell; an unknown name comes back in the error.
pub proof fn law_unknown_shells_are_refused(
    named: Option<Shell>,
    name: Seq<char>,
    out: Result<Shell, CommandError>,
)
    ensures
        set_up(named, name, out) ==> (out is Ok <==> named is Some) && (out matches Ok(s) ==> named
            == Some(s)) && (out matches Err(e) ==> (e matches CommandError::UnknownShell(t) && t@
            == name)),
        hooked(named, name, out) ==> (out is Ok <==> named is Some) && (out matches Ok(s) ==> named
            == Some(s)) && (out matches Err(e) ==> (e matches CommandError::UnknownHookShell(t)
            && t@ == name)),
{
}

/// Only `y` and `yes` are a yes.
pub proof fn law_only_yes_is_a_yes(answer: Seq<char>)
    ensures
        says_yes(answer) <==> answer == seq!['y'] || answer == seq!['y', 'e', 's'],
{
    reveal_strlit("y");
    reveal_strlit("yes");
    assert("y"@ =~= seq!['y']);
    assert("yes"@ =~= seq!['y', 'e', 's']);
}

/// The errors about shells quote the name that was given.
pub proof fn law_shell_errors_quote_the_name(name: String)
    ensures
        crate::text::has_text(CommandError::UnknownShell(name).text(), quoted(name@)),
        crate::text::has_text(CommandError::UnknownHookShell(name).text(), quoted(name@)),
{
    let q = quoted(name@);
    let a = CommandError::UnknownShell(name).text();
    let b = CommandError::UnknownHookShell(name).text();
    assert(a =~= "unknown shell "@ + q + " (bash|zsh|fish|powershell|cmd)"@);
    assert(b =~= "unknown shell "@ + q + Seq::<char>::empty());
    crate::text::law_prefix_suffix_and_infix(a, q);
    crate::text::law_prefix_suffix_and_infix(b, q);
}

/// Where no root is registered, one line says how to add one.
pub proof fn law_no_roots_are_said_to_be_none(roots: Seq<Root>)
    requires
        roots.len() == 0,
    ensures
        roots_lines(roots).len() == 1,
        roots_lines(roots)[0] == "No code roots registered. Add one with `rbuild add ~/Code`."@,
{
}

} // verus!
