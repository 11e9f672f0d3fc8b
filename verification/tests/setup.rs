use rbuild::client::agent::{
    batch_syncs, config_changed, config_fingerprint, group_roots, next_backoff, seahash,
};
use rbuild::client::commands::{
    cmd_add, cmd_hook, cmd_init, cmd_init_shell, cmd_location, cmd_roots, cmd_uninstall,
    hook_installed, is_yes, prompt, prompt_yes_no, remove_self, wipe_flag, CommandError,
    UninstallStep,
};
use rbuild::client::connection::{
    accept, after_check, connect_args, connect_or_deploy, hello, launch_script, ssh_failed,
    with_docker, ConnectError, ConnectFailure, ConnectStep, SSH_FAILED,
};
use rbuild::client::deploy::{
    bin_volume_present, bin_volume_script, cache_volume, daemon_binary, daemon_binary_places,
    detect_docker, docker_candidates, docker_cmd, docker_probe, kill_daemons, ssh_base, ssh_command,
    upload_script, wipe_remote, ws_volume, DeployError,
};
use rbuild::client::download;
use rbuild::client::image::{
    build_context, context_files, ensure_image, image_kind, image_name, image_present,
    inspect_script, Assets, ContextError,
};
use rbuild::client::service::{self, Manager};
use rbuild::client::shell_hook::Shell;
use rbuild::client::shim::{
    candidates, extensions, fall_back, find_real_on_path, install_shims, invoked_as, is_executable,
    is_remote_unreachable, not_found, run_as_shim, says_unreachable, search_places, shim_script, short_cause, ShimStep,
};
use rbuild::config::{
    default_workspace_name, workspace_id_for_name, BuildSettings, ConfigError, GlobalConfig,
    RemoteConfig, Root,
};
use rbuild::daemon::serve::handshake;
use rbuild::daemon::sync::workspace_dir;
use rbuild::path::{extend, portable, same_path};
use rbuild::merge::plan;
use rbuild::proto::{ManifestEntry, Message, Target, PROTOCOL_VERSION};
use rbuild::scan::Manifest;

fn remote() -> RemoteConfig {
    RemoteConfig { host: "me@build".into(), identity_file: None, docker: String::new() }
}

fn config(roots: &[(&str, &str)]) -> GlobalConfig {
    GlobalConfig {
        remote: remote(),
        roots: roots
            .iter()
            .map(|(p, n)| Root { path: p.to_string(), name: n.to_string() })
            .collect(),
        build: BuildSettings::default(),
    }
}

#[test]
fn default_settings() {
    let b = BuildSettings::default();
    assert_eq!(
        b.commands,
        vec!["cargo", "cmake", "make", "gradle", "mvn", "pip", "npm", "go", "msbuild"]
    );
    assert_eq!(b.artifacts, vec!["target/**"]);
    let c = config(&[]);
    assert_eq!(c.image_for(Target::Linux), "rbuild/linux:latest");
    assert_eq!(c.image_for(Target::Windows), "rbuild/wine:latest");
    assert_eq!(Target::default(), Target::Linux);
    assert_eq!(Target::host(true), Target::Windows);
    assert_eq!(Target::host(false), Target::Linux);
}

#[test]
fn config_lives_in_its_own_directory() {
    assert_eq!(GlobalConfig::path_in("/c"), "/c/config.toml");
    assert_eq!(GlobalConfig::shim_dir_in("/c"), "/c/shims");
    assert_eq!(GlobalConfig::config_dir_from(Some("/c".into())), Ok("/c".to_string()));
    assert_eq!(GlobalConfig::config_dir_from(None), Err(ConfigError::NoConfigDir));
    assert_eq!(ConfigError::NoConfigDir.message(), "could not determine config directory");
    if let Ok(dir) = GlobalConfig::config_dir() {
        // The directory is rbuild's own.
        let parts: Vec<&str> = dir.split(['/', '\\']).collect();
        assert!(parts[1..].contains(&"rbuild"), "{dir}");
        assert_eq!(GlobalConfig::path().unwrap(), GlobalConfig::path_in(&dir));
        assert_eq!(GlobalConfig::shim_dir().unwrap(), GlobalConfig::shim_dir_in(&dir));
    }
    // Without a configuration a minimal default stands in for it.
    let none = GlobalConfig::load_or_default(Err::<GlobalConfig, ()>(())).unwrap();
    assert!(none.roots.is_empty() && none.remote.host.is_empty());
    assert_eq!(none.build.commands, BuildSettings::default().commands);
    assert_eq!(none.build.artifacts, vec!["target/**"]);
    assert!(none.locate("/").is_none());
    let loaded = GlobalConfig::load_or_default(Ok::<GlobalConfig, ()>(config(&[("/c", "C")])));
    assert_eq!(loaded.unwrap().roots.len(), 1);
}

#[test]
fn roots_are_registered_once() {
    let mut c = config(&[("/a", "A"), ("/b", "B")]);
    c.add_root("/b/", "B2".into());
    c.add_root("/c", "C".into());
    let list: Vec<_> = c.roots.iter().map(|r| (r.path.as_str(), r.name.as_str())).collect();
    assert_eq!(list, vec![("/a", "A"), ("/b", "B2"), ("/c", "C")]);
}

#[test]
fn deepest_root_wins() {
    let c = config(&[("/code", "Code"), ("/code/deep", "Deep"), ("/other", "Other")]);
    let l = c.locate("/code/deep/x/y").unwrap();
    assert_eq!((l.root.as_str(), l.rel_cwd.as_str()), ("/code/deep", "x/y"));
    assert_eq!(l.workspace_id, workspace_id_for_name("Deep"));
    let l = c.locate("/code/deeper").unwrap();
    assert_eq!((l.root.as_str(), l.rel_cwd.as_str()), ("/code", "deeper"));
    assert_eq!(c.locate("/code").unwrap().rel_cwd, "");
    // Root and relative path together name the directory.
    let l = c.locate("/code//deep/./x/").unwrap();
    assert!(same_path(&extend(&l.root, &l.rel_cwd), "/code/deep/x"));
    assert!(c.locate("/codes").is_none());
    assert!(config(&[]).locate("/").is_none());
    // Of two roots of one length the later counts.
    let twice = config(&[("/code", "One"), ("/code", "Two")]);
    assert_eq!(twice.locate("/code").unwrap().workspace_id, workspace_id_for_name("Two"));
}

#[test]
fn windows_roots_are_found_whatever_the_case_of_the_drive() {
    assert_eq!(portable("c:\\Code\\x", true), "C:/Code/x");
    assert_eq!(portable("\\\\?\\d:\\Code", true), "//?/D:/Code");
    assert_eq!(portable("\\\\server\\share", true), "//server/share");
    assert_eq!(portable("c:\\Code\\x", false), "c:\\Code\\x");
    assert_eq!(portable("", true), "");
    let c = config(&[("c:\\Code", "Code")]).with_portable_roots(true);
    assert_eq!((c.roots[0].path.as_str(), c.roots[0].name.as_str()), ("C:/Code", "Code"));
    let l = c.locate(&portable("C:\\Code\\proj", true)).unwrap();
    assert_eq!((l.root.as_str(), l.rel_cwd.as_str()), ("C:/Code", "proj"));
    assert!(c.locate(&portable("d:\\Code\\proj", true)).is_none());
    let unix = config(&[("/a\\b", "B")]).with_portable_roots(false);
    assert_eq!(unix.roots[0].path, "/a\\b");
}

#[test]
fn workspace_ids_are_stable_and_safe() {
    let id = workspace_id_for_name("Code");
    assert_eq!(id, format!("Code-{}", &rbuild::hash::Hash::of(b"Code").to_hex()[..12]));
    assert_eq!(id, workspace_id_for_name("Code"));
    assert_ne!(id, workspace_id_for_name("code"));
    let odd = workspace_id_for_name("../a b/é_-");
    assert!(odd.starts_with("---a-b--_--"));
    assert_eq!(odd.len(), 11 + 12);
    let long = workspace_id_for_name(&"x".repeat(100));
    assert_eq!(long.len(), 24 + 1 + 12);
    for name in ["", "..", "a/b", "a\\b", "日本語"] {
        assert!(workspace_dir(&workspace_id_for_name(name), "/work").is_ok());
    }
    let root = Root { path: "/x".into(), name: "Code".into() };
    assert_eq!(root.workspace_id(), id);
    assert_eq!(default_workspace_name("/home/me/Code", false), "Code");
    assert_eq!(default_workspace_name("/", false), "root");
    assert_eq!(default_workspace_name("a/..", false), "root");
    assert_eq!(default_workspace_name("C:/", false), "C:");
    // On Windows a drive or a share has no name of its own.
    for nameless in ["C:/", "C:", "C:.", "//?/C:/", "//server/share/", "//?/UNC/server/share", "//./COM1"] {
        assert_eq!(default_workspace_name(nameless, true), "root", "{nameless}");
    }
    for named in ["D:/Code", "D:Code", "//?/D:/Code", "//server/share/Code", "//./COM1/Code", "/Code", "//Code"] {
        assert_eq!(default_workspace_name(named, true), "Code", "{named}");
    }
}

#[test]
fn shim_knows_its_command() {
    let s = |t: &str| Some(t.to_string());
    assert_eq!(invoked_as(Some("cargo"), Some("/bin/rbuild"), false), s("cargo"));
    assert_eq!(invoked_as(Some(""), Some("/shims/make"), false), s("make"));
    assert_eq!(invoked_as(None, Some("rbuild"), false), None);
    assert_eq!(invoked_as(None, Some("/x/rbuild.exe"), false), None);
    assert_eq!(invoked_as(None, Some("/x/cargo.exe"), false), s("cargo"));
    assert_eq!(invoked_as(None, Some(".."), false), None);
    assert_eq!(invoked_as(None, None, false), None);
    assert_eq!(invoked_as(None, Some("C:/x/cargo.exe"), true), s("cargo"));
    assert_eq!(invoked_as(None, Some("C:make.exe"), true), s("make"));
}

#[test]
fn shim_offloads_only_inside_and_only_its_commands() {
    let c = config(&[("/code", "Code")]);
    let argv = vec!["build".to_string()];
    match run_as_shim(Some(&c), "/code/p", "cargo", &argv) {
        ShimStep::Offload(full) => assert_eq!(full, vec!["cargo", "build"]),
        other => panic!("{other:?}"),
    }
    assert!(matches!(run_as_shim(Some(&c), "/tmp", "cargo", &argv), ShimStep::RunReal));
    assert!(matches!(run_as_shim(Some(&c), "/code", "grep", &argv), ShimStep::RunReal));
    assert!(matches!(run_as_shim(None, "/code", "cargo", &argv), ShimStep::RunReal));
}

fn texts(list: &[&str]) -> Vec<String> {
    list.iter().map(|t| t.to_string()).collect()
}

#[test]
fn unreachable_remote_falls_back() {
    for text in [
        "daemon did not respond. remote said: x",
        "ssh: Could not resolve hostname foo",
        "CONNECTION reset",
        "operation timed out",
        "No route to host",
        "launching ssh to h",
    ] {
        assert!(says_unreachable(text), "{text}");
        // However deep in the error the message lies.
        assert!(is_remote_unreachable(&texts(&["outer", "middle", text])));
    }
    assert!(!says_unreachable("remote build error: bad flag"));
    assert!(!is_remote_unreachable(&texts(&["remote build error: bad flag", "exit 1"])));
    assert!(!is_remote_unreachable(&[]));
    let refused = "daemon upload failed: ssh: connect to host h port 22: Connection refused";
    assert!(is_remote_unreachable(&texts(&["auto-deploying rbuildd", refused])));
    assert_eq!(short_cause(&texts(&["first\nsecond", "third"])), "first");
    assert_eq!(short_cause(&texts(&[""])), "unreachable");
    assert_eq!(short_cause(&[]), "unreachable");
    assert_eq!(
        fall_back(&texts(&["Connection refused\nmore"])).unwrap(),
        "rbuild: remote unreachable (Connection refused); building locally instead."
    );
    assert_eq!(
        fall_back(&texts(&["auto-deploying rbuildd", refused])).unwrap(),
        "rbuild: remote unreachable (auto-deploying rbuildd); building locally instead."
    );
    assert_eq!(fall_back(&texts(&["syntax error"])), None);
}

#[test]
fn every_failed_step_of_connecting_is_recognised() {
    let said = || "ssh: connect to host h port 22: Network is unreachable".to_string();
    let detect = |ssh_failed| {
        ConnectFailure::Detect { host: "h".into(), said: said(), ssh_failed }.messages()
    };
    let upload = |ssh_failed| ConnectFailure::Upload { said: said(), ssh_failed }.messages();
    assert!(is_remote_unreachable(&detect(true)));
    assert!(is_remote_unreachable(&upload(true)));
    // What failed on the remote itself must surface.
    assert!(!is_remote_unreachable(&detect(false)));
    assert!(!is_remote_unreachable(&upload(false)));
    assert_eq!(detect(false).len(), 1);
    assert_eq!(detect(true)[1], said());
    assert_eq!(upload(false)[0], "auto-deploying rbuildd");
    assert_eq!(upload(false)[1], format!("daemon upload failed: {}", said()));
    assert_eq!(upload(true)[2], SSH_FAILED);
    let silent = ConnectFailure::Launch { said: "  bash: docker: not found\n".into() }.messages();
    assert_eq!(silent, vec!["daemon did not respond. remote said: bash: docker: not found"]);
    assert!(is_remote_unreachable(&silent));
    assert!(ssh_failed(Some(255)) && ssh_failed(None));
    assert!(!ssh_failed(Some(0)) && !ssh_failed(Some(1)));
}

#[test]
fn real_command_is_searched_outside_the_shims() {
    let dirs = vec!["/usr/bin".to_string(), "/c/shims/".to_string(), "/bin".to_string()];
    let places = search_places(&dirs, Some("/c/shims"), "make", None);
    assert_eq!(places, vec!["/usr/bin/make", "/bin/make"]);
    assert_eq!(find_real_on_path(&places, &[false, true]), Some("/bin/make".to_string()));
    assert_eq!(find_real_on_path(&places, &[true, true]), Some("/usr/bin/make".to_string()));
    assert_eq!(find_real_on_path(&places, &[false, false]), None);
    assert_eq!(search_places(&dirs, None, "make", None).len(), 3);
    let exts = extensions(None);
    assert_eq!(
        candidates("d", "make", Some(&exts)),
        vec!["d/make.com", "d/make.exe", "d/make.bat", "d/make.cmd", "d/make"]
    );
    assert_eq!(candidates("d", "make", Some(".ÄX")), vec!["d/make.äx", "d/make"]);
    assert_eq!(extensions(Some(".PY".into())), ".PY");
    assert_eq!(candidates("d", "make", None), vec!["d/make"]);
    assert_eq!(not_found("make"), "`make` not found on PATH (outside rbuild shims)");
    assert!(is_executable(true, Some(0o755)) && is_executable(true, Some(0o001)));
    assert!(!is_executable(true, Some(0o644)) && !is_executable(false, Some(0o755)));
    assert!(is_executable(true, None) && !is_executable(false, None));
}

#[test]
fn shims_are_installed_per_command() {
    let commands = vec!["cargo".to_string(), "make".to_string()];
    assert_eq!(install_shims(false, "/s", &commands), vec!["/s/cargo", "/s/make"]);
    assert_eq!(install_shims(true, "/s", &commands), vec!["/s/cargo.cmd", "/s/make.cmd"]);
    assert_eq!(
        shim_script("cargo", "C:\\rbuild.exe"),
        "@echo off\r\nset \"RBUILD_SHIM_AS=cargo\"\r\n\"C:\\rbuild.exe\" %*\r\n"
    );
}

#[test]
fn volumes_are_named_after_the_workspace() {
    assert_eq!(ws_volume("x"), "rbuild-ws-x");
    assert_eq!(cache_volume("x"), "rbuild-cache-x");
    assert_ne!(ws_volume("x"), ws_volume("y"));
    assert_ne!(cache_volume("ws-x"), ws_volume("x"));
}

#[test]
fn ssh_is_called_in_batch_mode() {
    assert_eq!(ssh_base(&remote()), vec!["-o", "BatchMode=yes", "me@build"]);
    let keyed = RemoteConfig { identity_file: Some("/k".into()), ..remote() };
    assert_eq!(
        ssh_command(&keyed, "true"),
        vec!["-o", "BatchMode=yes", "-i", "/k", "me@build", "true"]
    );
}

#[test]
fn docker_is_detected() {
    assert_eq!(docker_cmd(&remote()), "docker");
    let sudo = with_docker(&remote(), "sudo docker".into());
    assert_eq!(docker_cmd(&sudo), "sudo docker");
    assert_eq!(sudo.host, "me@build");
    assert_eq!(docker_candidates(), vec!["docker", "sudo docker"]);
    assert_eq!(docker_probe("docker"), "docker version --format '{{.Server.Version}}'");
    assert_eq!(detect_docker(&remote(), true, true).unwrap(), "docker");
    assert_eq!(detect_docker(&remote(), false, true).unwrap(), "sudo docker");
    let e = detect_docker(&remote(), false, false).unwrap_err();
    assert_eq!(
        e.message(),
        "Docker not usable on me@build as `docker` or `sudo docker`. Ensure Docker is installed and your SSH user can run it (docker group, or passwordless sudo)."
    );
}

#[test]
fn daemon_is_deployed_into_its_volume() {
    assert_eq!(bin_volume_script("docker"), "docker volume ls -q -f name=^rbuild-bin$");
    assert!(bin_volume_present("rbuild-bin\n"));
    assert!(bin_volume_present("  other\n rbuild-bin \r\n"));
    assert!(!bin_volume_present("rbuild-bin2\n"));
    assert!(!bin_volume_present(""));
    assert_eq!(
        upload_script("docker"),
        "docker volume create --label rbuild=true rbuild-bin >/dev/null && docker run --rm -i -v rbuild-bin:/out --entrypoint sh alpine -c \"cat > /out/rbuildd && chmod 755 /out/rbuildd\""
    );
    assert_eq!(
        daemon_binary_places("/x"),
        ("/x/daemon/rbuildd".to_string(), "/x/../daemon/rbuildd".to_string())
    );
    assert_eq!(daemon_binary("/x", true, true).unwrap(), "/x/daemon/rbuildd");
    assert_eq!(daemon_binary("/x", false, true).unwrap(), "/x/../daemon/rbuildd");
    assert!(matches!(daemon_binary("/x", false, false), Err(DeployError::NoDaemonBinary)));
    assert_eq!(
        DeployError::NoDaemonBinary.message(),
        "static daemon binary not found (looked in target/daemon/). Build it with `scripts/build-daemon.sh`."
    );
}

#[test]
fn remote_is_wiped_by_label() {
    assert_eq!(
        wipe_remote("docker"),
        "vols=$(docker volume ls -q -f label=rbuild=true); [ -n \"$vols\" ] && docker volume rm -f $vols >/dev/null 2>&1; docker rmi rbuild/linux:latest rbuild/wine:latest >/dev/null 2>&1; true"
    );
    assert_eq!(
        kill_daemons("sudo docker"),
        "ids=$(sudo docker ps -q -f label=rbuild.role=daemon); [ -n \"$ids\" ] && sudo docker kill $ids >/dev/null 2>&1; true"
    );
}

#[test]
fn daemon_is_launched_with_its_volumes() {
    let script = launch_script("docker", "x");
    assert_eq!(
        script,
        "docker volume create --label rbuild=true rbuild-ws-x >/dev/null; \
         docker volume create --label rbuild=true rbuild-cache-x >/dev/null; \
         exec docker run --rm -i \
         --label rbuild.role=daemon \
         -v /var/run/docker.sock:/var/run/docker.sock \
         -v rbuild-bin:/rbuild-bin \
         -v rbuild-ws-x:/work \
         -v rbuild-cache-x:/cache \
         -e RBUILD_WORK=/work \
         -e RBUILD_WS_VOLUME=rbuild-ws-x \
         -e RBUILD_CACHE_VOLUME=rbuild-cache-x \
         docker:cli /rbuild-bin/rbuildd serve"
    );
    assert_eq!(connect_args(&remote(), "x").last().unwrap(), &script);
}

#[test]
fn connecting_takes_its_steps() {
    assert_eq!(connect_or_deploy(&remote()), ConnectStep::DetectDocker);
    let known = with_docker(&remote(), "docker".into());
    assert_eq!(connect_or_deploy(&known), ConnectStep::CheckVolume);
    assert_eq!(after_check(Some(true)), ConnectStep::Launch);
    assert_eq!(after_check(Some(false)), ConnectStep::Deploy);
    assert_eq!(after_check(None), ConnectStep::Deploy);
}

#[test]
fn client_and_daemon_shake_hands() {
    let (welcome, accepted) = handshake(&hello("0.1.0"), "7.7");
    assert!(accepted);
    assert_eq!(accept(welcome).unwrap(), "7.7");
    let (welcome, accepted) = handshake(&Message::SyncComplete, "7.7");
    assert!(!accepted);
    let e = accept(welcome).unwrap_err();
    assert_eq!(
        e.message().unwrap(),
        "daemon rejected handshake (protocol 1, ours 1): protocol version mismatch"
    );
    let newer = Message::Welcome {
        protocol: PROTOCOL_VERSION + 1,
        daemon_version: "8".into(),
        ok: true,
        message: "hi".into(),
    };
    assert!(matches!(accept(newer), Err(ConnectError::Rejected { protocol: 2, .. })));
    let e = accept(Message::SyncComplete).unwrap_err();
    assert!(matches!(&e, ConnectError::Unexpected(Message::SyncComplete)));
    assert_eq!(e.message(), None);
}

fn assets() -> Assets {
    Assets {
        linux_dockerfile: "FROM linux\n".into(),
        wine_dockerfile: "FROM wine\n".into(),
        wine_common: "common".into(),
        wine_cargo: "cargo".into(),
        wine_rustc: "rustc".into(),
    }
}

#[test]
fn images_are_built_when_missing() {
    assert_eq!(image_name(Target::Linux), "rbuild/linux:latest");
    assert_eq!(image_kind(Target::Windows), "Windows (Wine)");
    assert_eq!(
        inspect_script("docker", Target::Windows),
        "docker image inspect rbuild/wine:latest >/dev/null 2>&1 && echo yes || echo no"
    );
    assert!(image_present("yes\n") && !image_present("no\n") && !image_present(""));
    assert_eq!(ensure_image("docker", Target::Linux, true), None);
    assert_eq!(
        ensure_image("docker", Target::Linux, false).unwrap(),
        "docker build -t rbuild/linux:latest --label rbuild=true -"
    );
}

#[test]
fn build_context_is_a_tar_archive() {
    let files = context_files(Target::Windows, &assets());
    let names: Vec<_> = files.iter().map(|f| (f.path.as_str(), f.executable)).collect();
    assert_eq!(
        names,
        vec![
            ("Dockerfile", false),
            ("wine-wrappers/_common.sh", true),
            ("wine-wrappers/cargo", true),
            ("wine-wrappers/rustc", true)
        ]
    );
    let bytes = build_context(Target::Windows, &assets()).unwrap();
    let mut archive = tar::Archive::new(bytes.as_slice());
    let mut seen = Vec::new();
    for entry in archive.entries().unwrap() {
        let mut entry = entry.unwrap();
        let path = entry.path().unwrap().to_string_lossy().into_owned();
        let mode = entry.header().mode().unwrap();
        let mut content = Vec::new();
        std::io::Read::read_to_end(&mut entry, &mut content).unwrap();
        seen.push((path, mode, String::from_utf8(content).unwrap()));
    }
    let want = |p: &str, m: u32, c: &str| (p.to_string(), m, c.to_string());
    assert_eq!(
        seen,
        vec![
            want("Dockerfile", 0o644, "FROM wine\n"),
            want("wine-wrappers/_common.sh", 0o755, "common"),
            want("wine-wrappers/cargo", 0o755, "cargo"),
            want("wine-wrappers/rustc", 0o755, "rustc")
        ]
    );
    // The same context gives the same bytes.
    assert_eq!(bytes, build_context(Target::Windows, &assets()).unwrap());
    assert_ne!(bytes, build_context(Target::Linux, &assets()).unwrap());
    assert_eq!(ContextError::Add("x".into()).message(), "adding x to build context");
    assert_eq!(ContextError::Finish.message(), "finalizing build context tar");
}

#[test]
fn service_is_defined_per_platform() {
    assert_eq!(
        service::service_file(Manager::Systemd, "/home/me").unwrap(),
        "/home/me/.config/systemd/user/rbuild-agent.service"
    );
    assert_eq!(
        service::service_file(Manager::Launchd, "/Users/me").unwrap(),
        "/Users/me/Library/LaunchAgents/com.rbuild.rbuild-agent.plist"
    );
    assert_eq!(service::service_file(Manager::TaskScheduler, "x"), None);
    assert_eq!(
        service::service_definition(Manager::Systemd, "/usr/bin/rbuild").unwrap(),
        "[Unit]\n\
         Description=rbuild live-sync agent\n\
         After=network-online.target\n\n\
         [Service]\n\
         ExecStart=/usr/bin/rbuild agent\n\
         Restart=always\n\
         RestartSec=3\n\n\
         [Install]\n\
         WantedBy=default.target\n"
    );
    let plist = service::service_definition(Manager::Launchd, "/x/rbuild").unwrap();
    assert!(plist.contains("<key>Label</key><string>com.rbuild.rbuild-agent</string>\n"));
    assert!(plist.contains("<array><string>/x/rbuild</string><string>agent</string></array>\n"));
    assert_eq!(service::service_definition(Manager::TaskScheduler, "x"), None);
    assert_eq!(service::label(), "com.rbuild.rbuild-agent");
    assert!(service::managed(false) && !service::managed(true));
}

#[test]
fn service_is_registered_and_removed() {
    let list = service::install(Manager::Systemd, "/x", "/f", 0);
    assert_eq!(list.len(), 2);
    assert_eq!(list[1].program, "systemctl");
    assert_eq!(list[1].args, vec!["--user", "enable", "--now", "rbuild-agent"]);
    assert!(list[0].must_succeed && list[1].must_succeed);
    let list = service::install(Manager::Launchd, "/x", "/f", 501);
    assert_eq!(list[0].args, vec!["bootstrap", "gui/501", "/f"]);
    assert!(!list[0].must_succeed);
    let list = service::install(Manager::TaskScheduler, "C:\\r.exe", "", 0);
    assert_eq!(
        list[0].args,
        vec!["/Create", "/SC", "ONLOGON", "/TN", "rbuild-agent", "/TR", "\"C:\\r.exe\" agent", "/F"]
    );
    assert_eq!(list[1].args, vec!["/Run", "/TN", "rbuild-agent"]);
    let (before, after) = service::uninstall(Manager::Systemd, "/f", 0);
    assert_eq!(before[0].args, vec!["--user", "disable", "--now", "rbuild-agent"]);
    assert_eq!(after[0].args, vec!["--user", "daemon-reload"]);
    let (before, after) = service::uninstall(Manager::Launchd, "/f", 7);
    assert_eq!(before[0].args, vec!["bootout", "gui/7", "/f"]);
    assert!(after.is_empty());
    let (before, _) = service::uninstall(Manager::TaskScheduler, "", 0);
    assert_eq!(before[0].args, vec!["/End", "/TN", "rbuild-agent"]);
    assert_eq!(before[1].args, vec!["/Delete", "/TN", "rbuild-agent", "/F"]);
}

#[test]
fn agent_groups_roots_by_workspace() {
    let c = config(&[("/b", "Two"), ("/a", "One"), ("/c", "Two")]);
    let groups = group_roots(&c.roots);
    let mut want = vec![
        (workspace_id_for_name("One"), vec!["/a".to_string()]),
        (workspace_id_for_name("Two"), vec!["/b".to_string(), "/c".to_string()]),
    ];
    want.sort();
    let got: Vec<_> = groups.into_iter().map(|g| (g.workspace_id, g.roots)).collect();
    assert_eq!(got, want);
    assert!(group_roots(&[]).is_empty());
}

#[test]
fn agent_notices_config_edits() {
    assert_eq!(seahash(b""), 1469598103934665603);
    assert_eq!(seahash(b"a"), (1469598103934665603u64 ^ 97).wrapping_mul(1099511628211));
    let a = config_fingerprint(Some(b"roots = []"));
    let b = config_fingerprint(Some(b"roots = [1]"));
    assert!(config_changed(a, b) && !config_changed(a, a));
    assert!(config_changed(a, config_fingerprint(None)));
    assert!(!config_changed(None, None));
    assert!(batch_syncs(3) && !batch_syncs(0));
}

#[test]
fn agent_backs_off() {
    let mut waits = vec![2];
    for _ in 0..6 {
        waits.push(next_backoff(*waits.last().unwrap(), false));
    }
    assert_eq!(waits, vec![2, 4, 8, 16, 32, 60, 60]);
    assert_eq!(next_backoff(60, true), 2);
    assert_eq!(next_backoff(u64::MAX, false), 60);
}

#[test]
fn init_preserves_what_is_there() {
    let fresh = cmd_init(None, "h".into());
    assert_eq!((fresh.remote.host.as_str(), fresh.remote.docker.as_str()), ("h", ""));
    assert!(fresh.roots.is_empty() && fresh.remote.identity_file.is_none());
    assert_eq!(fresh.build.commands.len(), 9);
    let mut old = config(&[("/code", "Code")]);
    old.remote.docker = "sudo docker".into();
    let again = cmd_init(Some(old), "new".into());
    assert_eq!((again.remote.host.as_str(), again.remote.docker.as_str()), ("new", "sudo docker"));
    assert_eq!(again.roots.len(), 1);
}

#[test]
fn add_names_the_root_after_its_folder() {
    let mut c = config(&[]);
    assert_eq!(cmd_add(&mut c, "/home/me/Code", None, false), "Code");
    assert_eq!(cmd_add(&mut c, "/home/me/Code", Some("Shared".into()), false), "Shared");
    assert_eq!(c.roots.len(), 1);
    assert_eq!(cmd_roots(&c), vec!["/home/me/Code  (workspace 'Shared')"]);
    assert_eq!(
        cmd_roots(&config(&[])),
        vec!["No code roots registered. Add one with `rbuild add ~/Code`."]
    );
}

#[test]
fn commands_need_a_tracked_directory() {
    let c = config(&[("/code", "Code")]);
    assert_eq!(cmd_location(Some(&c), "/code/x").unwrap().rel_cwd, "x");
    let text = |e: CommandError| e.message();
    assert_eq!(
        text(cmd_location(Some(&c), "/tmp").unwrap_err()),
        "not inside a registered code root — add one with `rbuild add`"
    );
    assert_eq!(
        text(cmd_location(None, "/tmp").unwrap_err()),
        "no global config — run `rbuild init <host>` first"
    );
    assert_eq!(cmd_init_shell("Fish").unwrap(), Shell::Fish);
    assert_eq!(
        text(cmd_init_shell("tcsh").unwrap_err()),
        "unknown shell \"tcsh\" (bash|zsh|fish|powershell|cmd)"
    );
    assert_eq!(cmd_hook("zsh").unwrap(), Shell::Zsh);
    assert_eq!(text(cmd_hook("a\tb").unwrap_err()), "unknown shell \"a\\tb\"");
    assert_eq!(
        hook_installed(Shell::Bash),
        "Installed rbuild hook for bash. Restart your shell or open a new one to activate it."
    );
}

#[test]
fn uninstall_asks_unless_told() {
    assert_eq!(wipe_flag(false, true), Some(true));
    assert_eq!(wipe_flag(true, false), Some(false));
    assert_eq!(wipe_flag(false, false), None);
    assert!(is_yes(" Y\n") && is_yes("yEs") && !is_yes("ÿ") && !is_yes("") && !is_yes("yep"));
    assert!(prompt_yes_no(Some("y")) && !prompt_yes_no(Some("n")) && !prompt_yes_no(None));
    assert_eq!(prompt("Sure?"), "Sure? [y/N] ");
    assert_eq!(
        remove_self("C:\\r.exe"),
        "ping 127.0.0.1 -n 2 >nul & del /f /q \"C:\\r.exe\""
    );
}

#[test]
fn uninstall_takes_its_steps_in_order() {
    let steps = cmd_uninstall(true, true);
    assert_eq!(steps[0], UninstallStep::WipeRemote);
    assert_eq!(steps[1], UninstallStep::RemoveHook(Shell::Bash));
    assert_eq!(steps[steps.len() - 1], UninstallStep::RemoveBinary);
    assert_eq!(steps.len(), 10);
    let local = cmd_uninstall(false, true);
    assert_eq!(local, steps[1..].to_vec());
    assert_eq!(cmd_uninstall(true, false), local);
    for shell in [Shell::Bash, Shell::Zsh, Shell::Fish, Shell::PowerShell, Shell::Cmd] {
        assert!(local.contains(&UninstallStep::RemoveHook(shell)));
    }
}

#[test]
fn download_registers_the_directory() {
    let mut c = config(&[("/code", "Code")]);
    let start = download::run(&mut c, "/new", "Shared");
    assert_eq!(start.workspace_id, workspace_id_for_name("Shared"));
    assert_eq!((c.roots[1].path.as_str(), c.roots[1].name.as_str()), ("/new", "Shared"));
    // Whatever was synced before, the download starts from nothing and fetches
    // everything.
    assert_eq!(start.ancestor.len(), 0);
    let mut remote = Manifest::new();
    for path in ["a", "b/c"] {
        let hash = rbuild::hash::Hash::of(path.as_bytes());
        let entry = ManifestEntry { path: path.to_string(), hash, len: 1, mode: 0o644 };
        remote.insert(path.to_string(), entry);
    }
    let p = plan(&Manifest::new(), &start.ancestor, &remote);
    assert_eq!(p.pull, vec!["a", "b/c"]);
    assert!(p.push.is_empty() && p.delete_remote.is_empty() && p.delete_local.is_empty());
    assert_eq!(download::starting("Shared", "/new"), "Downloading workspace 'Shared' into /new …");
    assert_eq!(download::finished(12, "/new"), "Downloaded 12 file(s) into /new.");
}
