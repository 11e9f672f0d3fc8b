use rbuild::chunk::{compress, make_delta, signature, CodecError, DeltaError};
use rbuild::daemon::backend::{
    exit_code, for_target, BuildBackend, BuildSink, DockerBackend, OutputSink, Reading,
};
use rbuild::daemon::builds::{
    artifact_path, artifact_rel, compiled, offer, run, scan_artifacts, send_artifact, BuildError,
};
use rbuild::daemon::serve::{
    handshake, workspace_root, Action, FrameStep, ServeError, Server, SyncStep,
};
use rbuild::daemon::sync::{
    file_frames, finish_file, prune_empty_dirs, send_file, set_mode, workspace_dir, Dir, Incoming,
    IncomingDelta, PendingDelta, SyncError, SyncSession,
};
use rbuild::proto::{
    BuildRequest, DeltaOpKind, ManifestEntry, Message, OutputFd, Target, PROTOCOL_VERSION,
};
use rbuild::scan::Manifest;
use rbuild::transport::Frame;

fn entry(path: &str) -> ManifestEntry {
    ManifestEntry {
        path: path.to_string(),
        hash: rbuild::hash::Hash::of(path.as_bytes()),
        len: 1,
        mode: 0o644,
    }
}

fn manifest(paths: &[&str]) -> Manifest {
    let mut m = Manifest::new();
    for p in paths {
        m.insert(p.to_string(), entry(p));
    }
    m
}

fn session() -> SyncSession {
    SyncSession::open(1, "/work".to_string())
}

#[test]
fn workspace_ids_must_be_plain_names() {
    assert_eq!(workspace_dir("Code-0123", "/work").unwrap(), "/work");
    for id in ["", "a/b", "a\\b", "..", "a..b"] {
        match workspace_dir(id, "/work") {
            Err(SyncError::InvalidWorkspace(bad)) => assert_eq!(bad, id),
            other => panic!("{id:?} gave {other:?}"),
        }
    }
    assert_eq!(
        SyncError::InvalidWorkspace("a\"b".into()).message(),
        "invalid workspace id \"a\\\"b\""
    );
    assert_eq!(SyncError::Escapes("../x".into()).message(), "path \"../x\" escapes workspace");
    assert_eq!(workspace_root(None), "/work");
    assert_eq!(workspace_root(Some("/tmp/w".into())), "/tmp/w");
}

#[test]
fn compressed_file_is_written_after_one_frame() {
    let mut s = session();
    let data = b"fn main() {}".to_vec();
    s.on_file_header("src/main.rs".into(), data.len() as u64, 0o755, true);
    let w = s.on_data(&compress(&data).unwrap()).unwrap().unwrap();
    assert_eq!(w.target, "/work/src/main.rs");
    assert_eq!(w.data, data);
    assert_eq!(w.mode, 0o755);
    assert!(w.make_parent);
    // The transfer is over: more data has no header.
    assert!(matches!(s.on_data(b"x"), Err(SyncError::NoFileHeader)));
    assert_eq!(SyncError::NoFileHeader.message(), "data frame with no FileHeader");
}

#[test]
fn raw_file_is_written_when_full() {
    let mut s = session();
    s.on_file_header("a".into(), 5, 0, false);
    assert!(s.on_data(b"ab").unwrap().is_none());
    assert!(s.on_data(b"cd").unwrap().is_none());
    let w = s.on_data(b"ef").unwrap().unwrap();
    assert_eq!(w.data, b"abcdef");
    assert_eq!(set_mode(w.mode), None);
    assert_eq!(set_mode(0o644), Some(0o644));
}

#[test]
fn file_outside_the_workspace_is_refused() {
    let mut s = session();
    s.on_file_header("../etc/passwd".into(), 0, 0, false);
    match s.on_data(b"x") {
        Err(SyncError::Escapes(rel)) => assert_eq!(rel, "../etc/passwd"),
        other => panic!("{other:?}"),
    }
    s.on_file_header("a".into(), 0, 0, true);
    assert!(matches!(s.on_data(b"garbage"), Err(SyncError::Codec(CodecError::Decompress(_)))));
    let inc = Incoming { path: "a".into(), len: 0, mode: 0, compressed: true, buf: vec![] };
    assert!(matches!(
        finish_file(inc, "/work", Err(CodecError::Decompress("no".into()))),
        Err(SyncError::Codec(CodecError::Decompress(_)))
    ));
}

#[test]
fn delta_push_arrives() {
    let base: Vec<u8> = (0..200_000usize).map(|i| (i.wrapping_mul(2654435761) >> 13) as u8).collect();
    let mut new = base.clone();
    new[100_000] ^= 0xFF;
    let mut s = session();

    // The daemon's signature reaches the client.
    assert_eq!(s.delta_base("big").unwrap(), "/work/big");
    let chunks = match s.on_delta_request("big".into(), Some(&base)) {
        Message::DeltaSignature { path, chunks } => {
            assert_eq!(path, "big");
            chunks
        }
        other => panic!("{other:?}"),
    };
    let (ops, literals) = make_delta(&new, &chunks);
    s.on_delta_instructions("big".into(), new.len() as u64, 0o600, ops);
    let packed = compress(&literals).unwrap();
    // The literals may come in several frames.
    assert!(s.on_data(&packed[..3]).unwrap().is_none());
    assert!(s.on_data(&packed[3..]).unwrap().is_none());
    let w = s.on_delta_end().unwrap().rebuild(&base).unwrap();
    assert_eq!(w.data, new);
    assert_eq!((w.target.as_str(), w.mode, w.make_parent), ("/work/big", 0o600, false));
    assert!(matches!(s.on_delta_end(), Err(SyncError::NoDelta)));
    assert_eq!(SyncError::NoDelta.message(), "DeltaEnd with no delta");
}

#[test]
fn delta_request_for_an_absent_file_is_empty() {
    let s = session();
    assert!(matches!(
        s.on_delta_request("x".into(), None),
        Message::DeltaSignature { chunks, .. } if chunks.is_empty()
    ));
    assert!(matches!(s.delta_base("a/../b"), Err(SyncError::Escapes(_))));
}

fn pending(len: u64, ops: Vec<DeltaOpKind>, literals: Vec<u8>) -> PendingDelta {
    PendingDelta {
        target: "/work/f".into(),
        delta: IncomingDelta { path: "f".into(), len, mode: 0, ops, literals },
    }
}

#[test]
fn bad_deltas_are_refused() {
    let copy = vec![DeltaOpKind::Copy { offset: 0, len: 4 }];
    assert!(matches!(
        pending(4, copy.clone(), vec![]).rebuild(b"abc"),
        Err(SyncError::Delta(DeltaError::CopyOutOfBounds))
    ));
    let e = pending(9, copy.clone(), vec![]).rebuild(b"abcd").unwrap_err();
    assert_eq!(e.message(), "delta for f rebuilt 4 bytes, expected 9");
    assert!(matches!(
        pending(4, copy.clone(), b"garbage".to_vec()).rebuild(b"abcd"),
        Err(SyncError::Codec(CodecError::Decompress(_)))
    ));
    assert!(matches!(
        pending(1, vec![DeltaOpKind::Data { len: 1 }], vec![]).rebuild(b""),
        Err(SyncError::Delta(DeltaError::DataOutOfBounds))
    ));
    let w = pending(2, vec![DeltaOpKind::Data { len: 2 }], vec![])
        .rebuild_with(b"", Ok(b"xyz".to_vec()))
        .unwrap();
    assert_eq!(w.data, b"xy");
    let mut s = session();
    s.on_delta_instructions("../f".into(), 0, 0, vec![]);
    assert!(matches!(s.on_delta_end(), Err(SyncError::Escapes(_))));
}

#[test]
fn round_is_completed() {
    let mut s = session();
    s.on_remote_delete(vec!["a".into(), "../b".into(), "c".into()]);
    s.on_pull_request(vec!["x/y".into()]);
    let deletes = s.take_deletes();
    assert_eq!(deletes.files, vec![("a".to_string(), "/work/a".to_string())]);
    assert!(matches!(deletes.refused, Some(SyncError::Escapes(ref rel)) if rel == "../b"));
    assert!(s.take_deletes().files.is_empty());
    let pulls = s.take_pulls();
    assert_eq!(pulls.files, vec![("x/y".to_string(), "/work/x/y".to_string())]);
    assert!(pulls.refused.is_none());
    s.on_written();
    s.on_written();
    assert_eq!(s.applied(), 2);
    assert!(matches!(
        s.complete(&[true, false, true, true]),
        Message::SyncAck { applied: 2, deleted: 3 }
    ));
}

#[test]
fn pulled_file_is_sent_packed() {
    let (header, sent) = send_file("a/b", 3, 0o644, b"abc").unwrap();
    assert!(matches!(
        header,
        Message::FileHeader { ref path, len: 3, mode: 0o644, compressed: true } if path == "a/b"
    ));
    assert_eq!(sent, compress(b"abc").unwrap());
    assert!(matches!(
        file_frames("a", 0, 0, Err(CodecError::Compress("no".into()))),
        Err(SyncError::Codec(CodecError::Compress(_)))
    ));
}

#[test]
fn manifest_reply_lists_the_mirror() {
    let s = session();
    assert_eq!((s.stream(), s.root()), (1, "/work"));
    match s.on_manifest(&manifest(&["b", "a"])) {
        Message::RemoteManifest { entries } => {
            let paths: Vec<_> = entries.iter().map(|e| e.path.as_str()).collect();
            assert_eq!(paths, vec!["a", "b"]);
        }
        other => panic!("{other:?}"),
    }
}

fn dir(path: &str, has_files: bool, dirs: Vec<Dir>) -> Dir {
    Dir { path: path.to_string(), has_files, dirs }
}

#[test]
fn empty_directories_are_pruned_innermost_first() {
    let root = dir(
        "/work",
        false,
        vec![
            dir("/work/a", false, vec![dir("/work/a/b", false, vec![])]),
            dir("/work/c", false, vec![dir("/work/c/d", true, vec![]), dir("/work/c/e", false, vec![])]),
        ],
    );
    assert_eq!(prune_empty_dirs(&root), vec!["/work/a/b", "/work/a", "/work/c/e"]);
    // The root stays, even when nothing is left in it.
    assert!(prune_empty_dirs(&dir("/work", false, vec![])).is_empty());
}

fn open_server() -> Server {
    let mut server = Server::new("/work".into());
    server.opened(1);
    server
}

#[test]
fn sync_opens_only_plain_workspaces() {
    let mut server = Server::new("/work".into());
    match server.handle_control(0, Message::OpenSync { stream: 5, workspace: "Code".into() }) {
        Ok(Action::OpenWorkspace { stream: 5, dir }) => assert_eq!(dir, "/work"),
        other => panic!("{other:?}"),
    }
    // Not registered until the directory has been made.
    assert!(server.session(5).is_none());
    server.opened(5);
    assert_eq!(server.session(5).unwrap().stream(), 5);
    assert!(matches!(
        server.handle_control(0, Message::OpenSync { stream: 6, workspace: "../x".into() }),
        Err(ServeError::Sync(SyncError::InvalidWorkspace(_)))
    ));
}

#[test]
fn sync_messages_need_a_sync_stream() {
    let mut server = open_server();
    let messages = |n: usize| match n {
        0 => Message::SyncManifest { entries: vec![] },
        1 => Message::FileHeader { path: "a".into(), len: 0, mode: 0, compressed: false },
        2 => Message::DeltaRequest { path: "a".into() },
        3 => Message::DeltaInstructions { path: "a".into(), len: 0, mode: 0, ops: vec![] },
        4 => Message::DeltaEnd { path: "a".into() },
        5 => Message::RemoteDelete { files: vec![] },
        6 => Message::PullRequest { files: vec![] },
        _ => Message::SyncComplete,
    };
    let steps = [
        SyncStep::SyncManifest,
        SyncStep::FileHeader,
        SyncStep::DeltaRequest,
        SyncStep::DeltaInstructions,
        SyncStep::DeltaEnd,
        SyncStep::RemoteDelete,
        SyncStep::PullRequest,
        SyncStep::SyncComplete,
    ];
    for (n, want) in steps.iter().enumerate() {
        match server.handle_control(9, messages(n)) {
            Err(ServeError::NotSync { step, stream: 9 }) => {
                assert_eq!(step, *want);
                let text = ServeError::NotSync { step, stream: 9 }.message().unwrap();
                assert_eq!(text, format!("{} on non-sync stream 9", step.name()));
            }
            other => panic!("{other:?}"),
        }
    }
    assert_eq!(SyncStep::DeltaEnd.name(), "DeltaEnd");
}

#[test]
fn sync_round_runs_over_the_server() {
    let mut server = open_server();
    assert!(matches!(
        server.handle_control(1, Message::SyncManifest { entries: vec![] }),
        Ok(Action::SendManifest { dir }) if dir == "/work"
    ));
    let header = Message::FileHeader { path: "a".into(), len: 3, mode: 0, compressed: false };
    assert!(matches!(server.handle_control(1, header), Ok(Action::Nothing)));
    // Data on another stream is dropped and leaves this one alone.
    assert!(server.on_data(2, b"zzz").unwrap().is_none());
    let w = server.on_data(1, b"abc").unwrap().unwrap();
    assert_eq!((w.target.as_str(), w.data.as_slice()), ("/work/a", b"abc".as_slice()));
    server.on_written(1);
    assert_eq!(server.applied(1), Some(1));
    assert!(matches!(
        server.handle_control(1, Message::DeltaRequest { path: "b".into() }),
        Ok(Action::SendSignature { path, target }) if path == "b" && target == "/work/b"
    ));
    assert!(matches!(
        server.handle_control(1, Message::DeltaRequest { path: "..".into() }),
        Err(ServeError::Sync(SyncError::Escapes(_)))
    ));
    assert!(matches!(
        server.handle_control(1, Message::DeltaEnd { path: "b".into() }),
        Err(ServeError::Sync(SyncError::NoDelta))
    ));
    let delta = Message::DeltaInstructions {
        path: "b".into(),
        len: 1,
        mode: 0,
        ops: vec![DeltaOpKind::Copy { offset: 1, len: 1 }],
    };
    assert!(matches!(server.handle_control(1, delta), Ok(Action::Nothing)));
    match server.handle_control(1, Message::DeltaEnd { path: "b".into() }) {
        Ok(Action::Rebuild(p)) => assert_eq!(p.rebuild(b"xyz").unwrap().data, b"y"),
        other => panic!("{other:?}"),
    }
    let delete = Message::RemoteDelete { files: vec!["d".into()] };
    assert!(matches!(server.handle_control(1, delete), Ok(Action::Nothing)));
    let pull = Message::PullRequest { files: vec!["p".into()] };
    assert!(matches!(server.handle_control(1, pull), Ok(Action::Nothing)));
    assert!(matches!(server.handle_control(1, Message::SyncComplete), Ok(Action::Complete)));
    assert_eq!(server.take_deletes(1).unwrap().files[0].1, "/work/d");
    assert_eq!(server.take_pulls(1).unwrap().files[0].1, "/work/p");
    assert!(matches!(
        server.session(1).unwrap().complete(&[true]),
        Message::SyncAck { applied: 1, deleted: 1 }
    ));
    server.on_close(1);
    assert!(server.session(1).is_none());
    assert!(server.take_pulls(1).is_none() && server.applied(1).is_none());
}

fn request(cwd: &str) -> BuildRequest {
    BuildRequest {
        argv: vec!["cargo".into(), "build".into()],
        cwd: cwd.into(),
        target: Target::Linux,
        env: vec![("CC".into(), "clang".into())],
    }
}

#[test]
fn builds_start_and_take_their_needs() {
    let mut server = open_server();
    let open = Message::OpenBuild {
        stream: 2,
        workspace: "Code".into(),
        request: request(""),
        artifact_globs: vec!["target/**".into()],
        linux_image: "l".into(),
        wine_image: "w".into(),
    };
    match server.handle_control(2, open) {
        Ok(Action::StartBuild { stream: 2, workspace, linux_image, wine_image, .. }) => {
            assert_eq!((workspace.as_str(), linux_image.as_str(), wine_image.as_str()), ("Code", "l", "w"));
        }
        other => panic!("{other:?}"),
    }
    let need = || Message::ArtifactNeed { files: vec!["x".into()] };
    assert!(matches!(
        server.handle_control(2, need()),
        Ok(Action::DeliverNeed { files }) if files == vec!["x".to_string()]
    ));
    // On any other stream there is nobody to tell.
    assert!(matches!(server.handle_control(1, need()), Ok(Action::Nothing)));
    assert!(matches!(server.handle_control(7, need()), Ok(Action::Nothing)));
    // A build stream takes no sync messages.
    assert!(matches!(
        server.handle_control(2, Message::SyncComplete),
        Err(ServeError::NotSync { .. })
    ));
    assert!(server.session(1).is_some());
    match server.handle_control(1, Message::BuildFinished { exit_code: 1 }) {
        Err(e @ ServeError::Unexpected(_)) => assert_eq!(e.message(), None),
        other => panic!("{other:?}"),
    }
}

#[test]
fn handshake_accepts_only_its_own_version() {
    let hello = |protocol| Message::Hello { protocol, client_version: "9".into() };
    match handshake(&hello(PROTOCOL_VERSION), "1.2") {
        (Message::Welcome { protocol, daemon_version, ok: true, message }, true) => {
            assert_eq!((protocol, daemon_version.as_str(), message.as_str()), (PROTOCOL_VERSION, "1.2", "ok"));
        }
        other => panic!("{other:?}"),
    }
    for first in [hello(PROTOCOL_VERSION + 1), Message::SyncComplete] {
        match handshake(&first, "1.2") {
            (Message::Welcome { ok: false, message, .. }, false) => {
                assert_eq!(message, "protocol version mismatch");
            }
            other => panic!("{other:?}"),
        }
    }
}

#[test]
fn docker_runs_in_the_right_directory() {
    let backend = DockerBackend::linux("img");
    let args = backend.run(&request("proj/sub"), "ws", "cache");
    assert_eq!(
        args,
        vec![
            "run", "--rm", "-i", "-w", "/work/proj/sub", "-v", "ws:/work", "-v",
            "cache:/rbuild-home", "-e", "HOME=/rbuild-home", "-e",
            "CARGO_HOME=/rbuild-home/cargo", "-e", "CC=clang", "img", "cargo", "build"
        ]
    );
    assert_eq!(backend.run(&request(""), "ws", "cache")[4], "/work");
    assert_eq!(backend.run(&request("."), "ws", "cache")[4], "/work");
    let wine = for_target(Target::Windows, "l", "w");
    assert_eq!(wine.image(), "w");
    let args = wine.run(&request(""), "ws", "cache");
    assert_eq!(
        &args[13..],
        ["-e", "WINEPREFIX=/rbuild-home/wineprefix", "-e", "WINEDEBUG=-all", "-e", "CC=clang", "w", "cargo", "build"]
    );
    assert_eq!(for_target(Target::Linux, "l", "w").image(), "l");
}

#[test]
fn output_is_forwarded_line_by_line() {
    let mut sink = BuildSink::new();
    sink.started("img");
    sink.line(OutputFd::Stderr, "oops");
    assert!(matches!(&sink.pending[0], Message::BuildStarted { container } if container == "img"));
    assert!(matches!(
        &sink.pending[1],
        Message::BuildOutput { stream_fd: OutputFd::Stderr, data } if data == "oops"
    ));
    let both = Reading::Both;
    assert_eq!(both.after(OutputFd::Stdout, false), Reading::Both);
    assert_eq!(both.after(OutputFd::Stderr, true), Reading::Both);
    let rest = both.after(OutputFd::Stdout, true);
    assert_eq!(rest, Reading::Stderr);
    assert_eq!(rest.after(OutputFd::Stderr, false), Reading::Stderr);
    assert_eq!(rest.after(OutputFd::Stderr, true), Reading::Neither);
    assert_eq!(exit_code(Some(3)), 3);
    assert_eq!(exit_code(None), -1);
}

#[test]
fn build_needs_a_synced_workspace_and_volumes() {
    let go = |id: &str, exists, ws: Option<&str>, cache: Option<&str>| {
        run(
            id,
            "/work",
            exists,
            Target::Linux,
            "l",
            "w",
            ws.map(str::to_string),
            cache.map(str::to_string),
        )
    };
    let setup = go("Code", true, Some("v"), Some("c")).unwrap();
    assert_eq!((setup.workspace.as_str(), setup.ws_volume.as_str(), setup.cache_volume.as_str()), ("/work", "v", "c"));
    assert_eq!(setup.backend.image(), "l");
    let text = |e: Result<_, BuildError>| match e {
        Err(e) => e.message(),
        Ok(_) => panic!("expected an error"),
    };
    assert_eq!(text(go("Code", false, None, None)), "workspace Code not synced yet");
    assert_eq!(
        text(go("Code", true, None, None)),
        "RBUILD_WS_VOLUME not set — daemon must run with a workspace volume"
    );
    assert_eq!(
        text(go("Code", true, Some("v"), None)),
        "RBUILD_CACHE_VOLUME not set — daemon must run with a cache volume"
    );
    assert_eq!(text(go("../x", true, None, None)), "invalid workspace id \"../x\"");
}

#[test]
fn artifacts_are_matched_from_the_build_directory() {
    let all = manifest(&["target/a", "proj/target/b", "proj/target/deep/c", "proj/src/d", "project/target/e"]);
    let globs = vec!["target/**".to_string(), "*.log".to_string()];
    let found = scan_artifacts(&all, "proj", &globs).unwrap();
    assert_eq!(found.keys(), vec!["proj/target/b", "proj/target/deep/c"]);
    let found = scan_artifacts(&all, "/proj/", &globs).unwrap();
    assert_eq!(found.keys(), vec!["proj/target/b", "proj/target/deep/c"]);
    let found = scan_artifacts(&all, "", &globs).unwrap();
    assert_eq!(found.keys(), vec!["target/a"]);
    assert!(scan_artifacts(&all, "proj", &[]).unwrap().keys().is_empty());
    match scan_artifacts(&all, "", &["ok".to_string(), "[".to_string()]) {
        Err(BuildError::BadGlob(g)) => assert_eq!(g, "["),
        _ => panic!("the glob must be refused"),
    }
    assert_eq!(BuildError::BadGlob("[".into()).message(), "bad artifact glob [");
    assert_eq!(BuildError::GlobSet("too big".into()).message(), "too big");
    let refused = || globset::Glob::new("[").unwrap_err();
    match compiled(Err(refused())) {
        Err(BuildError::GlobSet(words)) => assert_eq!(words, refused().to_string()),
        _ => panic!("the refusal must come through"),
    }
    assert_eq!(artifact_rel("proj", "proj/a"), Some("a".to_string()));
    assert_eq!(artifact_rel("proj", "project/a"), None);
    assert_eq!(artifact_rel("", "a/b"), Some("a/b".to_string()));
    assert!(matches!(offer(&found), Message::ArtifactManifest { entries } if entries.len() == 1));
}

#[test]
fn artifacts_are_sent_packed_with_their_mode() {
    assert_eq!(artifact_path("/work", "target/x"), "/work/target/x");
    let (header, sent) = send_artifact("target/x", 3, 0o755, b"elf").unwrap();
    assert!(matches!(header, Message::FileHeader { mode: 0o755, compressed: true, len: 3, .. }));
    assert_eq!(sent, compress(b"elf").unwrap());
    assert_ne!(signature(b"elf")[0].len, 0);
}

#[test]
fn frames_are_dispatched_by_kind() {
    let mut server = open_server();
    assert!(matches!(server.on_frame(&Frame::control(1, vec![])), Ok(FrameStep::Decode)));
    assert!(matches!(server.on_frame(&Frame::data(1, vec![1])), Err(SyncError::NoFileHeader)));
    assert!(matches!(server.on_frame(&Frame::data(9, vec![1])), Ok(FrameStep::Done)));
    let header = Message::FileHeader { path: "a".into(), len: 2, mode: 0, compressed: false };
    server.handle_control(1, header).unwrap();
    assert!(matches!(server.on_frame(&Frame::data(1, vec![1])), Ok(FrameStep::Done)));
    match server.on_frame(&Frame::data(1, vec![2])) {
        Ok(FrameStep::Write(w)) => assert_eq!(w.data, vec![1, 2]),
        other => panic!("{other:?}"),
    }
    assert!(matches!(server.on_frame(&Frame::close(1)), Ok(FrameStep::Done)));
    assert!(server.session(1).is_none());
}
