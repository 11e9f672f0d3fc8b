use rbuild::chunk::{compress, signature, ChunkRef, CodecError};
use rbuild::client::builds::{
    artifacts_to_pull, dispatch, forwarded_env, local_artifact, write_artifact, write_unpacked,
    DriveError, DriveStep, Driver, IncomingArtifact,
};
use rbuild::client::sync::{
    announcement, frame_delta, hostname, next_message, on_signature, opening, push_delta, push_start, push_whole,
    raw_header, remote_manifest, whole_frames, IncomingFile, Outgoing, PushNext, PushStart, Receiver,
    Round, RoundError, RoundStep, SyncStats, DELTA_THRESHOLD, RAW_CHUNK, WHOLE_FILE_LIMIT,
};
use rbuild::config::{BuildSettings, GlobalConfig, RemoteConfig};
use rbuild::daemon::sync::SyncSession;
use rbuild::proto::{DeltaOpKind, ManifestEntry, Message, OutputFd, Target};
use rbuild::scan::Manifest;

fn manifest(pairs: &[(&str, &str)]) -> Manifest {
    let mut m = Manifest::new();
    for (p, c) in pairs {
        m.insert(
            p.to_string(),
            ManifestEntry {
                path: p.to_string(),
                hash: rbuild::hash::Hash::of(c.as_bytes()),
                len: c.len() as u64,
                mode: 0o644,
            },
        );
    }
    m
}

fn round() -> Round {
    let ancestor = manifest(&[("a", "1"), ("b", "1"), ("c", "1"), ("d", "1")]);
    let local = manifest(&[("a", "2"), ("b", "1"), ("d", "2")]);
    let remote = manifest(&[("a", "1"), ("c", "1"), ("d", "3"), ("f", "1")]);
    Round::new(local, &ancestor, remote)
}

#[test]
fn round_opens_with_the_local_manifest() {
    let open = opening(1, "Code-01");
    assert!(matches!(open, Message::OpenSync { stream: 1, workspace } if workspace == "Code-01"));
    match announcement(&manifest(&[("b", "x"), ("a", "y")])) {
        Message::SyncManifest { entries } => {
            assert_eq!(entries.iter().map(|e| e.path.as_str()).collect::<Vec<_>>(), vec!["a", "b"]);
        }
        other => panic!("{other:?}"),
    }
}

#[test]
fn remote_manifest_is_taken_from_the_reply() {
    let entries = manifest(&[("a", "1")]).values();
    assert_eq!(remote_manifest(Message::RemoteManifest { entries }).unwrap().keys(), vec!["a"]);
    assert!(matches!(
        remote_manifest(Message::Error { message: "no".into() }),
        Err(RoundError::Daemon(m)) if m == "no"
    ));
    assert!(matches!(
        remote_manifest(Message::SyncComplete),
        Err(RoundError::ExpectedRemoteManifest(Message::SyncComplete))
    ));
    assert!(next_message(Message::SyncComplete).is_ok());
}

#[test]
fn round_asks_for_what_the_plan_needs() {
    let r = round();
    assert_eq!(r.plan.push, vec!["a"]);
    assert_eq!(r.pulls(), vec!["f", "d"]);
    let steps = r.steps("/code");
    assert_eq!(steps.len(), 5);
    assert!(matches!(&steps[0], RoundStep::Push(rel) if rel == "a"));
    assert!(matches!(&steps[1], RoundStep::Send(Message::RemoteDelete { files }) if *files == vec!["c"]));
    assert!(matches!(&steps[2], RoundStep::Send(Message::PullRequest { files }) if *files == vec!["f", "d"]));
    assert!(matches!(&steps[3], RoundStep::Send(Message::SyncComplete)));
    assert!(matches!(&steps[4], RoundStep::Delete(path) if path == "/code/b"));
    assert_eq!(r.next_ancestor().keys(), vec!["a", "f"]);
    assert_eq!(
        r.stats(4),
        SyncStats { sent: 1, pulled: 1, deleted: 2, conflicts: 1, applied: 4 }
    );
    // With nothing to do only the end is announced.
    let same = manifest(&[("a", "1")]);
    let quiet = Round::new(same.clone(), &same, same.clone());
    assert!(matches!(quiet.steps("/code").as_slice(), [RoundStep::Send(Message::SyncComplete)]));
}

#[test]
fn pulled_file_arrives() {
    let mut r = Receiver::new("/code".into(), "host".into(), vec!["c".into()]);
    // Bytes that no header announced are dropped.
    assert!(r.on_data(b"stray").unwrap().is_none());
    let header = |path: &str, len, compressed| Message::FileHeader {
        path: path.into(),
        len,
        mode: 0o600,
        compressed,
    };
    assert!(r.on_message(header("a/b", 3, true)).unwrap().is_none());
    let w = r.on_data(&compress(b"abc").unwrap()).unwrap().unwrap();
    assert_eq!((w.target.as_str(), w.rel.as_str(), w.conflict), ("/code/a/b", "a/b", false));
    assert_eq!((w.data.as_slice(), w.mode), (b"abc".as_slice(), 0o600));
    // Raw files come in pieces.
    assert!(r.on_message(header("x", 3, false)).unwrap().is_none());
    assert!(r.on_data(b"ab").unwrap().is_none());
    assert_eq!(r.on_data(b"c").unwrap().unwrap().data, b"abc");
    assert_eq!(r.on_message(Message::SyncAck { applied: 5, deleted: 0 }).unwrap(), Some(5));
}

#[test]
fn conflict_copy_lands_beside_the_file() {
    let mut r = Receiver::new("/code".into(), "laptop".into(), vec!["a/c".into()]);
    r.on_message(Message::FileHeader { path: "a/c".into(), len: 1, mode: 0, compressed: false })
        .unwrap();
    let w = r.on_data(b"x").unwrap().unwrap();
    assert!(w.conflict);
    assert_eq!(w.path, "a/c");
    assert_eq!(w.rel, "a/c.rbuild-conflict-laptop");
    assert_eq!(w.target, "/code/a/c.rbuild-conflict-laptop");
    assert_eq!(hostname(Some("h".into()), Some("c".into())), "h");
    assert_eq!(hostname(None, Some("c".into())), "c");
    assert_eq!(hostname(None, None), "remote");
}

#[test]
fn receiver_reports_errors() {
    let mut r = Receiver::new("/code".into(), "h".into(), vec![]);
    assert!(matches!(
        r.on_message(Message::Error { message: "bad".into() }),
        Err(RoundError::Daemon(m)) if m == "bad"
    ));
    assert!(matches!(
        r.on_message(Message::SyncComplete),
        Err(RoundError::UnexpectedDuringPull(Message::SyncComplete))
    ));
    r.on_message(Message::FileHeader { path: "a".into(), len: 1, mode: 0, compressed: true })
        .unwrap();
    assert!(matches!(r.on_data(b"junk"), Err(RoundError::Codec(CodecError::Decompress(_)))));
    let f = IncomingFile { path: "a".into(), len: 2, mode: 0, compressed: false, buf: vec![1] };
    assert!(!f.complete());
    assert!(matches!(
        f.write_unpacked("/r", &[], "h", Err(CodecError::Decompress("no".into()))),
        Err(RoundError::Codec(CodecError::Decompress(_)))
    ));
}

#[test]
fn file_size_decides_how_it_is_pushed() {
    assert!(matches!(push_start("a", WHOLE_FILE_LIMIT, 0), PushStart::Whole));
    assert!(matches!(push_start("a", 0, 0), PushStart::Whole));
    assert!(matches!(
        push_start("a", WHOLE_FILE_LIMIT + 1, 0),
        PushStart::AskSignature(Message::DeltaRequest { path }) if path == "a"
    ));
    assert_eq!(WHOLE_FILE_LIMIT, 4 * 1024 * 1024);
    assert_eq!(DELTA_THRESHOLD, 1024 * 1024);
    assert_eq!(RAW_CHUNK, 1024 * 1024);
    assert!(matches!(
        raw_header("a", 9, 1),
        Message::FileHeader { path, len: 9, mode: 1, compressed: false } if path == "a"
    ));
}

#[test]
fn whole_push_arrives() {
    let data = b"some text".to_vec();
    let (header, sent) = push_whole("src/x", data.len() as u64, 0o640, &data).unwrap();
    let mut daemon = SyncSession::open(1, "/work".into());
    match header {
        Message::FileHeader { path, len, mode, compressed } => {
            daemon.on_file_header(path, len, mode, compressed)
        }
        other => panic!("{other:?}"),
    }
    let w = daemon.on_data(&sent).unwrap().unwrap();
    assert_eq!((w.target.as_str(), w.data, w.mode), ("/work/src/x", data, 0o640));
    assert!(matches!(
        whole_frames("a", 0, 0, Err(CodecError::Compress("no".into()))),
        Err(RoundError::Codec(CodecError::Compress(_)))
    ));
}

#[test]
fn raw_push_arrives_however_it_is_cut() {
    let data: Vec<u8> = (0..100u8).collect();
    for size in [1, 7, 99, 100] {
        let mut daemon = SyncSession::open(1, "/work".into());
        daemon.on_file_header("x".into(), data.len() as u64, 0, false);
        let mut written = None;
        for piece in data.chunks(size) {
            assert!(written.is_none());
            written = daemon.on_data(piece).unwrap();
        }
        assert_eq!(written.unwrap().data, data);
    }
}

#[test]
fn delta_push_reaches_the_daemon() {
    let base: Vec<u8> = (0..300_000usize).map(|i| (i.wrapping_mul(2654435761) >> 13) as u8).collect();
    let mut new = base.clone();
    new.splice(1000..1000, [1u8, 2, 3]);
    for (old, data) in [(base.clone(), new), (base.clone(), base.clone())] {
        let mut daemon = SyncSession::open(1, "/work".into());
        let reply = daemon.on_delta_request("big".into(), Some(&old));
        let sig = match on_signature("big", data.len() as u64, 0o644, reply).unwrap() {
            PushNext::Delta(sig) => sig,
            other => panic!("{other:?}"),
        };
        let frames = push_delta("big", data.len() as u64, 0o644, &data, &sig).unwrap();
        let mut rebuilt = None;
        for frame in frames {
            match frame {
                Outgoing::Control(Message::DeltaInstructions { path, len, mode, ops }) => {
                    daemon.on_delta_instructions(path, len, mode, ops)
                }
                Outgoing::Data(bytes) => assert!(daemon.on_data(&bytes).unwrap().is_none()),
                Outgoing::Control(Message::DeltaEnd { .. }) => {
                    rebuilt = Some(daemon.on_delta_end().unwrap().rebuild(&old).unwrap())
                }
                other => panic!("{other:?}"),
            }
        }
        let w = rebuilt.unwrap();
        assert_eq!((w.data, w.mode), (data, 0o644));
    }
}

#[test]
fn delta_frames_are_in_order() {
    let ops = || vec![DeltaOpKind::Data { len: 1 }];
    let frames = frame_delta("f", 1, 2, ops(), Some(Ok(vec![9]))).unwrap();
    assert!(matches!(
        frames.as_slice(),
        [
            Outgoing::Control(Message::DeltaInstructions { len: 1, mode: 2, .. }),
            Outgoing::Data(_),
            Outgoing::Control(Message::DeltaEnd { .. }),
        ]
    ));
    assert_eq!(frame_delta("f", 1, 2, ops(), None).unwrap().len(), 2);
    assert!(matches!(
        frame_delta("f", 1, 2, ops(), Some(Err(CodecError::Compress("no".into())))),
        Err(RoundError::Codec(CodecError::Compress(_)))
    ));
}

#[test]
fn signature_reply_decides_the_push() {
    let sig: Vec<ChunkRef> = signature(b"abc");
    let reply = Message::DeltaSignature { path: "f".into(), chunks: sig };
    assert!(matches!(on_signature("f", 1, 0, reply), Ok(PushNext::Delta(s)) if s.len() == 1));
    let none = Message::DeltaSignature { path: "f".into(), chunks: vec![] };
    assert!(matches!(
        on_signature("f", 1, 0, none),
        Ok(PushNext::Raw(Message::FileHeader { compressed: false, .. }))
    ));
    assert!(matches!(
        on_signature("f", 1, 0, Message::Error { message: "e".into() }),
        Err(RoundError::Daemon(_))
    ));
    assert!(matches!(
        on_signature("f", 1, 0, Message::SyncComplete),
        Err(RoundError::ExpectedDeltaSignature(_))
    ));
}

#[test]
fn signature_of_an_impossible_file_is_refused() {
    // More than 2^64 bytes would take over four thousand million chunks; the
    // longest that a test can hold is accepted.
    let hash = rbuild::hash::Hash::of(b"x");
    let sig = vec![ChunkRef { hash, len: u32::MAX }; 100];
    assert!(push_delta("f", 3, 0, b"abc", &sig).is_ok());
}

fn config() -> GlobalConfig {
    GlobalConfig {
        remote: RemoteConfig { host: "h".into(), identity_file: None, docker: String::new() },
        roots: vec![],
        build: BuildSettings::default(),
    }
}

#[test]
fn build_request_carries_the_settings() {
    let env = vec![("CC".to_string(), "clang".to_string())];
    let open = dispatch(&config(), "Code-01", vec!["make".into()], "sub".into(), Target::Windows, env);
    match open {
        Message::OpenBuild { stream, workspace, request, artifact_globs, linux_image, wine_image } => {
            assert_eq!((stream, workspace.as_str()), (2, "Code-01"));
            assert_eq!((request.argv, request.cwd.as_str()), (vec!["make".to_string()], "sub"));
            assert_eq!(request.target, Target::Windows);
            assert_eq!(request.env.len(), 1);
            assert_eq!(artifact_globs, vec!["target/**"]);
            assert_eq!(linux_image, "rbuild/linux:latest");
            assert_eq!(wine_image, "rbuild/wine:latest");
        }
        other => panic!("{other:?}"),
    }
}

#[test]
fn only_build_variables_are_forwarded() {
    let pair = |k: &str, v: &str| (k.to_string(), v.to_string());
    let env = vec![
        pair("HOME", "/home/me"),
        pair("CXX", "g++"),
        pair("TOKEN", "t"),
        pair("CARGO_TERM_COLOR", "always"),
        pair("CXX", "later"),
    ];
    assert_eq!(
        forwarded_env(&env),
        vec![pair("CARGO_TERM_COLOR", "always"), pair("CXX", "g++")]
    );
    assert!(forwarded_env(&[]).is_empty());
}

#[test]
fn build_is_followed_to_its_end() {
    let mut d = Driver::new("/code".into());
    assert!(matches!(
        d.on_message(Message::BuildStarted { container: "c".into() }),
        Ok(DriveStep::Started(c)) if c == "c"
    ));
    assert!(matches!(
        d.on_message(Message::BuildOutput { stream_fd: OutputFd::Stderr, data: "x".into() }),
        Ok(DriveStep::Print(OutputFd::Stderr, t)) if t == "x"
    ));
    assert!(matches!(
        d.on_message(Message::ArtifactManifest { entries: vec![] }),
        Ok(DriveStep::Compare(e)) if e.is_empty()
    ));
    let header = Message::FileHeader { path: "target/x".into(), len: 3, mode: 0o755, compressed: true };
    assert!(matches!(d.on_message(header), Ok(DriveStep::Wait)));
    let w = d.on_data(&compress(b"elf").unwrap()).unwrap().unwrap();
    assert_eq!((w.target.as_str(), w.data.as_slice(), w.mode), ("/code/target/x", b"elf".as_slice(), 0o755));
    // A second data frame has no header.
    assert!(d.on_data(b"x").unwrap().is_none());
    assert!(matches!(
        d.on_message(Message::BuildFinished { exit_code: 7 }),
        Ok(DriveStep::Finished(7))
    ));
    assert!(matches!(
        d.on_message(Message::Error { message: "m".into() }),
        Err(DriveError::Remote(m)) if m == "m"
    ));
    assert!(matches!(d.on_message(Message::SyncComplete), Err(DriveError::Unexpected(_))));
}

#[test]
fn artifact_content_is_unpacked_if_packed() {
    let art = |compressed| IncomingArtifact { path: "a".into(), mode: 0, compressed };
    assert_eq!(write_artifact("/r", art(false), b"raw").unwrap().data, b"raw");
    assert!(matches!(
        write_artifact("/r", art(true), b"junk"),
        Err(DriveError::Codec(CodecError::Decompress(_)))
    ));
    assert_eq!(write_unpacked("/r", art(true), Ok(vec![1])).unwrap().target, "/r/a");
    assert_eq!(local_artifact("/r", "target/a"), "/r/target/a");
}

#[test]
fn only_changed_artifacts_are_pulled() {
    let entries = manifest(&[("a", "1"), ("b", "2"), ("c", "3")]).values();
    let hash = |c: &str| Some(rbuild::hash::Hash::of(c.as_bytes()));
    assert_eq!(artifacts_to_pull(&entries, &[hash("1"), hash("other"), None]), vec!["b", "c"]);
    assert!(artifacts_to_pull(&entries, &[hash("1"), hash("2"), hash("3")]).is_empty());
}
