use rbuild::path::{extend, is_below, own_name, safe_join, same_path, split_components, strip_dir};
use rbuild::proto::ManifestEntry;
use rbuild::scan::{
    content_hash, diff, list_name, list_name_raw, rel_path, scan_raw, scan_with_ignores, FoundFile,
    Manifest,
};

#[test]
fn diff_detects_changes_and_deletions() {
    let mut local = Manifest::new();
    local.insert(
        "a.txt".into(),
        ManifestEntry { path: "a.txt".into(), hash: rbuild::hash::Hash::of(b"a"), len: 1, mode: 0o644 },
    );
    local.insert(
        "b.txt".into(),
        ManifestEntry { path: "b.txt".into(), hash: rbuild::hash::Hash::of(b"b2"), len: 2, mode: 0o644 },
    );

    let mut remote = Manifest::new();
    remote.insert(
        "b.txt".into(),
        ManifestEntry { path: "b.txt".into(), hash: rbuild::hash::Hash::of(b"b"), len: 1, mode: 0o644 },
    );
    remote.insert(
        "gone.txt".into(),
        ManifestEntry { path: "gone.txt".into(), hash: rbuild::hash::Hash::of(b"x"), len: 1, mode: 0o644 },
    );

    let (mut send, del) = diff(&local, &remote);
    send.sort();
    assert_eq!(send, vec!["a.txt".to_string(), "b.txt".to_string()]);
    assert_eq!(del, vec!["gone.txt".to_string()]);
}

#[test]
fn diff_leaves_out_what_is_the_same() {
    let mut local = Manifest::new();
    local.insert(
        "a".into(),
        ManifestEntry { path: "a".into(), hash: rbuild::hash::Hash::of(b"a"), len: 1, mode: 0o644 },
    );
    let mut remote = Manifest::new();
    // Content counts; length and mode do not.
    remote.insert(
        "a".into(),
        ManifestEntry { path: "a".into(), hash: rbuild::hash::Hash::of(b"a"), len: 9, mode: 0o755 },
    );
    let (send, del) = diff(&local, &remote);
    assert!(send.is_empty() && del.is_empty());
}

fn found(path: &str, is_file: bool) -> FoundFile {
    FoundFile {
        path: path.to_string(),
        is_file,
        hash: content_hash(path.as_bytes()),
        len: 7,
        mode: 0o600,
    }
}

#[test]
fn client_scan_leaves_out_metadata() {
    let list = vec![
        found("/code", false),
        found("/code/src", false),
        found("/code/src/main.rs", true),
        found("/code/.git/HEAD", true),
        found("/code/.rbuild/state", true),
        found("/code/src/.git/HEAD", true),
        found("/code/src/.rbuild/x", true),
        found("/code/src/.git", true),
        found("/code/src/.gitignore", true),
        found("/elsewhere/x", true),
    ];
    let m = scan_with_ignores("/code", &list);
    assert_eq!(m.keys(), vec!["src/.gitignore", "src/main.rs"]);
    let e = m.get("src/main.rs").unwrap();
    assert_eq!(e.path, "src/main.rs");
    assert!(e.hash == rbuild::hash::Hash::of(b"/code/src/main.rs"));
    assert_eq!((e.len, e.mode), (7, 0o600));
}

#[test]
fn daemon_scan_lists_every_file() {
    let list = vec![
        found("/work/.git/HEAD", true),
        found("/work/a", true),
        found("/work/dir", false),
    ];
    let m = scan_raw("/work", &list);
    assert_eq!(m.keys(), vec![".git/HEAD", "a"]);
}

#[test]
fn names_are_relative_with_forward_slashes() {
    assert_eq!(rel_path("/code", "/code/a/b"), Some("a/b".to_string()));
    assert_eq!(rel_path("/code/", "/code//a/./b/"), Some("a/./b".to_string()));
    assert_eq!(rel_path("/code", "/code/a\\b"), Some("a/b".to_string()));
    assert_eq!(rel_path("/code", "/codex/a"), None);
    assert_eq!(rel_path("/code", "/code"), Some("".to_string()));
    assert_eq!(list_name("/code", "/code/", true), None);
    assert_eq!(list_name("/code", "/code/a", false), None);
    assert_eq!(list_name_raw("/code", "/code/.git/x", true), Some(".git/x".to_string()));
    assert_eq!(list_name_raw("/code", "/code/x", false), None);
}

#[test]
fn content_hash_is_blake3() {
    // The digest of the empty input, as BLAKE3 defines it.
    assert_eq!(
        content_hash(b"").to_hex(),
        "af1349b9f5f9a1a6a0404dea36dcc9499bcb25c9adc112b7cc9a93cae41f3262"
    );
    assert!(content_hash(b"a") != content_hash(b"b"));
}

#[test]
fn manifest_keeps_paths_in_order() {
    let mut m = Manifest::new();
    for p in ["b", "a/z", "a", "é", "z"] {
        m.insert(
            p.to_string(),
            ManifestEntry { path: p.to_string(), hash: rbuild::hash::Hash::of(b""), len: 0, mode: 0 },
        );
    }
    assert_eq!(m.keys(), vec!["a", "a/z", "b", "z", "é"]);
    assert_eq!(m.len(), 5);
    m.remove("a/z");
    m.remove("nothing");
    assert!(!m.contains_key("a/z"));
    assert_eq!(m.keys(), vec!["a", "b", "z", "é"]);
    let copy = m.clone();
    assert_eq!(copy.keys(), m.keys());
    // The later of two entries for one path counts.
    let twice = Manifest::from_entries(&[
        ManifestEntry { path: "a".into(), hash: rbuild::hash::Hash::of(b"1"), len: 1, mode: 0 },
        ManifestEntry { path: "a".into(), hash: rbuild::hash::Hash::of(b"2"), len: 2, mode: 0 },
    ]);
    assert_eq!(twice.values().len(), 1);
    assert_eq!(twice.get("a").unwrap().len, 2);
}

#[test]
fn safe_join_stays_inside() {
    assert_eq!(safe_join("/work", "a/b"), Some("/work/a/b".to_string()));
    assert_eq!(safe_join("/work", "/a//./b/"), Some("/work/a/b".to_string()));
    assert_eq!(safe_join("/", "a"), Some("/a".to_string()));
    assert_eq!(safe_join("", "a"), Some("a".to_string()));
    assert_eq!(safe_join("/work", ""), Some("/work".to_string()));
    assert_eq!(safe_join("/work", "..."), Some("/work/...".to_string()));
    assert_eq!(safe_join("/work", "a/../b"), None);
    assert_eq!(safe_join("/work", ".."), None);
}

// Paths behave as the platform's own do.
#[test]
fn paths_behave_like_std() {
    let samples = [
        "", "/", ".", "./", "./a", "a", "a/", "a//b", "a/./b", "a/.", "/a", "//a", "/./a", "/a/b/",
        "..", "../a", "a/..", "a/b/c", "/a/../b", ".hidden", "./.hidden", "/.", ".a/./", "a.b/c.d",
    ];
    for p in samples {
        let std_path = std::path::Path::new(p);
        let std_components: Vec<String> = std_path
            .components()
            .map(|c| c.as_os_str().to_string_lossy().into_owned())
            .collect();
        assert_eq!(split_components(p), std_components, "components of {p:?}");
        assert_eq!(
            own_name(p),
            std_path.file_name().map(|n| n.to_string_lossy().into_owned()),
            "file name of {p:?}"
        );
        for q in samples {
            let other = std::path::Path::new(q);
            assert_eq!(is_below(p, q), std_path.starts_with(other), "{p:?} below {q:?}");
            assert_eq!(same_path(p, q), std_path == other, "{p:?} same as {q:?}");
            assert_eq!(extend(p, q), std_path.join(other).to_string_lossy(), "{p:?} join {q:?}");
            assert_eq!(
                strip_dir(p, q),
                std_path.strip_prefix(other).ok().map(|r| r.to_string_lossy().into_owned()),
                "{p:?} strip {q:?}"
            );
        }
    }
}
