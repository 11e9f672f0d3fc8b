use rbuild::client::ancestor::{
    load, next_ancestor, record_build_outputs, save, snapshot_path, state_dir,
};
use rbuild::merge::{plan, MergePlan};
use rbuild::proto::ManifestEntry;
use rbuild::scan::Manifest;

fn entry(path: &str, content: &str) -> ManifestEntry {
    ManifestEntry {
        path: path.to_string(),
        hash: rbuild::hash::Hash::of(content.as_bytes()),
        len: content.len() as u64,
        mode: 0o644,
    }
}

fn m(pairs: &[(&str, &str)]) -> Manifest {
    let mut manifest = Manifest::new();
    for (p, c) in pairs {
        manifest.insert(p.to_string(), entry(p, c));
    }
    manifest
}

fn hash_at(manifest: &Manifest, path: &str) -> Option<rbuild::hash::Hash> {
    manifest.get(path).map(|e| e.hash)
}

#[test]
fn first_sync_unions_both_trees() {
    // No ancestor: local has a, remote has b: push a, pull b, delete nothing.
    let local = m(&[("a", "1")]);
    let remote = m(&[("b", "2")]);
    let p = plan(&local, &Manifest::new(), &remote);
    assert_eq!(p.push, vec!["a"]);
    assert_eq!(p.pull, vec!["b"]);
    assert!(p.delete_local.is_empty() && p.delete_remote.is_empty());
    assert!(p.conflicts.is_empty());
}

#[test]
fn local_edit_pushes_remote_unchanged() {
    let ancestor = m(&[("a", "1")]);
    let local = m(&[("a", "2")]); // edited locally
    let remote = m(&[("a", "1")]); // unchanged
    let p = plan(&local, &ancestor, &remote);
    assert_eq!(p.push, vec!["a"]);
    assert!(p.pull.is_empty() && p.conflicts.is_empty());
}

#[test]
fn remote_edit_pulls_local_unchanged() {
    let ancestor = m(&[("a", "1")]);
    let local = m(&[("a", "1")]);
    let remote = m(&[("a", "2")]);
    let p = plan(&local, &ancestor, &remote);
    assert_eq!(p.pull, vec!["a"]);
    assert!(p.push.is_empty());
}

#[test]
fn delete_propagates_when_other_side_unchanged() {
    let ancestor = m(&[("a", "1"), ("b", "1")]);
    let local = m(&[("a", "1")]); // deleted b locally
    let remote = m(&[("a", "1"), ("b", "1")]);
    let p = plan(&local, &ancestor, &remote);
    assert_eq!(p.delete_remote, vec!["b"]);
    assert!(p.delete_local.is_empty());
}

#[test]
fn concurrent_different_edits_conflict() {
    let ancestor = m(&[("a", "1")]);
    let local = m(&[("a", "2")]);
    let remote = m(&[("a", "3")]);
    let p = plan(&local, &ancestor, &remote);
    assert_eq!(p.conflicts, vec!["a"]);
    assert!(p.push.is_empty() && p.pull.is_empty());
}

#[test]
fn identical_concurrent_edit_is_noop() {
    // Both machines made the same change: no conflict, nothing to transfer.
    let ancestor = m(&[("a", "1")]);
    let local = m(&[("a", "2")]);
    let remote = m(&[("a", "2")]);
    let p = plan(&local, &ancestor, &remote);
    assert!(p.is_empty());
}

#[test]
fn edit_beats_a_delete() {
    let ancestor = m(&[("a", "1"), ("b", "1")]);
    // The other side deleted a; this side edited it. And the other way round.
    let local = m(&[("a", "2")]);
    let remote = m(&[("b", "2")]);
    let p = plan(&local, &ancestor, &remote);
    assert_eq!(p.push, vec!["a"]);
    assert_eq!(p.pull, vec!["b"]);
    assert!(p.delete_local.is_empty() && p.delete_remote.is_empty() && p.conflicts.is_empty());
}

#[test]
fn remote_delete_reaches_local() {
    let ancestor = m(&[("a", "1")]);
    let p = plan(&m(&[("a", "1")]), &ancestor, &Manifest::new());
    assert_eq!(p.delete_local, vec!["a"]);
    assert!(p.push.is_empty() && p.pull.is_empty());
}

#[test]
fn merge_is_symmetric() {
    let ancestor = m(&[("a", "1"), ("b", "1"), ("c", "1"), ("d", "1")]);
    let one = m(&[("a", "2"), ("b", "1"), ("d", "2"), ("e", "1")]);
    let two = m(&[("a", "1"), ("c", "1"), ("d", "3"), ("f", "1")]);
    let p = plan(&one, &ancestor, &two);
    let q = plan(&two, &ancestor, &one);
    assert_eq!(p.push, vec!["a", "e"]);
    assert_eq!(p.pull, vec!["f"]);
    assert_eq!(p.delete_local, vec!["b"]);
    assert_eq!(p.delete_remote, vec!["c"]);
    assert_eq!(p.conflicts, vec!["d"]);
    assert_eq!(p.push, q.pull);
    assert_eq!(p.pull, q.push);
    assert_eq!(p.delete_local, q.delete_remote);
    assert_eq!(p.delete_remote, q.delete_local);
    assert_eq!(p.conflicts, q.conflicts);
}

#[test]
fn empty_plan_is_empty() {
    assert!(MergePlan::default().is_empty());
    let p = plan(&m(&[("a", "1")]), &Manifest::new(), &Manifest::new());
    assert!(!p.is_empty());
}

#[test]
fn download_into_an_empty_directory_pulls_everything() {
    let remote = m(&[("a", "1"), ("b/c", "2")]);
    let p = plan(&Manifest::new(), &Manifest::new(), &remote);
    assert_eq!(p.pull, vec!["a", "b/c"]);
    assert!(p.push.is_empty() && p.delete_local.is_empty() && p.delete_remote.is_empty());
}

#[test]
fn second_round_finds_only_the_conflicts() {
    let ancestor = m(&[("a", "1"), ("b", "1"), ("d", "1")]);
    let local = m(&[("a", "2"), ("b", "1"), ("d", "2")]);
    let remote = m(&[("a", "1"), ("d", "3"), ("f", "1")]);
    let p = plan(&local, &ancestor, &remote);
    let next = next_ancestor(&local, &remote, &p.pull, &p.delete_local, &p.conflicts);
    assert_eq!(next.keys(), vec!["a", "f"]);
    assert!(hash_at(&next, "a") == Some(rbuild::hash::Hash::of(b"2")));
    assert!(hash_at(&next, "f") == Some(rbuild::hash::Hash::of(b"1")));
    // Both sides after the round.
    let local = m(&[("a", "2"), ("d", "2"), ("f", "1")]);
    let remote = m(&[("a", "2"), ("d", "3"), ("f", "1")]);
    let again = plan(&local, &next, &remote);
    assert_eq!(again.conflicts, vec!["d"]);
    assert!(again.push.is_empty() && again.pull.is_empty());
    assert!(again.delete_local.is_empty() && again.delete_remote.is_empty());
}

#[test]
fn pulled_entries_that_vanished_leave_the_local_one() {
    let local = m(&[("a", "1")]);
    let pulled = vec!["a".to_string(), "b".to_string()];
    let next = next_ancestor(&local, &Manifest::new(), &pulled, &[], &[]);
    assert_eq!(next.keys(), vec!["a"]);
}

#[test]
fn build_outputs_are_recorded() {
    let mut snap = m(&[("src/a", "1")]);
    let produced = vec![("target/x".to_string(), rbuild::hash::Hash::of(b"bin"))];
    assert!(record_build_outputs(&mut snap, &produced));
    assert_eq!(snap.keys(), vec!["src/a", "target/x"]);
    let recorded = snap.get("target/x").unwrap();
    assert!(recorded.hash == rbuild::hash::Hash::of(b"bin"));
    assert_eq!((recorded.len, recorded.mode), (0, 0o644));
    // The client pulls the output or has it already; it never pushes it back.
    let remote = m(&[("src/a", "1"), ("target/x", "bin")]);
    let p = plan(&remote, &snap, &remote);
    assert!(p.is_empty());
    assert!(!record_build_outputs(&mut snap, &[]));
}

#[test]
fn snapshot_reads_back_as_written() {
    let tree = m(&[("b", "2"), ("a", "1")]);
    let stored = save(&tree);
    assert_eq!(stored.iter().map(|e| e.path.as_str()).collect::<Vec<_>>(), vec!["a", "b"]);
    let back = load(Some(&stored));
    assert_eq!(back.keys(), tree.keys());
    assert!(hash_at(&back, "a") == hash_at(&tree, "a"));
    assert_eq!(load(None).len(), 0);
}

#[test]
fn snapshots_live_under_the_config_dir() {
    assert_eq!(state_dir("/c"), "/c/state");
    assert_eq!(snapshot_path("/c", "Code-0123"), "/c/state/Code-0123.json");
}
