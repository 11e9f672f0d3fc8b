//! Ancestor snapshots for three-way merge.
//!
//! After each successful sync, the client records the agreed-upon manifest for
//! a workspace. The next sync diffs the live local tree and the remote against
//! this snapshot to decide what changed on each side.

use vstd::prelude::*;
use vstd::string::StringExecFns;

use crate::merge::{
    content, decide, decided, local_after, remote_after, Decision, MergePlan, Tree,
};
use crate::path::{extend, extended};
use crate::proto::{EntryView, ManifestEntry};
use crate::scan::{keyed, lists, Manifest};
use crate::text::views;

verus! {

/// The directory of the snapshots in a configuration directory.
pub fn state_dir(config_dir: &str) -> (dir: String)
    ensures
        dir@ == extended(config_dir@, "state"@),
{
    extend(config_dir, "state")
}

/// Where a workspace's snapshot is kept: under the config dir, keyed by
/// workspace id, so it never touches the code tree.
pub fn snapshot_path(config_dir: &str, workspace_id: &str) -> (path: String)
    ensures
        path@ == extended(extended(config_dir@, "state"@), workspace_id@ + ".json"@),
{
    extend(state_dir(config_dir).as_str(), workspace_id.to_owned().concat(".json").as_str())
}

/// The entries to store for a workspace after a successful sync round.
pub fn save(manifest: &Manifest) -> (entries: Vec<ManifestEntry>)
    ensures
        lists(manifest.paths(), |p: Seq<char>| manifest@.contains_key(p)),
        entries@.len() == manifest.paths().len(),
        forall|i: int|
            0 <= i < entries@.len() ==> #[trigger] entries@[i]@ == manifest@[manifest.paths()[i]],
{
    manifest.values()
}

/// The ancestor manifest for a workspace from its stored entries, or an empty
/// one if this machine has never synced it (which makes the first merge a
/// union).
pub fn load(entries: Option<&[ManifestEntry]>) -> (ancestor: Manifest)
    ensures
        match entries {
            Some(list) => ancestor@ == keyed(list@),
            None => ancestor@ == Map::<Seq<char>, EntryView>::empty(),
        },
{
    match entries {
        Some(list) => Manifest::from_entries(list),
        None => Manifest::new(),
    }
}

/// The mode recorded for a build's outputs.
pub const OUTPUT_MODE: u32 = 0o644;

/// The tree with a build's outputs recorded in it.
pub open spec fn with_outputs(snap: Tree, produced: Seq<(String, crate::hash::Hash)>) -> Tree
    decreases produced.len(),
{
    if produced.len() == 0 {
        snap
    } else {
        let (path, hash) = produced.last();
        with_outputs(snap, produced.drop_last()).insert(
            path@,
            EntryView { path: path@, hash: hash@, len: 0, mode: OUTPUT_MODE },
        )
    }
}

/// Folds a build's outputs into the ancestor snapshot, and says whether there
/// were any. Each produced path is recorded with the remote's content hash, so
/// the next live-sync sees it as already agreed (the remote made it) instead of
/// a local addition to push back. Paths the build deleted are left alone; the
/// normal sync diff handles genuine local deletions.
pub fn record_build_outputs(
    snap: &mut Manifest,
    produced: &[(String, crate::hash::Hash)],
) -> (changed: bool)
    ensures
        final(snap)@ == with_outputs(old(snap)@, produced@),
        changed == (produced@.len() > 0),
{
    let mut i: usize = 0;
    assert(produced@.take(0) =~= Seq::<(String, crate::hash::Hash)>::empty());
    while i < produced.len()
        invariant
            i <= produced@.len(),
            snap@ == with_outputs(old(snap)@, produced@.take(i as int)),
        decreases produced@.len() - i,
    {
        // len/mode are not load-bearing for the merge (it compares by hash), so
        // a placeholder mode is fine; len is informational.
        let (path, hash) = &produced[i];
        snap.insert(
            path.clone(),
            ManifestEntry { path: path.clone(), hash: *hash, len: 0, mode: OUTPUT_MODE },
        );
        assert(produced@.take(i + 1).drop_last() =~= produced@.take(i as int));
        i = i + 1;
    }
    assert(produced@.take(produced@.len() as int) =~= produced@);
    produced.len() > 0
}

/// The tree that both sides agree on after a round with these lists.
pub open spec fn agreed(
    local: Tree,
    remote: Tree,
    pulled: Seq<Seq<char>>,
    deleted_local: Seq<Seq<char>>,
    conflicts: Seq<Seq<char>>,
) -> Tree {
    Map::new(
        |p: Seq<char>|
            !conflicts.contains(p) && (pulled.contains(p) && remote.contains_key(p)
                || local.contains_key(p) && !deleted_local.contains(p)),
        |p: Seq<char>|
            if pulled.contains(p) && remote.contains_key(p) {
                remote[p]
            } else {
                local[p]
            },
    )
}

/// Builds the post-merge ancestor: the set of files both sides will agree on
/// once the plan is applied. Starts from the local manifest, applies local
/// deletes and pulled entries (taken from remote), and drops conflict entries
/// (their resolution is machine-local, so they re-evaluate next round).
pub fn next_ancestor(
    local: &Manifest,
    remote: &Manifest,
    pulled: &[String],
    deleted_local: &[String],
    conflicts: &[String],
) -> (next: Manifest)
    ensures
        next@ == agreed(
            local@,
            remote@,
            views(pulled@),
            views(deleted_local@),
            views(conflicts@),
        ),
{
    let mut next = local.clone();
    let mut i: usize = 0;
    let ghost none = Seq::<Seq<char>>::empty();
    let ghost (pv, dv, cv) = (views(pulled@), views(deleted_local@), views(conflicts@));
    assert(next@ =~= agreed(local@, remote@, none, dv.take(0), none));
    while i < deleted_local.len()
        invariant
            i <= deleted_local@.len(),
            dv == views(deleted_local@),
            none == Seq::<Seq<char>>::empty(),
            next@ == agreed(local@, remote@, none, dv.take(i as int), none),
        decreases deleted_local@.len() - i,
    {
        next.remove(deleted_local[i].as_str());
        proof {
            lemma_take_contains(dv, i as int);
            assert(next@ =~= agreed(local@, remote@, none, dv.take(i + 1), none));
        }
        i = i + 1;
    }
    let mut j: usize = 0;
    assert(dv.take(dv.len() as int) =~= dv);
    assert(pv.take(0) =~= none);
    while j < pulled.len()
        invariant
            j <= pulled@.len(),
            pv == views(pulled@),
            none == Seq::<Seq<char>>::empty(),
            next@ == agreed(local@, remote@, pv.take(j as int), dv, none),
        decreases pulled@.len() - j,
    {
        proof {
            lemma_take_contains(pv, j as int);
        }
        if let Some(e) = remote.get(pulled[j].as_str()) {
            next.insert(pulled[j].clone(), e.clone());
        }
        assert(next@ =~= agreed(local@, remote@, pv.take(j + 1), dv, none));
        j = j + 1;
    }
    let mut k: usize = 0;
    assert(pv.take(pv.len() as int) =~= pv);
    assert(cv.take(0) =~= none);
    while k < conflicts.len()
        invariant
            k <= conflicts@.len(),
            cv == views(conflicts@),
            next@ == agreed(local@, remote@, pv, dv, cv.take(k as int)),
        decreases conflicts@.len() - k,
    {
        next.remove(conflicts[k].as_str());
        proof {
            lemma_take_contains(cv, k as int);
            assert(next@ =~= agreed(local@, remote@, pv, dv, cv.take(k + 1)));
        }
        k = k + 1;
    }
    assert(cv.take(cv.len() as int) =~= cv);
    next
}

proof fn lemma_take_contains(s: Seq<Seq<char>>, n: int)
    requires
        0 <= n < s.len(),
    ensures
        forall|p: Seq<char>| #[trigger]
            s.take(n + 1).contains(p) <==> s.take(n).contains(p) || p == s[n],
{
    assert(s.take(n + 1) =~= s.take(n).push(s[n]));
    assert forall|p: Seq<char>| #[trigger]
        s.take(n + 1).contains(p) <==> s.take(n).contains(p) || p == s[n] by {
        if s.take(n).contains(p) {
            assert(s.take(n + 1)[s.take(n).index_of(p)] == p);
        }
        if p == s[n] {
            assert(s.take(n + 1)[n] == p);
        }
    }
}

/// The recorded ancestor is the agreement: at every path but the conflicts it
/// holds what both sides hold once the plan has been carried out, and the
/// conflicts it leaves out.
pub proof fn law_ancestor_is_the_agreement(
    plan: MergePlan,
    local: Tree,
    ancestor: Tree,
    remote: Tree,
    path: Seq<char>,
)
    requires
        plan.reconciles(local, ancestor, remote),
    ensures
        ({
            let next = agreed(
                local,
                remote,
                views(plan.pull@),
                views(plan.delete_local@),
                views(plan.conflicts@),
            );
            if decide(local, ancestor, remote, path) == Decision::Conflict {
                content(next, path) is None
            } else {
                &&& content(next, path) == content(local_after(local, ancestor, remote), path)
                &&& content(next, path) == content(remote_after(local, ancestor, remote), path)
            }
        }),
{
    assert(views(plan.pull@).contains(path) <==> decided(local, ancestor, remote, Decision::Pull)(
        path,
    ));
    assert(views(plan.delete_local@).contains(path) <==> decided(
        local,
        ancestor,
        remote,
        Decision::DeleteLocal,
    )(path));
    assert(views(plan.conflicts@).contains(path) <==> decided(
        local,
        ancestor,
        remote,
        Decision::Conflict,
    )(path));
}

/// A round settles things: merging again with the recorded ancestor, before
/// anybody changes a file, finds the same conflicts and nothing else to do.
pub proof fn law_next_round_has_only_the_conflicts(
    plan: MergePlan,
    local: Tree,
    ancestor: Tree,
    remote: Tree,
    path: Seq<char>,
)
    requires
        plan.reconciles(local, ancestor, remote),
    ensures
        ({
            let next = agreed(
                local,
                remote,
                views(plan.pull@),
                views(plan.delete_local@),
                views(plan.conflicts@),
            );
            decide(
                local_after(local, ancestor, remote),
                next,
                remote_after(local, ancestor, remote),
                path,
            ) == if decide(local, ancestor, remote, path) == Decision::Conflict {
                Decision::Conflict
            } else {
                Decision::Nothing
            }
        }),
{
    law_ancestor_is_the_agreement(plan, local, ancestor, remote, path);
    crate::merge::law_round_converges(local, ancestor, remote, path);
}

proof fn lemma_outputs_apart(
    snap: Tree,
    produced: Seq<(String, crate::hash::Hash)>,
    path: Seq<char>,
)
    requires
        forall|i: int| 0 <= i < produced.len() ==> (#[trigger] produced[i]).0@ != path,
    ensures
        content(with_outputs(snap, produced), path) == content(snap, path),
    decreases produced.len(),
{
    if produced.len() > 0 {
        assert(produced.last() == produced[produced.len() - 1]);
        assert forall|i: int| 0 <= i < produced.drop_last().len() implies (
        #[trigger] produced.drop_last()[i]).0@ != path by {
            assert(produced[i].0@ != path);
        }
        lemma_outputs_apart(snap, produced.drop_last(), path);
    }
}

proof fn lemma_output_recorded(
    snap: Tree,
    produced: Seq<(String, crate::hash::Hash)>,
    k: int,
)
    requires
        0 <= k < produced.len(),
        forall|i: int| k < i < produced.len() ==> (#[trigger] produced[i]).0@ != produced[k].0@,
    ensures
        content(with_outputs(snap, produced), produced[k].0@) == Some(produced[k].1@),
    decreases produced.len(),
{
    if k < produced.len() - 1 {
        assert(produced[produced.len() - 1].0@ != produced[k].0@);
        assert forall|i: int| k < i < produced.drop_last().len() implies (
        #[trigger] produced.drop_last()[i]).0@ != produced.drop_last()[k].0@ by {
            assert(produced[i].0@ != produced[k].0@);
        }
        lemma_output_recorded(snap, produced.drop_last(), k);
    }
}

/// Build outputs do not ping-pong: once a build's output is recorded, and the
/// remote still holds it, a client that also holds it or has not got it yet
/// never pushes it.
pub proof fn law_build_outputs_are_not_pushed_back(
    local: Tree,
    snap: Tree,
    remote: Tree,
    produced: Seq<(String, crate::hash::Hash)>,
    k: int,
)
    requires
        0 <= k < produced.len(),
        forall|i: int| k < i < produced.len() ==> (#[trigger] produced[i]).0@ != produced[k].0@,
        content(remote, produced[k].0@) == Some(produced[k].1@),
        content(local, produced[k].0@) is None || content(local, produced[k].0@) == Some(
            produced[k].1@,
        ),
    ensures
        decide(local, with_outputs(snap, produced), remote, produced[k].0@) != Decision::Push,
{
    lemma_output_recorded(snap, produced, k);
}

proof fn lemma_keyed_prefix(tree: Tree, paths: Seq<Seq<char>>, entries: Seq<ManifestEntry>, n: int)
    requires
        0 <= n <= entries.len(),
        entries.len() == paths.len(),
        forall|i: int| 0 <= i < entries.len() ==> #[trigger] entries[i]@ == tree[paths[i]],
        forall|i: int| 0 <= i < paths.len() ==> tree[#[trigger] paths[i]].path == paths[i],
    ensures
        keyed(entries.take(n)) == Map::new(
            |p: Seq<char>| paths.take(n).contains(p),
            |p: Seq<char>| tree[p],
        ),
    decreases n,
{
    let now = Map::new(|p: Seq<char>| paths.take(n).contains(p), |p: Seq<char>| tree[p]);
    if n == 0 {
        assert(keyed(entries.take(0)) =~= now);
    } else {
        lemma_keyed_prefix(tree, paths, entries, n - 1);
        assert(entries.take(n).drop_last() =~= entries.take(n - 1));
        assert(entries.take(n).last() == entries[n - 1]);
        assert(entries[n - 1]@ == tree[paths[n - 1]]);
        lemma_take_contains(paths, n - 1);
        assert(tree[paths[n - 1]].path == paths[n - 1]);
        assert(paths.take(n - 1 + 1) == paths.take(n));
        assert(forall|p: Seq<char>| #[trigger]
            paths.take(n).contains(p) <==> paths.take(n - 1).contains(p) || p == paths[n - 1]);
        assert(keyed(entries.take(n)) =~= now);
    }
}

/// A snapshot is read back as it was written: the entries stored for a manifest
/// whose entries carry their own paths spell the same manifest.
pub proof fn law_snapshot_round_trip(
    tree: Tree,
    paths: Seq<Seq<char>>,
    entries: Seq<ManifestEntry>,
)
    requires
        lists(paths, |p: Seq<char>| tree.contains_key(p)),
        entries.len() == paths.len(),
        forall|i: int| 0 <= i < entries.len() ==> #[trigger] entries[i]@ == tree[paths[i]],
        forall|p: Seq<char>| #[trigger] tree.contains_key(p) ==> tree[p].path == p,
    ensures
        keyed(entries) == tree,
{
    let n = entries.len() as int;
    assert forall|i: int| 0 <= i < paths.len() implies tree[#[trigger] paths[i]].path
        == paths[i] by {
        assert(paths.contains(paths[i]));
        assert(tree.contains_key(paths[i]));
    }
    lemma_keyed_prefix(tree, paths, entries, n);
    assert(entries.take(n) =~= entries);
    assert(paths.take(n) =~= paths);
    assert forall|p: Seq<char>| tree.contains_key(p) <==> #[trigger] paths.contains(p) by {
        assert((|p: Seq<char>| tree.contains_key(p))(p) == tree.contains_key(p));
    }
    assert(keyed(entries) =~= tree);
}

/// Recording a build's outputs touches exactly their paths: the last output of a
/// path is what stands there, and every other path keeps its entry.
pub proof fn law_outputs_are_recorded(
    snap: Tree,
    produced: Seq<(String, crate::hash::Hash)>,
    path: Seq<char>,
    k: int,
)
    requires
        -1 <= k < produced.len(),
        k >= 0 ==> produced[k].0@ == path,
        forall|i: int| k < i < produced.len() ==> (#[trigger] produced[i]).0@ != path,
    ensures
        ({
            let after = with_outputs(snap, produced);
            &&& k >= 0 ==> {
                &&& after.contains_key(path)
                &&& after[path].path == path
                &&& after[path].hash == produced[k].1@
                &&& after[path].len == 0
                &&& after[path].mode == 420
            }
            &&& k < 0 ==> (after.contains_key(path) <==> snap.contains_key(path)) && (
            snap.contains_key(path) ==> after[path] == snap[path])
        }),
    decreases produced.len(),
{
    if produced.len() > 0 && k < produced.len() - 1 {
        let init = produced.drop_last();
        assert(produced[produced.len() - 1].0@ != path);
        assert forall|i: int| k < i < init.len() implies (#[trigger] init[i]).0@ != path by {
            assert(produced[i].0@ != path);
        }
        law_outputs_are_recorded(snap, init, path, k);
    }
}

/// What is recorded as agreed, told by the two trees and the ancestor: the local
/// entry where both hold the same content, where the file is pushed as new or as
/// changed here alone; the remote entry where it is pulled; and nothing where the
/// file is deleted, in conflict, or nowhere.
pub proof fn law_agreement_is_told_by_the_trees(
    plan: crate::merge::MergePlan,
    local: Tree,
    ancestor: Tree,
    remote: Tree,
    path: Seq<char>,
)
    requires
        plan.reconciles(local, ancestor, remote),
    ensures
        ({
            let next = agreed(
                local,
                remote,
                views(plan.pull@),
                views(plan.delete_local@),
                views(plan.conflicts@),
            );
            let here = local.contains_key(path);
            let there = remote.contains_key(path);
            let known = ancestor.contains_key(path);
            let kept_here = known && ancestor[path].hash == local[path].hash;
            let kept_there = known && ancestor[path].hash == remote[path].hash;
            let same = local[path].hash == remote[path].hash;
            let ours = (here && there && (same || kept_there)) || (here && !there && !kept_here);
            let theirs = (here && there && !same && !kept_there && kept_here) || (there && !here
                && !kept_there);
            &&& next.contains_key(path) <==> ours || theirs
            &&& ours ==> next[path] == local[path]
            &&& theirs ==> next[path] == remote[path]
        }),
{
    let d = decide(local, ancestor, remote, path);
    assert(views(plan.pull@).contains(path) <==> d == Decision::Pull);
    assert(views(plan.delete_local@).contains(path) <==> d == Decision::DeleteLocal);
    assert(views(plan.conflicts@).contains(path) <==> d == Decision::Conflict);
}

} // verus!
