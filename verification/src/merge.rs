//! Three-way merge for two-way sync.
//!
//! Each client keeps an *ancestor* snapshot: the manifest as it stood after the
//! last successful sync. Comparing local-vs-ancestor and remote-vs-ancestor
//! tells us who changed what since the machines were last in agreement, which
//! is what lets two machines share a workspace without one clobbering the other.
//!
//! The guiding rule is **never lose data**: a file changed on both sides in
//! different ways becomes a conflict, where the local copy is kept and the
//! remote copy is written beside it as a sidecar. Nothing is silently
//! overwritten or deleted.

use vstd::prelude::*;

use crate::proto::{EntryView, ManifestEntry};
use crate::scan::{lemma_lists_start, lemma_lists_step, lists, lists_upto, Manifest};
use crate::text::{ascending, lemma_text_lt_transitive, order, text_lt, views, Order};

verus! {

/// A manifest as contracts speak of it.
pub type Tree = Map<Seq<char>, EntryView>;

/// What the client should do to reconcile local, ancestor, and remote.
#[derive(Debug, PartialEq, Eq)]
pub struct MergePlan {
    /// Push these local files to the remote (new or changed locally).
    pub push: Vec<String>,
    /// Pull these remote files (new or changed remotely).
    pub pull: Vec<String>,
    /// Delete these on the remote (deleted locally, unchanged remotely).
    pub delete_remote: Vec<String>,
    /// Delete these locally (deleted remotely, unchanged locally).
    pub delete_local: Vec<String>,
    /// Changed differently on both sides. Resolved by keeping local and pulling
    /// the remote copy into a sidecar; never auto-overwritten.
    pub conflicts: Vec<String>,
}

/// What to do about one path.
#[derive(Debug, Clone, Copy, PartialEq, Eq, Structural)]
pub enum Decision {
    Nothing,
    Push,
    Pull,
    DeleteRemote,
    DeleteLocal,
    Conflict,
}

/// The content at `path`, if there is a file.
pub open spec fn content(tree: Tree, path: Seq<char>) -> Option<Seq<u8>> {
    if tree.contains_key(path) {
        Some(tree[path].hash)
    } else {
        None
    }
}

/// What to do about a file with these contents: if the two sides agree,
/// nothing; if one side has not changed since the ancestor, take the other; if
/// both have changed, keep what survives, and where both survive, both.
pub open spec fn decision(
    local: Option<Seq<u8>>,
    ancestor: Option<Seq<u8>>,
    remote: Option<Seq<u8>>,
) -> Decision {
    if local == remote {
        Decision::Nothing
    } else if local == ancestor {
        if remote is Some {
            Decision::Pull
        } else {
            Decision::DeleteLocal
        }
    } else if remote == ancestor {
        if local is Some {
            Decision::Push
        } else {
            Decision::DeleteRemote
        }
    } else if remote is None {
        Decision::Push
    } else if local is None {
        Decision::Pull
    } else {
        Decision::Conflict
    }
}

/// What to do about `path`.
pub open spec fn decide(local: Tree, ancestor: Tree, remote: Tree, path: Seq<char>) -> Decision {
    decision(content(local, path), content(ancestor, path), content(remote, path))
}

/// The paths for which the merge decides `d`.
pub open spec fn decided(local: Tree, ancestor: Tree, remote: Tree, d: Decision) -> spec_fn(
    Seq<char>,
) -> bool {
    |p: Seq<char>| decide(local, ancestor, remote, p) == d
}

impl MergePlan {
    /// `self` lists every path under what the merge decides for it.
    pub open spec fn reconciles(self, local: Tree, ancestor: Tree, remote: Tree) -> bool {
        &&& lists(views(self.push@), decided(local, ancestor, remote, Decision::Push))
        &&& lists(views(self.pull@), decided(local, ancestor, remote, Decision::Pull))
        &&& lists(
            views(self.delete_remote@),
            decided(local, ancestor, remote, Decision::DeleteRemote),
        )
        &&& lists(
            views(self.delete_local@),
            decided(local, ancestor, remote, Decision::DeleteLocal),
        )
        &&& lists(views(self.conflicts@), decided(local, ancestor, remote, Decision::Conflict))
    }

    /// Whether there is nothing to do.
    pub fn is_empty(&self) -> (empty: bool)
        ensures
            empty == (self.push@.len() == 0 && self.pull@.len() == 0 && self.delete_remote@.len()
                == 0 && self.delete_local@.len() == 0 && self.conflicts@.len() == 0),
    {
        self.push.is_empty() && self.pull.is_empty() && self.delete_remote.is_empty()
            && self.delete_local.is_empty() && self.conflicts.is_empty()
    }
}

impl Default for MergePlan {
    fn default() -> (plan: MergePlan)
        ensures
            plan.push@.len() == 0,
            plan.pull@.len() == 0,
            plan.delete_remote@.len() == 0,
            plan.delete_local@.len() == 0,
            plan.conflicts@.len() == 0,
    {
        MergePlan {
            push: Vec::new(),
            pull: Vec::new(),
            delete_remote: Vec::new(),
            delete_local: Vec::new(),
            conflicts: Vec::new(),
        }
    }
}

/// Per-file change relative to the ancestor.
#[derive(Debug, Clone, Copy, PartialEq, Eq, Structural)]
enum Change {
    Absent,
    /// Present, identical to the ancestor.
    Same,
    /// Present, differs from the ancestor.
    Modified,
}

spec fn hash_of(entry: Option<&ManifestEntry>) -> Option<Seq<u8>> {
    match entry {
        Some(e) => Some(e@.hash),
        None => None,
    }
}

fn classify(side: Option<&ManifestEntry>, ancestor: Option<&ManifestEntry>) -> (change: Change)
    ensures
        change == Change::Absent <==> side is None,
        change == Change::Same <==> side is Some && hash_of(side) == hash_of(ancestor),
        change == Change::Modified <==> side is Some && hash_of(side) != hash_of(ancestor),
{
    match (side, ancestor) {
        (None, _) => Change::Absent,
        (Some(s), Some(a)) => {
            if s.hash == a.hash {
                Change::Same
            } else {
                Change::Modified
            }
        },
        // New since the ancestor.
        (Some(_), None) => Change::Modified,
    }
}

fn decide_entry(
    l: Option<&ManifestEntry>,
    a: Option<&ManifestEntry>,
    r: Option<&ManifestEntry>,
) -> (d: Decision)
    ensures
        d == decision(hash_of(l), hash_of(a), hash_of(r)),
{
    let lc = classify(l, a);
    let rc = classify(r, a);
    // If local and remote already agree on content, there's nothing to do
    // regardless of the ancestor (covers "both added the same file").
    if let (Some(lh), Some(rh)) = (l, r) {
        if lh.hash == rh.hash {
            return Decision::Nothing;
        }
    }
    match (lc, rc) {
        // Unchanged on a side: take the other side's change.
        (Change::Same, Change::Modified) => Decision::Pull,
        (Change::Modified, Change::Same) => Decision::Push,
        // Present only one side, ancestor had it, other side deleted it.
        (Change::Same, Change::Absent) => Decision::DeleteLocal,
        (Change::Absent, Change::Same) => Decision::DeleteRemote,
        // New on exactly one side, or modified on one side and deleted on the
        // other: the surviving content wins and the other side gets it.
        (Change::Modified, Change::Absent) => Decision::Push,
        (Change::Absent, Change::Modified) => Decision::Pull,
        // Both modified differently (hashes differ, checked above).
        (Change::Modified, Change::Modified) => Decision::Conflict,
        // Deleted on both, or unchanged on both.
        (Change::Absent, Change::Absent) => Decision::Nothing,
        (Change::Same, Change::Same) => Decision::Nothing,
    }
}

proof fn lemma_take_push(s: Seq<Seq<char>>, n: int)
    requires
        0 <= n < s.len(),
    ensures
        forall|p: Seq<char>| #[trigger]
            s.take(n + 1).contains(p) <==> s.take(n).contains(p) || p == s[n],
{
    assert forall|p: Seq<char>| #[trigger]
        s.take(n + 1).contains(p) <==> s.take(n).contains(p) || p == s[n] by {
        if s.take(n).contains(p) {
            let k = s.take(n).index_of(p);
            assert(s.take(n + 1)[k] == p);
        }
        if p == s[n] {
            assert(s.take(n + 1)[n] == p);
        }
        if s.take(n + 1).contains(p) {
            let k = s.take(n + 1).index_of(p);
            if k < n {
                assert(s.take(n)[k] == p);
            }
        }
    }
}

/// The paths of two ascending lists in one, each once.
fn union(a: &Vec<String>, b: &Vec<String>) -> (all: Vec<String>)
    requires
        ascending(views(a@)),
        ascending(views(b@)),
    ensures
        ascending(views(all@)),
        forall|p: Seq<char>| #[trigger]
            views(all@).contains(p) <==> views(a@).contains(p) || views(b@).contains(p),
{
    let ghost x = views(a@);
    let ghost y = views(b@);
    let mut all: Vec<String> = Vec::new();
    let mut i: usize = 0;
    let mut j: usize = 0;
    assert(x.take(0) =~= Seq::<Seq<char>>::empty());
    assert(y.take(0) =~= Seq::<Seq<char>>::empty());
    while i < a.len() || j < b.len()
        invariant
            i <= a@.len(),
            j <= b@.len(),
            x == views(a@),
            y == views(b@),
            ascending(x),
            ascending(y),
            ascending(views(all@)),
            forall|p: Seq<char>| #[trigger]
                views(all@).contains(p) <==> x.take(i as int).contains(p) || y.take(
                    j as int,
                ).contains(p),
            forall|k: int, m: int|
                0 <= k < all@.len() && i <= m < x.len() ==> text_lt(
                    #[trigger] views(all@)[k],
                    #[trigger] x[m],
                ),
            forall|k: int, m: int|
                0 <= k < all@.len() && j <= m < y.len() ==> text_lt(
                    #[trigger] views(all@)[k],
                    #[trigger] y[m],
                ),
        decreases a@.len() - i + b@.len() - j,
    {
        let o = if i >= a.len() {
            Order::Greater
        } else if j >= b.len() {
            Order::Less
        } else {
            order(a[i].as_str(), b[j].as_str())
        };
        let ghost before = all@;
        let next: String = match o {
            Order::Greater => b[j].clone(),
            _ => a[i].clone(),
        };
        let ghost p = next@;
        proof {
            match o {
                Order::Greater => {
                    assert(p == y[j as int]);
                    lemma_take_push(y, j as int);
                },
                Order::Less => {
                    assert(p == x[i as int]);
                    lemma_take_push(x, i as int);
                },
                Order::Same => {
                    assert(p == x[i as int]);
                    assert(p == y[j as int]);
                    lemma_take_push(x, i as int);
                    lemma_take_push(y, j as int);
                },
            }
        }
        all.push(next);
        let ghost i0 = i;
        let ghost j0 = j;
        match o {
            Order::Greater => {
                j = j + 1;
            },
            Order::Less => {
                i = i + 1;
            },
            Order::Same => {
                i = i + 1;
                j = j + 1;
            },
        }
        proof {
            let old_all = views(before);
            let new_all = views(all@);
            assert(new_all =~= old_all.push(p));
            assert forall|k: int, m: int| 0 <= k < m < new_all.len() implies #[trigger] text_lt(
                new_all[k],
                new_all[m],
            ) by {
                if m == old_all.len() {
                    if o == Order::Greater {
                        assert(text_lt(old_all[k], y[j0 as int]));
                    } else {
                        assert(text_lt(old_all[k], x[i0 as int]));
                    }
                } else {
                    assert(text_lt(old_all[k], old_all[m]));
                }
            }
            assert forall|q: Seq<char>| #[trigger]
                new_all.contains(q) <==> x.take(i as int).contains(q) || y.take(j as int).contains(
                q,
            ) by {
                assert(old_all.contains(q) <==> x.take(i0 as int).contains(q) || y.take(
                    j0 as int,
                ).contains(q));
                if old_all.contains(q) {
                    assert(new_all[old_all.index_of(q)] == q);
                }
                if q == p {
                    assert(new_all[old_all.len() as int] == q);
                }
                if new_all.contains(q) && q != p {
                    assert(old_all[new_all.index_of(q)] == q);
                }
            }
            assert forall|k: int, m: int| 0 <= k < all@.len() && i <= m < x.len() implies text_lt(
                #[trigger] new_all[k],
                #[trigger] x[m],
            ) by {
                if k == old_all.len() {
                    if o == Order::Greater {
                        assert(text_lt(p, x[i as int]));
                        if m > i {
                            assert(text_lt(x[i as int], x[m]));
                            lemma_text_lt_transitive(p, x[i as int], x[m]);
                        }
                    } else {
                        assert(text_lt(x[i0 as int], x[m]));
                    }
                } else {
                    assert(text_lt(old_all[k], x[m]));
                }
            }
            assert forall|k: int, m: int| 0 <= k < all@.len() && j <= m < y.len() implies text_lt(
                #[trigger] new_all[k],
                #[trigger] y[m],
            ) by {
                if k == old_all.len() {
                    if o == Order::Less {
                        assert(text_lt(p, y[j as int]));
                        if m > j {
                            assert(text_lt(y[j as int], y[m]));
                            lemma_text_lt_transitive(p, y[j as int], y[m]);
                        }
                    } else {
                        assert(text_lt(y[j0 as int], y[m]));
                    }
                } else {
                    assert(text_lt(old_all[k], y[m]));
                }
            }
        }
    }
    assert(x.take(x.len() as int) =~= x);
    assert(y.take(y.len() as int) =~= y);
    all
}

/// `s` lists those of the first `n` paths for which the merge decides `d`.
spec fn decided_upto(
    s: Seq<String>,
    all: Seq<Seq<char>>,
    n: int,
    local: Tree,
    ancestor: Tree,
    remote: Tree,
    d: Decision,
) -> bool {
    lists_upto(views(s), all, n, decided(local, ancestor, remote, d))
}

/// Computes the merge plan from the three manifests. `ancestor` is empty on the
/// first sync of a workspace, which makes every file on either side an addition,
/// so two populated trees union instead of one deleting the other.
pub fn plan(local: &Manifest, ancestor: &Manifest, remote: &Manifest) -> (out: MergePlan)
    ensures
        out.reconciles(local@, ancestor@, remote@),
{
    let MergePlan {
        mut push,
        mut pull,
        mut delete_remote,
        mut delete_local,
        mut conflicts,
    } = MergePlan::default();

    // Union of all paths seen anywhere.
    let paths = union(&union(&local.keys(), &ancestor.keys()), &remote.keys());
    let ghost all = views(paths@);
    let ghost (l, a, r) = (local@, ancestor@, remote@);
    proof {
        assert forall|p: Seq<char>| decide(l, a, r, p) != Decision::Nothing implies all.contains(
            p,
        ) by {
            assert(local.paths().contains(p) <==> l.contains_key(p));
            assert(ancestor.paths().contains(p) <==> a.contains_key(p));
            assert(remote.paths().contains(p) <==> r.contains_key(p));
        }
        assert(views(push@) =~= Seq::<Seq<char>>::empty());
        assert(views(pull@) =~= Seq::<Seq<char>>::empty());
        assert(views(delete_remote@) =~= Seq::<Seq<char>>::empty());
        assert(views(delete_local@) =~= Seq::<Seq<char>>::empty());
        assert(views(conflicts@) =~= Seq::<Seq<char>>::empty());
        lemma_lists_start(all, decided(l, a, r, Decision::Push));
        lemma_lists_start(all, decided(l, a, r, Decision::Pull));
        lemma_lists_start(all, decided(l, a, r, Decision::DeleteRemote));
        lemma_lists_start(all, decided(l, a, r, Decision::DeleteLocal));
        lemma_lists_start(all, decided(l, a, r, Decision::Conflict));
    }
    let mut i: usize = 0;
    while i < paths.len()
        invariant
            i <= paths@.len(),
            all == views(paths@),
            ascending(all),
            (l, a, r) == (local@, ancestor@, remote@),
            decided_upto(push@, all, i as int, l, a, r, Decision::Push),
            decided_upto(pull@, all, i as int, l, a, r, Decision::Pull),
            decided_upto(delete_remote@, all, i as int, l, a, r, Decision::DeleteRemote),
            decided_upto(delete_local@, all, i as int, l, a, r, Decision::DeleteLocal),
            decided_upto(conflicts@, all, i as int, l, a, r, Decision::Conflict),
        decreases paths@.len() - i,
    {
        let path = &paths[i];
        let ghost p = path@;
        assert(all[i as int] == p);
        let d = decide_entry(
            local.get(path.as_str()),
            ancestor.get(path.as_str()),
            remote.get(path.as_str()),
        );
        assert(d == decide(l, a, r, p));
        proof {
            let n = i as int;
            lemma_lists_step(views(push@), all, n, decided(l, a, r, Decision::Push));
            lemma_lists_step(views(pull@), all, n, decided(l, a, r, Decision::Pull));
            lemma_lists_step(
                views(delete_remote@),
                all,
                n,
                decided(l, a, r, Decision::DeleteRemote),
            );
            lemma_lists_step(
                views(delete_local@),
                all,
                n,
                decided(l, a, r, Decision::DeleteLocal),
            );
            lemma_lists_step(views(conflicts@), all, n, decided(l, a, r, Decision::Conflict));
        }
        match d {
            Decision::Nothing => {},
            Decision::Push => {
                let ghost before = push@;
                push.push(path.clone());
                assert(views(push@) =~= views(before).push(p));
            },
            Decision::Pull => {
                let ghost before = pull@;
                pull.push(path.clone());
                assert(views(pull@) =~= views(before).push(p));
            },
            Decision::DeleteRemote => {
                let ghost before = delete_remote@;
                delete_remote.push(path.clone());
                assert(views(delete_remote@) =~= views(before).push(p));
            },
            Decision::DeleteLocal => {
                let ghost before = delete_local@;
                delete_local.push(path.clone());
                assert(views(delete_local@) =~= views(before).push(p));
            },
            Decision::Conflict => {
                let ghost before = conflicts@;
                conflicts.push(path.clone());
                assert(views(conflicts@) =~= views(before).push(p));
            },
        }
        i = i + 1;
    }
    assert(all.take(all.len() as int) =~= all);
    MergePlan { push, pull, delete_remote, delete_local, conflicts }
}

/// A file is deleted only where nobody changed it: on one side it is as both
/// last agreed, and the other side has deleted it.
pub proof fn law_deletes_only_what_nobody_changed(
    local: Tree,
    ancestor: Tree,
    remote: Tree,
    path: Seq<char>,
)
    ensures
        decide(local, ancestor, remote, path) == Decision::DeleteLocal <==> (content(local, path)
            is Some && content(local, path) == content(ancestor, path) && content(remote, path)
            is None),
        decide(local, ancestor, remote, path) == Decision::DeleteRemote <==> (content(remote, path)
            is Some && content(remote, path) == content(ancestor, path) && content(local, path)
            is None),
{
}

/// Nothing is silently overwritten: a push replaces remote content, and a pull
/// local content, only where that content has not changed since the ancestor.
pub proof fn law_overwrites_only_unchanged_content(
    local: Tree,
    ancestor: Tree,
    remote: Tree,
    path: Seq<char>,
)
    ensures
        decide(local, ancestor, remote, path) == Decision::Push ==> content(local, path) is Some
            && (content(remote, path) is None || content(remote, path) == content(ancestor, path)),
        decide(local, ancestor, remote, path) == Decision::Pull ==> content(remote, path) is Some
            && (content(local, path) is None || content(local, path) == content(ancestor, path)),
{
}

/// A conflict is exactly a file that both sides hold and changed differently.
pub proof fn law_conflict_is_a_double_change(
    local: Tree,
    ancestor: Tree,
    remote: Tree,
    path: Seq<char>,
)
    ensures
        decide(local, ancestor, remote, path) == Decision::Conflict <==> {
            &&& content(local, path) is Some
            &&& content(remote, path) is Some
            &&& content(local, path) != content(remote, path)
            &&& content(local, path) != content(ancestor, path)
            &&& content(remote, path) != content(ancestor, path)
        },
{
}

/// Nothing is done about a path exactly when both sides agree on it.
pub proof fn law_agreement_needs_nothing(
    local: Tree,
    ancestor: Tree,
    remote: Tree,
    path: Seq<char>,
)
    ensures
        decide(local, ancestor, remote, path) == Decision::Nothing <==> content(local, path)
            == content(remote, path),
{
}

/// The plan for trees that agree everywhere is empty, and no other is.
pub proof fn law_plan_is_empty_iff_trees_agree(
    plan: MergePlan,
    local: Tree,
    ancestor: Tree,
    remote: Tree,
)
    requires
        plan.reconciles(local, ancestor, remote),
    ensures
        (plan.push@.len() == 0 && plan.pull@.len() == 0 && plan.delete_remote@.len() == 0
            && plan.delete_local@.len() == 0 && plan.conflicts@.len() == 0) <==> (forall|
            p: Seq<char>,
        | #[trigger]
            content(local, p) == content(remote, p)),
{
    let lists_of = |d: Decision|
        match d {
            Decision::Push => views(plan.push@),
            Decision::Pull => views(plan.pull@),
            Decision::DeleteRemote => views(plan.delete_remote@),
            Decision::DeleteLocal => views(plan.delete_local@),
            _ => views(plan.conflicts@),
        };
    if plan.push@.len() == 0 && plan.pull@.len() == 0 && plan.delete_remote@.len() == 0
        && plan.delete_local@.len() == 0 && plan.conflicts@.len() == 0 {
        assert forall|p: Seq<char>| #[trigger] content(local, p) == content(remote, p) by {
            let d = decide(local, ancestor, remote, p);
            if d != Decision::Nothing {
                assert(decided(local, ancestor, remote, d)(p));
                assert(lists_of(d).contains(p));
            }
        }
    }
    if forall|p: Seq<char>| #[trigger] content(local, p) == content(remote, p) {
        if plan.push@.len() > 0 {
            assert(views(plan.push@).contains(views(plan.push@)[0]));
            assert(content(local, views(plan.push@)[0]) == content(remote, views(plan.push@)[0]));
        }
        if plan.pull@.len() > 0 {
            assert(views(plan.pull@).contains(views(plan.pull@)[0]));
            assert(content(local, views(plan.pull@)[0]) == content(remote, views(plan.pull@)[0]));
        }
        if plan.delete_remote@.len() > 0 {
            let p = views(plan.delete_remote@)[0];
            assert(views(plan.delete_remote@).contains(p));
            assert(content(local, p) == content(remote, p));
        }
        if plan.delete_local@.len() > 0 {
            let p = views(plan.delete_local@)[0];
            assert(views(plan.delete_local@).contains(p));
            assert(content(local, p) == content(remote, p));
        }
        if plan.conflicts@.len() > 0 {
            let p = views(plan.conflicts@)[0];
            assert(views(plan.conflicts@).contains(p));
            assert(content(local, p) == content(remote, p));
        }
    }
}

/// The same decision seen from the other side.
pub open spec fn mirrored(d: Decision) -> Decision {
    match d {
        Decision::Push => Decision::Pull,
        Decision::Pull => Decision::Push,
        Decision::DeleteRemote => Decision::DeleteLocal,
        Decision::DeleteLocal => Decision::DeleteRemote,
        _ => d,
    }
}

/// Neither side is favoured: exchanging the two sides mirrors every decision.
pub proof fn law_merge_is_symmetric(local: Tree, ancestor: Tree, remote: Tree, path: Seq<char>)
    ensures
        decide(remote, ancestor, local, path) == mirrored(decide(local, ancestor, remote, path)),
{
}

/// The first sync of a workspace unions both trees: with no ancestor nothing
/// is deleted on either side, a file of one side only goes to the other, and a
/// file that the two hold differently is a conflict.
pub proof fn law_first_sync_unions(local: Tree, remote: Tree, path: Seq<char>)
    ensures
        ({
            let d = decide(local, Map::empty(), remote, path);
            &&& d != Decision::DeleteLocal && d != Decision::DeleteRemote
            &&& d == Decision::Push <==> local.contains_key(path) && !remote.contains_key(path)
            &&& d == Decision::Pull <==> remote.contains_key(path) && !local.contains_key(path)
            &&& d == Decision::Conflict <==> local.contains_key(path) && remote.contains_key(path)
                && local[path].hash != remote[path].hash
        }),
{
}

/// Downloading into an empty directory that was never synced pulls every file
/// of the workspace and does nothing else.
pub proof fn law_download_pulls_everything(remote: Tree, path: Seq<char>)
    ensures
        decide(Map::empty(), Map::empty(), remote, path) == if remote.contains_key(path) {
            Decision::Pull
        } else {
            Decision::Nothing
        },
{
}

/// The local tree once the plan has been carried out. A conflict leaves the
/// local file as it is.
pub open spec fn local_after(local: Tree, ancestor: Tree, remote: Tree) -> Tree {
    Map::new(
        |p: Seq<char>|
            match decide(local, ancestor, remote, p) {
                Decision::Pull => true,
                Decision::DeleteLocal => false,
                _ => local.contains_key(p),
            },
        |p: Seq<char>|
            if decide(local, ancestor, remote, p) == Decision::Pull {
                remote[p]
            } else {
                local[p]
            },
    )
}

/// The remote tree once the plan has been carried out.
pub open spec fn remote_after(local: Tree, ancestor: Tree, remote: Tree) -> Tree {
    Map::new(
        |p: Seq<char>|
            match decide(local, ancestor, remote, p) {
                Decision::Push => true,
                Decision::DeleteRemote => false,
                _ => remote.contains_key(p),
            },
        |p: Seq<char>|
            if decide(local, ancestor, remote, p) == Decision::Push {
                local[p]
            } else {
                remote[p]
            },
    )
}

/// The remote tree with a plan's lists carried out on it: the files to delete are
/// gone, and the pushed ones are as they are locally.
pub open spec fn carried_out_remote(plan: MergePlan, local: Tree, remote: Tree) -> Tree {
    Map::new(
        |p: Seq<char>|
            views(plan.push@).contains(p) || (remote.contains_key(p) && !views(
                plan.delete_remote@,
            ).contains(p)),
        |p: Seq<char>|
            if views(plan.push@).contains(p) {
                local[p]
            } else {
                remote[p]
            },
    )
}

/// The local tree with a plan's lists carried out on it: the files to delete are
/// gone, and the pulled ones are as they are on the remote.
pub open spec fn carried_out_local(plan: MergePlan, local: Tree, remote: Tree) -> Tree {
    Map::new(
        |p: Seq<char>|
            views(plan.pull@).contains(p) || (local.contains_key(p) && !views(
                plan.delete_local@,
            ).contains(p)),
        |p: Seq<char>|
            if views(plan.pull@).contains(p) {
                remote[p]
            } else {
                local[p]
            },
    )
}

/// Carrying out the five lists of a plan does what was decided for each path.
pub proof fn law_plan_carries_out_the_decisions(
    plan: MergePlan,
    local: Tree,
    ancestor: Tree,
    remote: Tree,
)
    requires
        plan.reconciles(local, ancestor, remote),
    ensures
        carried_out_remote(plan, local, remote) == remote_after(local, ancestor, remote),
        carried_out_local(plan, local, remote) == local_after(local, ancestor, remote),
{
    assert forall|p: Seq<char>| #[trigger]
        views(plan.push@).contains(p) <==> decide(local, ancestor, remote, p)
        == Decision::Push by {
        assert(views(plan.push@).contains(p) <==> decided(local, ancestor, remote, Decision::Push)(
            p,
        ));
    }
    assert forall|p: Seq<char>| #[trigger]
        views(plan.pull@).contains(p) <==> decide(local, ancestor, remote, p)
        == Decision::Pull by {
        assert(views(plan.pull@).contains(p) <==> decided(local, ancestor, remote, Decision::Pull)(
            p,
        ));
    }
    assert forall|p: Seq<char>| #[trigger]
        views(plan.delete_remote@).contains(p) <==> decide(local, ancestor, remote, p)
        == Decision::DeleteRemote by {
        assert(views(plan.delete_remote@).contains(p) <==> decided(
            local,
            ancestor,
            remote,
            Decision::DeleteRemote,
        )(p));
    }
    assert forall|p: Seq<char>| #[trigger]
        views(plan.delete_local@).contains(p) <==> decide(local, ancestor, remote, p)
        == Decision::DeleteLocal by {
        assert(views(plan.delete_local@).contains(p) <==> decided(
            local,
            ancestor,
            remote,
            Decision::DeleteLocal,
        )(p));
    }
    assert(carried_out_remote(plan, local, remote) =~= remote_after(local, ancestor, remote));
    assert(carried_out_local(plan, local, remote) =~= local_after(local, ancestor, remote));
}

/// A round converges: once the plan has been carried out, both sides hold the
/// same content at every path but the conflicts, where each keeps its own.
pub proof fn law_round_converges(local: Tree, ancestor: Tree, remote: Tree, path: Seq<char>)
    ensures
        ({
            let l = content(local_after(local, ancestor, remote), path);
            let r = content(remote_after(local, ancestor, remote), path);
            if decide(local, ancestor, remote, path) == Decision::Conflict {
                l == content(local, path) && r == content(remote, path)
            } else {
                l == r
            }
        }),
{
}

/// No content that somebody changed vanishes in a round: what either side held
/// and had changed since the ancestor is still held by one of the two after.
pub proof fn law_changed_content_survives(
    local: Tree,
    ancestor: Tree,
    remote: Tree,
    path: Seq<char>,
)
    ensures
        ({
            let l = content(local_after(local, ancestor, remote), path);
            let r = content(remote_after(local, ancestor, remote), path);
            &&& content(local, path) is Some && content(local, path) != content(ancestor, path)
                ==> l == content(local, path)
            &&& content(remote, path) is Some && content(remote, path) != content(ancestor, path)
                ==> r == content(remote, path)
        }),
{
}

/// What the merge does about every file, told by the files alone: a file on one
/// side only goes to the other side, unless it is as both last agreed, and then
/// it is deleted; of two different files one that has not changed gives way to
/// the other; and where both have changed they are in conflict. Nothing is listed
/// twice, and nothing else is listed.
pub proof fn law_plan_moves_every_file(
    plan: MergePlan,
    local: Tree,
    ancestor: Tree,
    remote: Tree,
    path: Seq<char>,
)
    requires
        plan.reconciles(local, ancestor, remote),
    ensures
        ({
            let here = local.contains_key(path);
            let there = remote.contains_key(path);
            let known = ancestor.contains_key(path);
            let kept_here = known && ancestor[path].hash == local[path].hash;
            let kept_there = known && ancestor[path].hash == remote[path].hash;
            let same = local[path].hash == remote[path].hash;
            &&& (exists|i: int|
                0 <= i < plan.push@.len() && (#[trigger] plan.push@[i])@ == path) <==> (here && !there
                && !kept_here) || (here && there && !same && kept_there)
            &&& (exists|i: int|
                0 <= i < plan.pull@.len() && (#[trigger] plan.pull@[i])@ == path) <==> (there && !here
                && !kept_there) || (here && there && !same && kept_here)
            &&& (exists|i: int|
                0 <= i < plan.delete_local@.len() && (#[trigger] plan.delete_local@[i])@ == path) <==> (
            here && !there && kept_here)
            &&& (exists|i: int|
                0 <= i < plan.delete_remote@.len() && (#[trigger] plan.delete_remote@[i])@ == path)
                <==> (there && !here && kept_there)
            &&& (exists|i: int|
                0 <= i < plan.conflicts@.len() && (#[trigger] plan.conflicts@[i])@ == path) <==> (here
                && there && !same && !kept_here && !kept_there)
        }),
        forall|i: int, j: int|
            0 <= i < j < plan.push@.len() ==> (#[trigger] plan.push@[i])@ != (
            #[trigger] plan.push@[j])@,
        forall|i: int, j: int|
            0 <= i < j < plan.pull@.len() ==> (#[trigger] plan.pull@[i])@ != (
            #[trigger] plan.pull@[j])@,
        forall|i: int, j: int|
            0 <= i < j < plan.delete_local@.len() ==> (#[trigger] plan.delete_local@[i])@ != (
            #[trigger] plan.delete_local@[j])@,
        forall|i: int, j: int|
            0 <= i < j < plan.delete_remote@.len() ==> (#[trigger] plan.delete_remote@[i])@ != (
            #[trigger] plan.delete_remote@[j])@,
        forall|i: int, j: int|
            0 <= i < j < plan.conflicts@.len() ==> (#[trigger] plan.conflicts@[i])@ != (
            #[trigger] plan.conflicts@[j])@,
{
    lemma_listed(plan.push@, decided(local, ancestor, remote, Decision::Push), path);
    lemma_listed(plan.pull@, decided(local, ancestor, remote, Decision::Pull), path);
    lemma_listed(plan.delete_local@, decided(local, ancestor, remote, Decision::DeleteLocal), path);
    lemma_listed(
        plan.delete_remote@,
        decided(local, ancestor, remote, Decision::DeleteRemote),
        path,
    );
    lemma_listed(plan.conflicts@, decided(local, ancestor, remote, Decision::Conflict), path);
}

proof fn lemma_listed(list: Seq<String>, pred: spec_fn(Seq<char>) -> bool, path: Seq<char>)
    requires
        lists(views(list), pred),
    ensures
        (exists|i: int| 0 <= i < list.len() && (#[trigger] list[i])@ == path) <==> pred(path),
        forall|i: int, j: int|
            0 <= i < j < list.len() ==> (#[trigger] list[i])@ != (#[trigger] list[j])@,
{
    let all = views(list);
    assert(all.contains(path) <==> pred(path));
    if all.contains(path) {
        let k = all.index_of(path);
        assert(list[k]@ == path);
    }
    if exists|i: int| 0 <= i < list.len() && (#[trigger] list[i])@ == path {
        let k = choose|i: int| 0 <= i < list.len() && (#[trigger] list[i])@ == path;
        assert(all[k] == path);
    }
    assert forall|i: int, j: int| 0 <= i < j < list.len() implies (#[trigger] list[i])@ != (
    #[trigger] list[j])@ by {
        assert(text_lt(all[i], all[j]));
        crate::text::lemma_text_lt_irreflexive(all[i]);
    }
}

} // verus!
