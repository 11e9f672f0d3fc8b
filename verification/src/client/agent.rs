//! The always-on live-sync agent.
//!
//! Started by an OS login service, the agent watches every registered code root
//! and keeps each in continuous two-way sync with the remote. One agent covers
//! all roots; roots that share a workspace name sync against one mirror.
//!
//! It is resilient: a dropped connection retries with backoff, and edits to the
//! config (adding/removing roots) restart the watch set without a relaunch.

use vstd::prelude::*;

use crate::config::{workspace_id, Root};
use crate::scan::lists;
use crate::text::{ascending, insert_sorted, same, views};

verus! {

/// Coalesce a burst of writes (branch switch, formatter run) into one round:
/// how long to wait, in milliseconds.
pub const DEBOUNCE_MILLIS: u64 = 150;

/// Reconnect backoff bounds when the remote is unreachable, in seconds.
pub const RECONNECT_MIN: u64 = 2;

pub const RECONNECT_MAX: u64 = 60;

/// How long to wait before looking for a configuration again, in seconds.
pub const UNCONFIGURED_WAIT: u64 = 10;

/// How long to wait between looks at the configuration, in seconds.
pub const CONFIG_POLL: u64 = 3;

/// The roots of one workspace.
#[derive(Debug)]
pub struct Group {
    pub workspace_id: String,
    pub roots: Vec<String>,
}

/// The paths of the roots that map to a workspace, in order.
pub open spec fn members(roots: Seq<Root>, id: Seq<char>) -> Seq<Seq<char>>
    decreases roots.len(),
{
    if roots.len() == 0 {
        Seq::empty()
    } else {
        let before = members(roots.drop_last(), id);
        if workspace_id(roots.last().name@) == id {
            before.push(roots.last().path@)
        } else {
            before
        }
    }
}

/// The workspaces that some root maps to.
pub open spec fn served(roots: Seq<Root>) -> spec_fn(Seq<char>) -> bool {
    |id: Seq<char>|
        exists|k: int| 0 <= k < roots.len() && workspace_id((#[trigger] roots[k]).name@) == id
}

/// What the groups of a list are called.
pub open spec fn group_ids(groups: Seq<Group>) -> Seq<Seq<char>> {
    Seq::new(groups.len(), |i: int| groups[i].workspace_id@)
}

fn collect_ids(roots: &[Root]) -> (ids: Vec<String>)
    ensures
        lists(views(ids@), served(roots@)),
{
    let mut ids: Vec<String> = Vec::new();
    let mut i: usize = 0;
    assert(views(ids@) =~= Seq::<Seq<char>>::empty());
    while i < roots.len()
        invariant
            i <= roots@.len(),
            ascending(views(ids@)),
            forall|id: Seq<char>| #[trigger]
                views(ids@).contains(id) <==> served(roots@.take(i as int))(id),
        decreases roots@.len() - i,
    {
        let ghost before = views(ids@);
        let id = roots[i].workspace_id();
        let ghost new = id@;
        insert_sorted(&mut ids, id);
        proof {
            let seen = roots@.take(i as int);
            let now = roots@.take(i + 1);
            assert forall|id: Seq<char>| #[trigger]
                views(ids@).contains(id) <==> served(now)(id) by {
                assert(views(ids@).contains(id) <==> before.contains(id) || id == new);
                assert(before.contains(id) <==> served(seen)(id));
                if served(seen)(id) {
                    let k = choose|k: int|
                        0 <= k < seen.len() && workspace_id((#[trigger] seen[k]).name@) == id;
                    assert(now[k] == seen[k]);
                }
                if id == new {
                    assert(now[i as int] == roots@[i as int]);
                }
                if served(now)(id) {
                    let k = choose|k: int|
                        0 <= k < now.len() && workspace_id((#[trigger] now[k]).name@) == id;
                    if k < i {
                        assert(seen[k] == now[k]);
                    }
                }
            }
        }
        i = i + 1;
    }
    assert(roots@.take(roots@.len() as int) =~= roots@);
    ids
}

fn collect_members(roots: &[Root], id: &str) -> (paths: Vec<String>)
    ensures
        views(paths@) == members(roots@, id@),
{
    let mut paths: Vec<String> = Vec::new();
    let mut i: usize = 0;
    assert(views(paths@) =~= members(roots@.take(0), id@));
    while i < roots.len()
        invariant
            i <= roots@.len(),
            views(paths@) == members(roots@.take(i as int), id@),
        decreases roots@.len() - i,
    {
        assert(roots@.take(i + 1).drop_last() =~= roots@.take(i as int));
        if same(roots[i].workspace_id().as_str(), id) {
            let ghost before = paths@;
            paths.push(roots[i].path.clone());
            assert(views(paths@) =~= views(before).push(roots@[i as int].path@));
        }
        i = i + 1;
    }
    assert(roots@.take(roots@.len() as int) =~= roots@);
    paths
}

/// Groups roots by the workspace they map to: roots sharing a name sync
/// together against one mirror. Workspaces come in ascending order, and the
/// roots of each in the order in which they were registered.
pub fn group_roots(roots: &[Root]) -> (groups: Vec<Group>)
    ensures
        lists(group_ids(groups@), served(roots@)),
        forall|i: int|
            0 <= i < groups@.len() ==> views((#[trigger] groups@[i]).roots@) == members(
                roots@,
                groups@[i].workspace_id@,
            ),
{
    let ids = collect_ids(roots);
    let ghost all = views(ids@);
    let mut groups: Vec<Group> = Vec::new();
    let mut i: usize = 0;
    while i < ids.len()
        invariant
            i <= ids@.len(),
            all == views(ids@),
            group_ids(groups@) =~= all.take(i as int),
            forall|j: int|
                0 <= j < groups@.len() ==> views((#[trigger] groups@[j]).roots@) == members(
                    roots@,
                    groups@[j].workspace_id@,
                ),
        decreases ids@.len() - i,
    {
        let ghost before = groups@;
        groups.push(
            Group {
                workspace_id: ids[i].clone(),
                roots: collect_members(roots, ids[i].as_str()),
            },
        );
        assert(group_ids(groups@) =~= group_ids(before).push(all[i as int]));
        i = i + 1;
    }
    assert(all.take(all.len() as int) =~= all);
    groups
}

proof fn lemma_member(roots: Seq<Root>, k: int)
    requires
        0 <= k < roots.len(),
    ensures
        members(roots, workspace_id(roots[k].name@)).contains(roots[k].path@),
    decreases roots.len(),
{
    let id = workspace_id(roots[k].name@);
    let all = members(roots, id);
    let init = roots.drop_last();
    let before = members(init, id);
    if k == roots.len() - 1 {
        assert(all[all.len() - 1] == roots[k].path@);
    } else {
        assert(init[k] == roots[k]);
        lemma_member(init, k);
        let j = before.index_of(roots[k].path@);
        assert(all[j] == roots[k].path@);
    }
}

/// One agent covers all roots: every registered root is in the group of its
/// workspace.
pub proof fn law_every_root_is_watched(roots: Seq<Root>, k: int)
    requires
        0 <= k < roots.len(),
    ensures
        served(roots)(workspace_id(roots[k].name@)),
        members(roots, workspace_id(roots[k].name@)).contains(roots[k].path@),
{
    lemma_member(roots, k);
}

/// The hash of a byte sequence, byte by byte: mix it in, then spread it.
pub open spec fn fnv(bytes: Seq<u8>) -> u64
    decreases bytes.len(),
{
    if bytes.len() == 0 {
        1469598103934665603u64
    } else {
        ((fnv(bytes.drop_last()) ^ (bytes.last() as u64)) * 1099511628211
            % 0x1_0000_0000_0000_0000) as u64
    }
}

/// Tiny non-cryptographic hash; only change detection is needed, not security.
pub fn seahash(bytes: &[u8]) -> (h: u64)
    ensures
        h == fnv(bytes@),
{
    let mut h: u64 = 1469598103934665603;
    let mut i: usize = 0;
    assert(bytes@.take(0) =~= Seq::<u8>::empty());
    while i < bytes.len()
        invariant
            i <= bytes@.len(),
            h == fnv(bytes@.take(i as int)),
        decreases bytes@.len() - i,
    {
        assert(bytes@.take(i + 1).drop_last() =~= bytes@.take(i as int));
        h = h ^ (bytes[i] as u64);
        h = h.wrapping_mul(1099511628211);
        i = i + 1;
    }
    assert(bytes@.take(bytes@.len() as int) =~= bytes@);
    h
}

/// A cheap fingerprint of the config file's content (none if it cannot be
/// read), used to detect real edits (roots added/removed, remote changed)
/// without reacting to access/mtime noise.
pub fn config_fingerprint(content: Option<&[u8]>) -> (print: Option<u64>)
    ensures
        print == match content {
            Some(bytes) => Some(fnv(bytes@)),
            None => None,
        },
{
    match content {
        Some(bytes) => Some(seahash(bytes)),
        None => None,
    }
}

/// Whether the watch set is to be reloaded: the fingerprint is not what it was.
pub fn config_changed(baseline: Option<u64>, now: Option<u64>) -> (changed: bool)
    ensures
        changed == (baseline != now),
{
    match (baseline, now) {
        (Some(a), Some(b)) => a != b,
        (None, None) => false,
        _ => true,
    }
}

/// How long to wait after the next failure, in seconds: twice as long as after
/// this one, up to the bound; after a clean end the wait starts over.
pub fn next_backoff(current: u64, clean: bool) -> (next: u64)
    ensures
        next == if clean {
            RECONNECT_MIN as int
        } else if 2 * current > RECONNECT_MAX {
            RECONNECT_MAX as int
        } else {
            2 * current
        },
        clean ==> next == 2,
        !clean && current <= 30 ==> next == 2 * current,
        !clean && current > 30 ==> next == 60,
{
    if clean {
        RECONNECT_MIN
    } else if current > RECONNECT_MAX / 2 {
        RECONNECT_MAX
    } else {
        2 * current
    }
}

/// The wait never leaves its bounds, and while the remote stays away it never
/// shrinks.
pub proof fn law_backoff_stays_in_bounds(current: u64, next: u64)
    requires
        RECONNECT_MIN <= current <= RECONNECT_MAX,
        next == if 2 * current > RECONNECT_MAX {
            RECONNECT_MAX as int
        } else {
            2 * current
        },
    ensures
        RECONNECT_MIN <= next <= RECONNECT_MAX,
        next >= current,
{
}

/// Whether a batch of file events calls for a sync round.
pub fn batch_syncs(events: usize) -> (yes: bool)
    ensures
        yes == (events > 0),
{
    events > 0
}

/// Roots are grouped one by one: two lists of roots together have the members of
/// each, in order, and a single root is a member of its own workspace alone.
pub proof fn law_roots_are_grouped_one_by_one(a: Seq<Root>, b: Seq<Root>, id: Seq<char>)
    ensures
        members(a + b, id) == members(a, id) + members(b, id),
        a.len() == 0 ==> members(a, id) == Seq::<Seq<char>>::empty(),
        a.len() == 1 ==> members(a, id) == if workspace_id(a[0].name@) == id {
            seq![a[0].path@]
        } else {
            Seq::<Seq<char>>::empty()
        },
    decreases b.len(),
{
    if a.len() == 1 {
        assert(members(a.drop_last(), id) =~= Seq::<Seq<char>>::empty());
        assert(members(a, id) =~= if workspace_id(a[0].name@) == id {
            seq![a[0].path@]
        } else {
            Seq::<Seq<char>>::empty()
        });
    }
    if b.len() == 0 {
        assert(a + b =~= a);
        assert(members(a + b, id) =~= members(a, id) + members(b, id));
    } else {
        law_roots_are_grouped_one_by_one(a, b.drop_last(), id);
        assert((a + b).drop_last() =~= a + b.drop_last());
        assert((a + b).last() == b.last());
        assert(members(a + b, id) =~= members(a, id) + members(b, id));
    }
}

/// A group holds the roots of its workspace and no others.
pub proof fn law_group_holds_its_own_roots(roots: Seq<Root>, id: Seq<char>, path: Seq<char>)
    ensures
        members(roots, id).contains(path) <==> exists|k: int|
            0 <= k < roots.len() && (#[trigger] roots[k]).path@ == path && workspace_id(
                roots[k].name@,
            ) == id,
        served(roots)(id) <==> members(roots, id).len() > 0,
    decreases roots.len(),
{
    if roots.len() > 0 {
        let init = roots.drop_last();
        let n = roots.len() - 1;
        law_group_holds_its_own_roots(init, id, path);
        let before = members(init, id);
        let all = members(roots, id);
        let ours = workspace_id(roots[n].name@) == id;
        if before.contains(path) {
            let j = before.index_of(path);
            assert(all[j] == path);
            let k = choose|k: int|
                0 <= k < init.len() && (#[trigger] init[k]).path@ == path && workspace_id(
                    init[k].name@,
                ) == id;
            assert(roots[k] == init[k]);
        }
        if ours && roots[n].path@ == path {
            assert(all[before.len() as int] == path);
        }
        if all.contains(path) {
            let j = all.index_of(path);
            if j < before.len() {
                assert(before[j] == path);
            }
        }
        if exists|k: int|
            0 <= k < roots.len() && (#[trigger] roots[k]).path@ == path && workspace_id(
                roots[k].name@,
            ) == id {
            let k = choose|k: int|
                0 <= k < roots.len() && (#[trigger] roots[k]).path@ == path && workspace_id(
                    roots[k].name@,
                ) == id;
            if k < n {
                assert(init[k] == roots[k]);
            }
        }
        if served(init)(id) {
            let k = choose|k: int|
                0 <= k < init.len() && workspace_id((#[trigger] init[k]).name@) == id;
            assert(roots[k] == init[k]);
        }
        if served(roots)(id) {
            let k = choose|k: int|
                0 <= k < roots.len() && workspace_id((#[trigger] roots[k]).name@) == id;
            if k < n {
                assert(init[k] == roots[k]);
            }
        }
    }
}

/// Every byte of the configuration counts: one more byte is mixed into the hash of
/// those before it, and the result is spread by the factor of the hash, modulo two
/// to the power of 64.
pub proof fn law_every_byte_is_mixed_in(bytes: Seq<u8>, b: u8)
    ensures
        fnv(Seq::empty()) == 1469598103934665603,
        fnv(bytes.push(b)) == (fnv(bytes) ^ (b as u64)) * 1099511628211 % 18446744073709551616,
{
    assert(bytes.push(b).drop_last() =~= bytes);
}

/// The groups of a list are called by their ids, in order.
pub proof fn law_groups_are_called_by_their_ids(groups: Seq<Group>, i: int)
    requires
        0 <= i < groups.len(),
    ensures
        group_ids(groups).len() == groups.len(),
        group_ids(groups)[i] == groups[i].workspace_id@,
{
}

} // verus!
