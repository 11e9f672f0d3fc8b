//! Filesystem scanning: turning a directory tree into a content-addressed
//! manifest both sides can diff.
//!
//! The client scans with ignore rules applied (`.gitignore` + `.rbuildignore`)
//! so build outputs and VCS metadata never sync. The daemon scans its mirror
//! without ignore rules: it must see exactly what it stored so deletions are
//! detected. Both produce the same [`ManifestEntry`] shape keyed by relative,
//! forward-slashed path.

use vstd::prelude::*;

use crate::proto::{EntryView, ManifestEntry};
use crate::path::{components, rest, same_path, starts_with, strip_dir};
use crate::text::{
    ascending, holds, lemma_text_lt_irreflexive, lemma_text_lt_transitive, order,
    replace_char, replaced, split, split_at_char, text_lt, views, Order,
};

verus! {

/// `s` lists exactly the texts that satisfy `pred`, in ascending order, each
/// once.
pub open spec fn lists(s: Seq<Seq<char>>, pred: spec_fn(Seq<char>) -> bool) -> bool {
    &&& ascending(s)
    &&& forall|p: Seq<char>| #[trigger] s.contains(p) <==> pred(p)
}

/// `s` lists those of the first `n` texts of `all` that satisfy `pred`.
pub open spec fn lists_upto(
    s: Seq<Seq<char>>,
    all: Seq<Seq<char>>,
    n: int,
    pred: spec_fn(Seq<char>) -> bool,
) -> bool {
    &&& ascending(s)
    &&& forall|p: Seq<char>| #[trigger] s.contains(p) <==> all.take(n).contains(p) && pred(p)
}

pub proof fn lemma_lists_start(all: Seq<Seq<char>>, pred: spec_fn(Seq<char>) -> bool)
    ensures
        lists_upto(Seq::empty(), all, 0, pred),
{
    assert(all.take(0) =~= Seq::<Seq<char>>::empty());
}

pub proof fn lemma_lists_step(
    s: Seq<Seq<char>>,
    all: Seq<Seq<char>>,
    n: int,
    pred: spec_fn(Seq<char>) -> bool,
)
    requires
        ascending(all),
        0 <= n < all.len(),
        lists_upto(s, all, n, pred),
    ensures
        pred(all[n]) ==> lists_upto(s.push(all[n]), all, n + 1, pred),
        !pred(all[n]) ==> lists_upto(s, all, n + 1, pred),
{
    let t = s.push(all[n]);
    assert(all.take(n + 1) =~= all.take(n).push(all[n]));
    assert forall|p: Seq<char>| #[trigger]
        all.take(n + 1).contains(p) <==> all.take(n).contains(p) || p == all[n] by {
        if all.take(n).contains(p) {
            let k = all.take(n).index_of(p);
            assert(all.take(n + 1)[k] == p);
        }
        if p == all[n] {
            assert(all.take(n + 1)[n] == p);
        }
    }
    if pred(all[n]) {
        assert forall|i: int, j: int| 0 <= i < j < t.len() implies #[trigger] text_lt(
            t[i],
            t[j],
        ) by {
            if j == s.len() {
                assert(s.contains(s[i]));
                let k = all.take(n).index_of(s[i]);
                assert(all[k] == s[i]);
            } else {
                assert(text_lt(s[i], s[j]));
            }
        }
        assert forall|p: Seq<char>| #[trigger]
            t.contains(p) <==> all.take(n + 1).contains(p) && pred(p) by {
            if s.contains(p) {
                let k = s.index_of(p);
                assert(t[k] == p);
            }
            if p == all[n] {
                assert(t[s.len() as int] == p);
            }
            if t.contains(p) {
                let k = t.index_of(p);
                if k < s.len() {
                    assert(s[k] == p);
                }
            }
        }
    } else {
        assert forall|p: Seq<char>| #[trigger]
            s.contains(p) <==> all.take(n + 1).contains(p) && pred(p) by {
            assert(s.contains(p) <==> all.take(n).contains(p) && pred(p));
        }
    }
}

/// The list of a set of texts is determined by the set.
pub proof fn law_listing_is_unique(
    a: Seq<Seq<char>>,
    b: Seq<Seq<char>>,
    pred: spec_fn(Seq<char>) -> bool,
)
    requires
        lists(a, pred),
        lists(b, pred),
    ensures
        a == b,
    decreases a.len(),
{
    if a.len() == 0 {
        if b.len() > 0 {
            assert(b.contains(b[0]));
            assert(a.contains(b[0]));
        }
        assert(a =~= b);
    } else {
        let x = a.last();
        assert(a.contains(x));
        assert(b.contains(x));
        let y = b.last();
        assert(b.contains(y));
        assert(a.contains(y));
        let i = a.index_of(y);
        let j = b.index_of(x);
        if x != y {
            assert(text_lt(a[i], a[a.len() - 1]));
            assert(text_lt(b[j], b[b.len() - 1]));
            lemma_text_lt_transitive(x, y, x);
            lemma_text_lt_irreflexive(x);
        }
        let rest = |p: Seq<char>| pred(p) && p != x;
        assert(lists(a.drop_last(), rest)) by {
            lemma_lists_drop_last(a, pred);
        }
        assert(lists(b.drop_last(), rest)) by {
            lemma_lists_drop_last(b, pred);
        }
        law_listing_is_unique(a.drop_last(), b.drop_last(), rest);
        assert(a =~= a.drop_last().push(x));
        assert(b =~= b.drop_last().push(x));
    }
}

proof fn lemma_lists_drop_last(a: Seq<Seq<char>>, pred: spec_fn(Seq<char>) -> bool)
    requires
        a.len() > 0,
        lists(a, pred),
    ensures
        lists(a.drop_last(), |p: Seq<char>| pred(p) && p != a.last()),
{
    let d = a.drop_last();
    assert forall|i: int, j: int| 0 <= i < j < d.len() implies #[trigger] text_lt(d[i], d[j]) by {
        assert(text_lt(a[i], a[j]));
    }
    assert forall|p: Seq<char>| #[trigger] d.contains(p) <==> pred(p) && p != a.last() by {
        if d.contains(p) {
            let k = d.index_of(p);
            assert(a[k] == p);
            assert(text_lt(a[k], a[a.len() - 1]));
            lemma_text_lt_irreflexive(p);
            assert(a.contains(p));
        }
        if pred(p) && p != a.last() {
            assert(a.contains(p));
            let k = a.index_of(p);
            assert(d[k] == p);
        }
    }
}

/// A manifest as a path-to-entry map for cheap diffing. Paths use `/` on every
/// platform so a Windows client and Linux daemon agree. Paths come out in
/// ascending order.
#[derive(Debug)]
pub struct Manifest {
    entries: Vec<(String, ManifestEntry)>,
}

spec fn paths_of(entries: Seq<(String, ManifestEntry)>) -> Seq<Seq<char>> {
    Seq::new(entries.len(), |i: int| entries[i].0@)
}

spec fn map_of(entries: Seq<(String, ManifestEntry)>) -> Map<Seq<char>, EntryView>
    decreases entries.len(),
{
    if entries.len() == 0 {
        Map::empty()
    } else {
        map_of(entries.drop_last()).insert(entries.last().0@, entries.last().1@)
    }
}

proof fn lemma_map_of(entries: Seq<(String, ManifestEntry)>)
    requires
        ascending(paths_of(entries)),
    ensures
        forall|p: Seq<char>| #[trigger]
            map_of(entries).contains_key(p) <==> paths_of(entries).contains(p),
        forall|i: int|
            0 <= i < entries.len() ==> map_of(entries).contains_key(#[trigger] entries[i].0@)
                && map_of(entries)[entries[i].0@] == entries[i].1@,
    decreases entries.len(),
{
    let paths = paths_of(entries);
    if entries.len() > 0 {
        let init = entries.drop_last();
        let last = entries.last();
        assert(paths_of(init) =~= paths.drop_last());
        assert(ascending(paths_of(init)));
        lemma_map_of(init);
        assert forall|p: Seq<char>| #[trigger]
            map_of(entries).contains_key(p) <==> paths.contains(p) by {
            assert(map_of(entries).contains_key(p) <==> p == last.0@ || map_of(init).contains_key(
                p,
            ));
            if paths.contains(p) {
                let i = paths.index_of(p);
                if i < init.len() {
                    assert(paths_of(init)[i] == p);
                }
            }
            if paths_of(init).contains(p) {
                let i = paths_of(init).index_of(p);
                assert(paths[i] == p);
            }
            if p == last.0@ {
                assert(paths[entries.len() - 1] == p);
            }
        }
        assert forall|i: int| 0 <= i < entries.len() implies map_of(entries).contains_key(
            #[trigger] entries[i].0@,
        ) && map_of(entries)[entries[i].0@] == entries[i].1@ by {
            if i < init.len() {
                assert(init[i] == entries[i]);
                assert(text_lt(paths[i], paths[entries.len() - 1]));
                lemma_text_lt_irreflexive(paths[i]);
            }
        }
    }
}

impl View for Manifest {
    type V = Map<Seq<char>, EntryView>;

    closed spec fn view(&self) -> Map<Seq<char>, EntryView> {
        map_of(self.entries@)
    }
}

impl Manifest {
    #[verifier::type_invariant]
    spec fn sorted(&self) -> bool {
        ascending(paths_of(self.entries@))
    }

    /// The paths in ascending order.
    pub closed spec fn paths(self) -> Seq<Seq<char>> {
        paths_of(self.entries@)
    }

    /// An empty manifest.
    pub fn new() -> (m: Manifest)
        ensures
            m@ == Map::<Seq<char>, EntryView>::empty(),
    {
        Manifest { entries: Vec::new() }
    }

    /// The number of files.
    pub fn len(&self) -> (n: usize)
        ensures
            n == self.paths().len(),
            lists(self.paths(), |p: Seq<char>| self@.contains_key(p)),
    {
        proof {
            use_type_invariant(self);
            lemma_map_of(self.entries@);
        }
        self.entries.len()
    }

    /// Where `path` is, or where it would go.
    fn position(&self, path: &str) -> (at: (usize, bool))
        ensures
            at.0 <= self.entries@.len(),
            at.1 ==> at.0 < self.entries@.len() && self.entries@[at.0 as int].0@ == path@,
            forall|i: int| 0 <= i < at.0 ==> text_lt(#[trigger] self.entries@[i].0@, path@),
            forall|i: int|
                at.0 <= i < self.entries@.len() && !(at.1 && i == at.0) ==> text_lt(
                    path@,
                    #[trigger] self.entries@[i].0@,
                ),
    {
        proof {
            use_type_invariant(self);
        }
        let mut lo: usize = 0;
        let mut hi: usize = self.entries.len();
        let ghost paths = paths_of(self.entries@);
        while lo < hi
            invariant
                lo <= hi <= self.entries@.len(),
                paths == paths_of(self.entries@),
                ascending(paths),
                forall|i: int| 0 <= i < lo ==> text_lt(#[trigger] self.entries@[i].0@, path@),
                forall|i: int|
                    hi <= i < self.entries@.len() ==> text_lt(
                        path@,
                        #[trigger] self.entries@[i].0@,
                    ),
            decreases hi - lo,
        {
            let mid = lo + (hi - lo) / 2;
            let ghost here = paths[mid as int];
            match order(self.entries[mid].0.as_str(), path) {
                Order::Same => {
                    proof {
                        assert forall|i: int| 0 <= i < mid implies text_lt(
                            #[trigger] self.entries@[i].0@,
                            path@,
                        ) by {
                            assert(text_lt(paths[i], here));
                        }
                        assert forall|i: int| mid < i < self.entries@.len() implies text_lt(
                            path@,
                            #[trigger] self.entries@[i].0@,
                        ) by {
                            assert(text_lt(here, paths[i]));
                        }
                    }
                    return (mid, true);
                },
                Order::Less => {
                    proof {
                        assert forall|i: int| 0 <= i < mid + 1 implies text_lt(
                            #[trigger] self.entries@[i].0@,
                            path@,
                        ) by {
                            if i < mid {
                                assert(text_lt(paths[i], here));
                                lemma_text_lt_transitive(paths[i], here, path@);
                            }
                        }
                    }
                    lo = mid + 1;
                },
                Order::Greater => {
                    proof {
                        assert forall|i: int| mid <= i < self.entries@.len() implies text_lt(
                            path@,
                            #[trigger] self.entries@[i].0@,
                        ) by {
                            if mid < i {
                                assert(text_lt(here, paths[i]));
                                lemma_text_lt_transitive(path@, here, paths[i]);
                            }
                        }
                    }
                    hi = mid;
                },
            }
        }
        (lo, false)
    }

    /// The entry for `path`, if there is one.
    pub fn get(&self, path: &str) -> (entry: Option<&ManifestEntry>)
        ensures
            match entry {
                Some(e) => self@.contains_key(path@) && e@ == self@[path@],
                None => !self@.contains_key(path@),
            },
    {
        let (i, found) = self.position(path);
        proof {
            use_type_invariant(self);
            lemma_map_of(self.entries@);
        }
        if found {
            Some(&self.entries[i].1)
        } else {
            proof {
                if paths_of(self.entries@).contains(path@) {
                    let k = paths_of(self.entries@).index_of(path@);
                    assert(self.entries@[k].0@ == path@);
                    lemma_text_lt_irreflexive(path@);
                }
            }
            None
        }
    }

    /// Whether there is an entry for `path`.
    pub fn contains_key(&self, path: &str) -> (found: bool)
        ensures
            found == self@.contains_key(path@),
    {
        self.get(path).is_some()
    }

    /// Sets the entry for `path`.
    pub fn insert(&mut self, path: String, entry: ManifestEntry)
        ensures
            final(self)@ == old(self)@.insert(path@, entry@),
    {
        let (i, found) = self.position(path.as_str());
        proof {
            use_type_invariant(&*self);
        }
        let mut entries: Vec<(String, ManifestEntry)> = Vec::new();
        std::mem::swap(&mut entries, &mut self.entries);
        let ghost before = entries@;
        let ghost p = path@;
        let ghost e = entry@;
        if found {
            entries.remove(i);
        }
        entries.insert(i, (path, entry));
        proof {
            let after = entries@;
            assert(found ==> after =~= before.update(i as int, after[i as int]));
            assert(!found ==> after =~= before.insert(i as int, after[i as int]));
            let paths = paths_of(after);
            assert forall|a: int, b: int| 0 <= a < b < paths.len() implies #[trigger] text_lt(
                paths[a],
                paths[b],
            ) by {
                let old_paths = paths_of(before);
                let shift = if found {
                    0int
                } else {
                    1int
                };
                let a0 = if a < i {
                    a
                } else {
                    a - shift
                };
                let b0 = if b < i {
                    b
                } else {
                    b - shift
                };
                if a != i && b != i {
                    assert(text_lt(old_paths[a0], old_paths[b0]));
                } else if a == i {
                    assert(text_lt(p, before[b0].0@));
                } else {
                    assert(text_lt(before[a0].0@, p));
                }
            }
            lemma_map_of(before);
            lemma_map_of(after);
            assert(map_of(after) =~= map_of(before).insert(p, e)) by {
                assert(after[i as int].0@ == p);
                assert(paths_of(after)[i as int] == p);
                assert forall|q: Seq<char>| #[trigger]
                    map_of(after).contains_key(q) <==> map_of(before).insert(p, e).contains_key(
                    q,
                ) by {
                    if paths_of(after).contains(q) && q != p {
                        let k = paths_of(after).index_of(q);
                        let k0 = if k < i || found {
                            k
                        } else {
                            k - 1
                        };
                        assert(paths_of(before)[k0] == q);
                    }
                    if paths_of(before).contains(q) && q != p {
                        let k0 = paths_of(before).index_of(q);
                        let k = if k0 < i || found {
                            k0
                        } else {
                            k0 + 1
                        };
                        assert(paths_of(after)[k] == q);
                    }
                }
                assert forall|q: Seq<char>| #[trigger]
                    map_of(after).contains_key(q) implies map_of(after)[q] == map_of(before).insert(
                    p,
                    e,
                )[q] by {
                    let k = paths_of(after).index_of(q);
                    assert(after[k].0@ == q);
                    if q != p {
                        let k0 = if k < i || found {
                            k
                        } else {
                            k - 1
                        };
                        assert(before[k0] == after[k]);
                        assert(before[k0].0@ == q);
                    } else {
                        assert(map_of(after)[after[i as int].0@] == e);
                    }
                }
            }
        }
        self.entries = entries;
    }
}

/// The map that a list of entries spells, each under its own path; of two
/// entries for one path the later counts.
pub open spec fn keyed(entries: Seq<ManifestEntry>) -> Map<Seq<char>, EntryView>
    decreases entries.len(),
{
    if entries.len() == 0 {
        Map::empty()
    } else {
        keyed(entries.drop_last()).insert(entries.last()@.path, entries.last()@)
    }
}

impl Manifest {
    /// Drops the entry for `path`, if there is one.
    pub fn remove(&mut self, path: &str)
        ensures
            final(self)@ == old(self)@.remove(path@),
    {
        let (i, found) = self.position(path);
        proof {
            use_type_invariant(&*self);
            lemma_map_of(self.entries@);
        }
        if found {
            let mut entries: Vec<(String, ManifestEntry)> = Vec::new();
            std::mem::swap(&mut entries, &mut self.entries);
            let ghost before = entries@;
            entries.remove(i);
            proof {
                let after = entries@;
                let old_paths = paths_of(before);
                let paths = paths_of(after);
                assert(paths =~= old_paths.remove(i as int));
                assert forall|a: int, b: int| 0 <= a < b < paths.len() implies #[trigger] text_lt(
                    paths[a],
                    paths[b],
                ) by {
                    let a0 = if a < i {
                        a
                    } else {
                        a + 1
                    };
                    let b0 = if b < i {
                        b
                    } else {
                        b + 1
                    };
                    assert(text_lt(old_paths[a0], old_paths[b0]));
                }
                lemma_map_of(after);
                assert forall|q: Seq<char>| #[trigger]
                    map_of(after).contains_key(q) <==> map_of(before).remove(path@).contains_key(
                    q,
                ) by {
                    if paths.contains(q) {
                        let k = paths.index_of(q);
                        let k0 = if k < i {
                            k
                        } else {
                            k + 1
                        };
                        assert(old_paths[k0] == q);
                        assert(before[k0].0@ == q);
                        lemma_text_lt_irreflexive(path@);
                    }
                    if old_paths.contains(q) && q != path@ {
                        let k0 = old_paths.index_of(q);
                        let k = if k0 < i {
                            k0
                        } else {
                            k0 - 1
                        };
                        assert(paths[k] == q);
                    }
                }
                assert forall|q: Seq<char>| #[trigger]
                    map_of(after).contains_key(q) implies map_of(after)[q] == map_of(before).remove(
                    path@,
                )[q] by {
                    let k = paths.index_of(q);
                    assert(after[k].0@ == q);
                    let k0 = if k < i {
                        k
                    } else {
                        k + 1
                    };
                    assert(before[k0].0@ == q);
                }
                assert(map_of(after) =~= map_of(before).remove(path@));
            }
            self.entries = entries;
        } else {
            proof {
                if paths_of(self.entries@).contains(path@) {
                    let k = paths_of(self.entries@).index_of(path@);
                    assert(self.entries@[k].0@ == path@);
                    lemma_text_lt_irreflexive(path@);
                }
                assert(self@ =~= self@.remove(path@));
            }
        }
    }

    /// The paths in ascending order.
    pub fn keys(&self) -> (keys: Vec<String>)
        ensures
            views(keys@) == self.paths(),
            lists(self.paths(), |p: Seq<char>| self@.contains_key(p)),
    {
        proof {
            use_type_invariant(self);
            lemma_map_of(self.entries@);
        }
        let mut keys: Vec<String> = Vec::new();
        let mut i: usize = 0;
        while i < self.entries.len()
            invariant
                i <= self.entries@.len(),
                views(keys@) =~= self.paths().take(i as int),
            decreases self.entries@.len() - i,
        {
            let ghost before = keys@;
            keys.push(self.entries[i].0.clone());
            assert(views(keys@) =~= views(before).push(self.entries@[i as int].0@));
            i = i + 1;
        }
        assert(self.paths().take(self.entries@.len() as int) =~= self.paths());
        keys
    }

    /// The entries in ascending order of their paths.
    pub fn values(&self) -> (entries: Vec<ManifestEntry>)
        ensures
            entries@.len() == self.paths().len(),
            forall|i: int|
                0 <= i < entries@.len() ==> self@.contains_key(self.paths()[i])
                    && #[trigger] entries@[i]@ == self@[self.paths()[i]],
            lists(self.paths(), |p: Seq<char>| self@.contains_key(p)),
    {
        proof {
            use_type_invariant(self);
            lemma_map_of(self.entries@);
        }
        let mut entries: Vec<ManifestEntry> = Vec::new();
        let mut i: usize = 0;
        while i < self.entries.len()
            invariant
                i <= self.entries@.len(),
                entries@.len() == i,
                forall|j: int| 0 <= j < i ==> #[trigger] entries@[j] == self.entries@[j].1,
            decreases self.entries@.len() - i,
        {
            entries.push(self.entries[i].1.clone());
            i = i + 1;
        }
        proof {
            assert forall|j: int| 0 <= j < entries@.len() implies self@.contains_key(
                self.paths()[j],
            ) && #[trigger] entries@[j]@ == self@[self.paths()[j]] by {
                assert(self.entries@[j].0@ == self.paths()[j]);
            }
        }
        entries
    }

    /// The manifest that a list of entries spells, each under its own path.
    pub fn from_entries(entries: &[ManifestEntry]) -> (m: Manifest)
        ensures
            m@ == keyed(entries@),
    {
        let mut m = Manifest::new();
        let mut i: usize = 0;
        assert(entries@.take(0) =~= Seq::<ManifestEntry>::empty());
        while i < entries.len()
            invariant
                i <= entries@.len(),
                m@ == keyed(entries@.take(i as int)),
            decreases entries@.len() - i,
        {
            let e = entries[i].clone();
            m.insert(e.path.clone(), e);
            assert(entries@.take(i + 1).drop_last() =~= entries@.take(i as int));
            i = i + 1;
        }
        assert(entries@.take(entries@.len() as int) =~= entries@);
        m
    }
}

impl Clone for Manifest {
    fn clone(&self) -> (copy: Manifest)
        ensures
            copy@ == self@,
    {
        proof {
            use_type_invariant(self);
        }
        let mut entries: Vec<(String, ManifestEntry)> = Vec::new();
        let mut i: usize = 0;
        while i < self.entries.len()
            invariant
                i <= self.entries@.len(),
                entries@ =~= self.entries@.take(i as int),
            decreases self.entries@.len() - i,
        {
            let e = &self.entries[i];
            entries.push((e.0.clone(), e.1.clone()));
            i = i + 1;
        }
        assert(entries@ =~= self.entries@);
        Manifest { entries }
    }
}

/// Whether `path` has to be sent: the other side lacks it or has other content.
pub open spec fn differs(
    local: Map<Seq<char>, EntryView>,
    remote: Map<Seq<char>, EntryView>,
    path: Seq<char>,
) -> bool {
    &&& local.contains_key(path)
    &&& !(remote.contains_key(path) && remote[path].hash == local[path].hash)
}

/// Given the local manifest and the remote's, returns `(to_send, to_delete)`:
/// paths whose content differs or is missing remotely, and paths present
/// remotely but gone locally.
pub fn diff(local: &Manifest, remote: &Manifest) -> (out: (Vec<String>, Vec<String>))
    ensures
        lists(views(out.0@), |p: Seq<char>| differs(local@, remote@, p)),
        lists(
            views(out.1@),
            |p: Seq<char>| remote@.contains_key(p) && !local@.contains_key(p),
        ),
{
    let mut to_send: Vec<String> = Vec::new();
    let mut to_delete: Vec<String> = Vec::new();
    let ghost send = |p: Seq<char>| differs(local@, remote@, p);
    let ghost delete = |p: Seq<char>| remote@.contains_key(p) && !local@.contains_key(p);
    let keys = local.keys();
    let ghost all = local.paths();
    proof {
        lemma_lists_start(all, send);
        assert(views(to_send@) =~= Seq::<Seq<char>>::empty());
    }
    let mut i: usize = 0;
    while i < keys.len()
        invariant
            i <= keys@.len(),
            views(keys@) == all,
            lists(all, |p: Seq<char>| local@.contains_key(p)),
            send == (|p: Seq<char>| differs(local@, remote@, p)),
            lists_upto(views(to_send@), all, i as int, send),
        decreases keys@.len() - i,
    {
        let path = &keys[i];
        let ghost before = to_send@;
        assert(views(keys@)[i as int] == path@);
        assert(all.contains(all[i as int]));
        let same = match (local.get(path.as_str()), remote.get(path.as_str())) {
            (Some(l), Some(r)) => l.hash == r.hash,
            _ => false,
        };
        proof {
            lemma_lists_step(views(to_send@), all, i as int, send);
        }
        if !same {
            to_send.push(path.clone());
            assert(views(to_send@) =~= views(before).push(path@));
        }
        i = i + 1;
    }
    assert(all.take(all.len() as int) =~= all);
    let gone = remote.keys();
    let ghost there = remote.paths();
    proof {
        lemma_lists_start(there, delete);
        assert(views(to_delete@) =~= Seq::<Seq<char>>::empty());
    }
    let mut j: usize = 0;
    while j < gone.len()
        invariant
            j <= gone@.len(),
            views(gone@) == there,
            lists(there, |p: Seq<char>| remote@.contains_key(p)),
            delete == (|p: Seq<char>| remote@.contains_key(p) && !local@.contains_key(p)),
            lists_upto(views(to_delete@), there, j as int, delete),
        decreases gone@.len() - j,
    {
        let path = &gone[j];
        let ghost before = to_delete@;
        assert(views(gone@)[j as int] == path@);
        assert(there.contains(there[j as int]));
        proof {
            lemma_lists_step(views(to_delete@), there, j as int, delete);
        }
        if !local.contains_key(path.as_str()) {
            to_delete.push(path.clone());
            assert(views(to_delete@) =~= views(before).push(path@));
        }
        j = j + 1;
    }
    assert(there.take(there.len() as int) =~= there);
    (to_send, to_delete)
}

/// Version-control metadata never syncs, and `.rbuild` is rbuild's own metadata
/// and must never be synced.
pub const ALWAYS_IGNORE: [&'static str; 2] = [".rbuild", ".git"];

/// Whether a relative path is, or lies in, a directory that is never synced, at
/// any depth.
pub open spec fn always_ignored(rel: Seq<char>) -> bool {
    split(rel, '/').contains(".rbuild"@) || split(rel, '/').contains(".git"@)
}

/// The path of a file relative to the root, if it lies at or below it, with
/// `/` on every platform.
pub open spec fn relative(root: Seq<char>, path: Seq<char>) -> Option<Seq<char>> {
    if starts_with(path, root) {
        Some(replaced(rest(path, components(root).len() as int), '\\', '/'))
    } else {
        None
    }
}

/// The path of a file relative to the root.
pub fn rel_path(root: &str, path: &str) -> (rel: Option<String>)
    ensures
        match rel {
            Some(r) => relative(root@, path@) == Some(r@),
            None => relative(root@, path@) is None,
        },
{
    match strip_dir(path, root) {
        Some(tail) => Some(replace_char(tail.as_str(), '\\', '/')),
        None => None,
    }
}

/// Something found while walking a directory tree.
#[derive(Debug)]
pub struct FoundFile {
    pub path: String,
    pub is_file: bool,
    /// The hash of its content.
    pub hash: crate::hash::Hash,
    pub len: u64,
    pub mode: u32,
}

/// The name under which the client lists what it found at `path`, if it does:
/// files below the root, but for those in directories that are never synced.
pub open spec fn listed(root: Seq<char>, path: Seq<char>, is_file: bool) -> Option<Seq<char>> {
    match relative(root, path) {
        Some(rel) => if is_file && components(path) != components(root) && !always_ignored(rel) {
            Some(rel)
        } else {
            None
        },
        None => None,
    }
}

/// The name under which the daemon lists what it found at `path`, if it does:
/// every file of its mirror.
pub open spec fn listed_raw(root: Seq<char>, path: Seq<char>, is_file: bool) -> Option<Seq<char>> {
    if is_file {
        relative(root, path)
    } else {
        None
    }
}

/// Decides whether the client lists what it found, and under which name.
pub fn list_name(root: &str, path: &str, is_file: bool) -> (name: Option<String>)
    ensures
        match name {
            Some(n) => listed(root@, path@, is_file) == Some(n@),
            None => listed(root@, path@, is_file) is None,
        },
{
    if same_path(path, root) || !is_file {
        return None;
    }
    match rel_path(root, path) {
        Some(rel) => {
            let parts = split_at_char(rel.as_str(), '/');
            if holds(parts.as_slice(), ALWAYS_IGNORE[0]) || holds(
                parts.as_slice(),
                ALWAYS_IGNORE[1],
            ) {
                None
            } else {
                Some(rel)
            }
        },
        None => None,
    }
}

/// Decides whether the daemon lists what it found, and under which name.
pub fn list_name_raw(root: &str, path: &str, is_file: bool) -> (name: Option<String>)
    ensures
        match name {
            Some(n) => listed_raw(root@, path@, is_file) == Some(n@),
            None => listed_raw(root@, path@, is_file) is None,
        },
{
    if is_file {
        rel_path(root, path)
    } else {
        None
    }
}

/// The manifest of what was found, with the names that `name` gives.
pub open spec fn scanned(
    name: spec_fn(Seq<char>, bool) -> Option<Seq<char>>,
    found: Seq<FoundFile>,
) -> Map<Seq<char>, EntryView>
    decreases found.len(),
{
    if found.len() == 0 {
        Map::empty()
    } else {
        let before = scanned(name, found.drop_last());
        let f = found.last();
        match name(f.path@, f.is_file) {
            Some(rel) => before.insert(
                rel,
                EntryView { path: rel, hash: f.hash@, len: f.len, mode: f.mode },
            ),
            None => before,
        }
    }
}

/// The client's manifest of `root`, from what a walk with ignore rules found.
pub fn scan_with_ignores(root: &str, found: &[FoundFile]) -> (m: Manifest)
    ensures
        m@ == scanned(|path: Seq<char>, is_file: bool| listed(root@, path, is_file), found@),
{
    let ghost name = |path: Seq<char>, is_file: bool| listed(root@, path, is_file);
    let mut m = Manifest::new();
    let mut i: usize = 0;
    assert(found@.take(0) =~= Seq::<FoundFile>::empty());
    while i < found.len()
        invariant
            i <= found@.len(),
            name == (|path: Seq<char>, is_file: bool| listed(root@, path, is_file)),
            m@ == scanned(name, found@.take(i as int)),
        decreases found@.len() - i,
    {
        let f = &found[i];
        assert(found@.take(i + 1).drop_last() =~= found@.take(i as int));
        if let Some(rel) = list_name(root, f.path.as_str(), f.is_file) {
            m.insert(
                rel.clone(),
                ManifestEntry { path: rel, hash: f.hash, len: f.len, mode: f.mode },
            );
        }
        i = i + 1;
    }
    assert(found@.take(found@.len() as int) =~= found@);
    m
}

/// The daemon's manifest of `root`, from what a plain walk found.
pub fn scan_raw(root: &str, found: &[FoundFile]) -> (m: Manifest)
    ensures
        m@ == scanned(|path: Seq<char>, is_file: bool| listed_raw(root@, path, is_file), found@),
{
    let ghost name = |path: Seq<char>, is_file: bool| listed_raw(root@, path, is_file);
    let mut m = Manifest::new();
    let mut i: usize = 0;
    assert(found@.take(0) =~= Seq::<FoundFile>::empty());
    while i < found.len()
        invariant
            i <= found@.len(),
            name == (|path: Seq<char>, is_file: bool| listed_raw(root@, path, is_file)),
            m@ == scanned(name, found@.take(i as int)),
        decreases found@.len() - i,
    {
        let f = &found[i];
        assert(found@.take(i + 1).drop_last() =~= found@.take(i as int));
        if let Some(rel) = list_name_raw(root, f.path.as_str(), f.is_file) {
            m.insert(
                rel.clone(),
                ManifestEntry { path: rel, hash: f.hash, len: f.len, mode: f.mode },
            );
        }
        i = i + 1;
    }
    assert(found@.take(found@.len() as int) =~= found@);
    m
}

/// Convenience: the content hash of a byte buffer, matching how manifest
/// entries are hashed.
pub fn content_hash(data: &[u8]) -> (hash: crate::hash::Hash)
    ensures
        hash@ == crate::hash::blake3_digest(data@),
{
    crate::hash::Hash::of(data)
}

/// A manifest lists only what its naming rule gives.
proof fn lemma_scanned_names(
    name: spec_fn(Seq<char>, bool) -> Option<Seq<char>>,
    found: Seq<FoundFile>,
    rel: Seq<char>,
)
    requires
        scanned(name, found).contains_key(rel),
    ensures
        exists|i: int|
            0 <= i < found.len() && name((#[trigger] found[i]).path@, found[i].is_file) == Some(
                rel,
            ),
        scanned(name, found)[rel].path == rel,
    decreases found.len(),
{
    let f = found.last();
    let init = found.drop_last();
    if name(f.path@, f.is_file) == Some(rel) {
        assert(found[found.len() - 1] == f);
    } else {
        lemma_scanned_names(name, init, rel);
        let i = choose|i: int|
            0 <= i < init.len() && name((#[trigger] init[i]).path@, init[i].is_file) == Some(rel);
        assert(found[i] == init[i]);
    }
}

/// rbuild's own metadata and version-control metadata never sync: no path of a
/// client's manifest has one of their directories among its components.
pub proof fn law_metadata_never_syncs(root: Seq<char>, found: Seq<FoundFile>, rel: Seq<char>)
    requires
        scanned(|path: Seq<char>, is_file: bool| listed(root, path, is_file), found).contains_key(
            rel,
        ),
    ensures
        !always_ignored(rel),
{
    lemma_scanned_names(|path: Seq<char>, is_file: bool| listed(root, path, is_file), found, rel);
}

/// The daemon sees everything it stored: every file that it found below its
/// root is in its manifest.
pub proof fn law_raw_scan_lists_every_file(root: Seq<char>, found: Seq<FoundFile>, i: int)
    requires
        0 <= i < found.len(),
        found[i].is_file,
        starts_with(found[i].path@, root),
    ensures
        scanned(
            |path: Seq<char>, is_file: bool| listed_raw(root, path, is_file),
            found,
        ).contains_key(relative(root, found[i].path@)->0),
    decreases found.len(),
{
    if i < found.len() - 1 {
        assert(found.drop_last()[i] == found[i]);
        law_raw_scan_lists_every_file(root, found.drop_last(), i);
    }
}

/// The last of the files that get a name decides the entry under it.
proof fn lemma_scanned_last(
    name: spec_fn(Seq<char>, bool) -> Option<Seq<char>>,
    found: Seq<FoundFile>,
    i: int,
    rel: Seq<char>,
)
    requires
        0 <= i < found.len(),
        name(found[i].path@, found[i].is_file) == Some(rel),
        forall|j: int|
            i < j < found.len() ==> name((#[trigger] found[j]).path@, found[j].is_file) != Some(rel),
    ensures
        scanned(name, found).contains_key(rel),
        scanned(name, found)[rel] == (EntryView {
            path: rel,
            hash: found[i].hash@,
            len: found[i].len,
            mode: found[i].mode,
        }),
    decreases found.len(),
{
    let init = found.drop_last();
    if i < found.len() - 1 {
        assert(name(found[found.len() - 1].path@, found[found.len() - 1].is_file) != Some(rel));
        assert forall|j: int| i < j < init.len() implies name(
            (#[trigger] init[j]).path@,
            init[j].is_file,
        ) != Some(rel) by {
            assert(init[j] == found[j]);
        }
        lemma_scanned_last(name, init, i, rel);
    }
}

/// Every entry comes from the last of the files that get its name.
proof fn lemma_scanned_from(
    name: spec_fn(Seq<char>, bool) -> Option<Seq<char>>,
    found: Seq<FoundFile>,
    rel: Seq<char>,
) -> (i: int)
    requires
        scanned(name, found).contains_key(rel),
    ensures
        0 <= i < found.len(),
        name(found[i].path@, found[i].is_file) == Some(rel),
        scanned(name, found)[rel] == (EntryView {
            path: rel,
            hash: found[i].hash@,
            len: found[i].len,
            mode: found[i].mode,
        }),
    decreases found.len(),
{
    let init = found.drop_last();
    if name(found.last().path@, found.last().is_file) == Some(rel) {
        found.len() - 1
    } else {
        let i = lemma_scanned_from(name, init, rel);
        assert(init[i] == found[i]);
        i
    }
}

/// The client's scan leaves no file out: a regular file below the root, at any
/// depth, is listed under its path from the root, with its own hash, length and
/// mode, unless one of that path's components is `.rbuild` or `.git`. Where the
/// path was found more than once, the last one counts.
pub proof fn law_client_scan_is_complete(
    root: Seq<char>,
    rel: Seq<char>,
    key: Seq<char>,
    found: Seq<FoundFile>,
    i: int,
)
    requires
        root.len() > 0,
        root.last() != '/',
        forall|k: int|
            0 <= k < split(rel, '/').len() ==> (#[trigger] split(rel, '/')[k]).len() > 0 && split(
                rel,
                '/',
            )[k] != "."@,
        // The key is the path, with `/` for every `\`.
        key.len() == rel.len(),
        forall|k: int|
            0 <= k < rel.len() ==> #[trigger] key[k] == if rel[k] == '\\' {
                '/'
            } else {
                rel[k]
            },
        forall|k: int|
            0 <= k < split(key, '/').len() ==> #[trigger] split(key, '/')[k] != ".rbuild"@ && split(
                key,
                '/',
            )[k] != ".git"@,
        0 <= i < found.len(),
        found[i].is_file,
        found[i].path@ == root + seq!['/'] + rel,
        forall|j: int|
            i < j < found.len() ==> !(#[trigger] found[j]).is_file || relative(root, found[j].path@)
                != Some(key),
    ensures
        ({
            let m = scanned(|path: Seq<char>, is_file: bool| listed(root, path, is_file), found);
            &&& m.contains_key(key)
            &&& m[key].path == key
            &&& m[key].hash == found[i].hash@
            &&& m[key].len == found[i].len
            &&& m[key].mode == found[i].mode
        }),
{
    let name = |path: Seq<char>, is_file: bool| listed(root, path, is_file);
    crate::path::law_file_below_a_directory(root, rel);
    assert(replaced(rel, '\\', '/') =~= key);
    assert(!always_ignored(key)) by {
        let parts = split(key, '/');
        if parts.contains(".rbuild"@) {
            let k = parts.index_of(".rbuild"@);
            assert(parts[k] == ".rbuild"@);
        }
        if parts.contains(".git"@) {
            let k = parts.index_of(".git"@);
            assert(parts[k] == ".git"@);
        }
    }
    lemma_scanned_last(name, found, i, key);
}

/// The same for a root written in any way: what counts is that the file's
/// components go on where the root's end.
pub proof fn law_client_scan_goes_by_components(root: Seq<char>, found: Seq<FoundFile>, i: int)
    requires
        0 <= i < found.len(),
        found[i].is_file,
        components(found[i].path@).len() > components(root).len(),
        components(found[i].path@).take(components(root).len() as int) == components(root),
    ensures
        ({
            let rel = replaced(
                rest(found[i].path@, components(root).len() as int),
                '\\',
                '/',
            );
            let m = scanned(|path: Seq<char>, is_file: bool| listed(root, path, is_file), found);
            &&& m.contains_key(rel) <==> !(exists|k: int|
                0 <= k < split(rel, '/').len() && (#[trigger] split(rel, '/')[k] == ".rbuild"@
                    || split(rel, '/')[k] == ".git"@))
            &&& m.contains_key(rel) && (forall|j: int|
                i < j < found.len() ==> !(#[trigger] found[j]).is_file || relative(
                    root,
                    found[j].path@,
                ) != Some(rel)) ==> m[rel].path == rel && m[rel].hash == found[i].hash@
                && m[rel].len == found[i].len && m[rel].mode == found[i].mode
        }),
    decreases found.len(),
{
    let name = |path: Seq<char>, is_file: bool| listed(root, path, is_file);
    let rel = replaced(rest(found[i].path@, components(root).len() as int), '\\', '/');
    let parts = split(rel, '/');
    assert(always_ignored(rel) <==> (exists|k: int|
        0 <= k < parts.len() && (#[trigger] parts[k] == ".rbuild"@ || parts[k] == ".git"@))) by {
        if parts.contains(".rbuild"@) {
            let k = parts.index_of(".rbuild"@);
            assert(parts[k] == ".rbuild"@);
        }
        if parts.contains(".git"@) {
            let k = parts.index_of(".git"@);
            assert(parts[k] == ".git"@);
        }
    }
    assert(starts_with(found[i].path@, root));
    if always_ignored(rel) {
        if scanned(name, found).contains_key(rel) {
            law_metadata_never_syncs(root, found, rel);
        }
    } else {
        lemma_scanned_lists(name, found, i, rel);
        if forall|j: int|
            i < j < found.len() ==> !(#[trigger] found[j]).is_file || relative(
                root,
                found[j].path@,
            ) != Some(rel) {
            lemma_scanned_last(name, found, i, rel);
        }
    }
}

proof fn lemma_scanned_lists(
    name: spec_fn(Seq<char>, bool) -> Option<Seq<char>>,
    found: Seq<FoundFile>,
    i: int,
    rel: Seq<char>,
)
    requires
        0 <= i < found.len(),
        name(found[i].path@, found[i].is_file) == Some(rel),
    ensures
        scanned(name, found).contains_key(rel),
    decreases found.len(),
{
    if i < found.len() - 1 {
        assert(found.drop_last()[i] == found[i]);
        lemma_scanned_lists(name, found.drop_last(), i, rel);
    }
}

/// The client's scan makes nothing up: every entry is that of a regular file
/// which was found strictly below the root, under its path from there, and no
/// component of that path is `.rbuild` or `.git`.
pub proof fn law_client_scan_is_sound(root: Seq<char>, found: Seq<FoundFile>, rel: Seq<char>)
    requires
        scanned(|path: Seq<char>, is_file: bool| listed(root, path, is_file), found).contains_key(
            rel,
        ),
    ensures
        ({
            let e = scanned(
                |path: Seq<char>, is_file: bool| listed(root, path, is_file),
                found,
            )[rel];
            let n = components(root).len() as int;
            exists|i: int|
                {
                    &&& 0 <= i < found.len()
                    &&& (#[trigger] found[i]).is_file
                    &&& components(found[i].path@).len() >= n
                    &&& components(found[i].path@) != components(root)
                    &&& components(found[i].path@).take(n) == components(root)
                    &&& rel == replaced(rest(found[i].path@, n), '\\', '/')
                    &&& e.path == rel
                    &&& e.hash == found[i].hash@
                    &&& e.len == found[i].len
                    &&& e.mode == found[i].mode
                }
        }),
        forall|k: int|
            0 <= k < split(rel, '/').len() ==> #[trigger] split(rel, '/')[k] != ".rbuild"@ && split(
                rel,
                '/',
            )[k] != ".git"@,
{
    let name = |path: Seq<char>, is_file: bool| listed(root, path, is_file);
    let i = lemma_scanned_from(name, found, rel);
    assert(found[i].is_file);
    let parts = split(rel, '/');
    assert forall|k: int| 0 <= k < parts.len() implies #[trigger] parts[k] != ".rbuild"@ && parts[k]
        != ".git"@ by {
        assert(parts.contains(parts[k]));
    }
}

/// The daemon's scan leaves no file out, whatever it is called: a regular file
/// below the root, at any depth, is listed under its path from the root, with its
/// own hash, length and mode.
pub proof fn law_raw_scan_is_complete(
    root: Seq<char>,
    rel: Seq<char>,
    key: Seq<char>,
    found: Seq<FoundFile>,
    i: int,
)
    requires
        root.len() > 0,
        root.last() != '/',
        forall|k: int|
            0 <= k < split(rel, '/').len() ==> (#[trigger] split(rel, '/')[k]).len() > 0 && split(
                rel,
                '/',
            )[k] != "."@,
        key.len() == rel.len(),
        forall|k: int|
            0 <= k < rel.len() ==> #[trigger] key[k] == if rel[k] == '\\' {
                '/'
            } else {
                rel[k]
            },
        0 <= i < found.len(),
        found[i].is_file,
        found[i].path@ == root + seq!['/'] + rel,
        forall|j: int|
            i < j < found.len() ==> !(#[trigger] found[j]).is_file || relative(root, found[j].path@)
                != Some(key),
    ensures
        ({
            let m = scanned(|path: Seq<char>, is_file: bool| listed_raw(root, path, is_file), found);
            &&& m.contains_key(key)
            &&& m[key].path == key
            &&& m[key].hash == found[i].hash@
            &&& m[key].len == found[i].len
            &&& m[key].mode == found[i].mode
        }),
{
    let name = |path: Seq<char>, is_file: bool| listed_raw(root, path, is_file);
    crate::path::law_file_below_a_directory(root, rel);
    assert(replaced(rel, '\\', '/') =~= key);
    lemma_scanned_last(name, found, i, key);
}

/// The daemon's scan makes nothing up: every entry is that of a regular file
/// which was found at or below the root.
pub proof fn law_raw_scan_is_sound(root: Seq<char>, found: Seq<FoundFile>, rel: Seq<char>)
    requires
        scanned(
            |path: Seq<char>, is_file: bool| listed_raw(root, path, is_file),
            found,
        ).contains_key(rel),
    ensures
        ({
            let e = scanned(
                |path: Seq<char>, is_file: bool| listed_raw(root, path, is_file),
                found,
            )[rel];
            let n = components(root).len() as int;
            exists|i: int|
                {
                    &&& 0 <= i < found.len()
                    &&& (#[trigger] found[i]).is_file
                    &&& components(found[i].path@).len() >= n
                    &&& components(found[i].path@).take(n) == components(root)
                    &&& rel == replaced(rest(found[i].path@, n), '\\', '/')
                    &&& e.path == rel
                    &&& e.hash == found[i].hash@
                    &&& e.len == found[i].len
                    &&& e.mode == found[i].mode
                }
        }),
{
    let name = |path: Seq<char>, is_file: bool| listed_raw(root, path, is_file);
    let i = lemma_scanned_from(name, found, rel);
    assert(found[i].is_file);
}

/// Sending what differs and deleting what is gone makes the other side hold the
/// same files with the same content.
pub proof fn law_diff_levels_the_two_sides(
    local: Map<Seq<char>, EntryView>,
    remote: Map<Seq<char>, EntryView>,
    to_send: Seq<Seq<char>>,
    to_delete: Seq<Seq<char>>,
    path: Seq<char>,
)
    requires
        lists(to_send, |p: Seq<char>| differs(local, remote, p)),
        lists(to_delete, |p: Seq<char>| remote.contains_key(p) && !local.contains_key(p)),
    ensures
        to_send.contains(path) ==> local.contains_key(path),
        to_delete.contains(path) ==> remote.contains_key(path) && !local.contains_key(path),
        // What the other side holds once the files are sent and deleted.
        ({
            let there = to_send.contains(path) || (remote.contains_key(path)
                && !to_delete.contains(path));
            let hash = if to_send.contains(path) {
                local[path].hash
            } else {
                remote[path].hash
            };
            &&& there <==> local.contains_key(path)
            &&& there ==> hash == local[path].hash
        }),
        // Nothing is sent in vain.
        remote.contains_key(path) && local.contains_key(path) && remote[path].hash
            == local[path].hash ==> !to_send.contains(path),
{
    assert(to_send.contains(path) <==> differs(local, remote, path));
    assert(to_delete.contains(path) <==> remote.contains_key(path) && !local.contains_key(path));
}

/// A list of entries is taken one by one, each under its own path; a later entry of
/// the same path replaces an earlier one.
pub proof fn law_entries_are_keyed_one_by_one(entries: Seq<ManifestEntry>, entry: ManifestEntry)
    ensures
        keyed(Seq::empty()) == Map::<Seq<char>, EntryView>::empty(),
        keyed(entries.push(entry)) == keyed(entries).insert(entry.path@, entry@),
{
    assert(entries.push(entry).drop_last() =~= entries);
}

} // verus!
