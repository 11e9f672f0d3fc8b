//! Paths as text with `/` between their components.
//!
//! A path of the platform's own is brought into this form by [`portable`]: on
//! Windows the separators become `/`, and a drive letter is written in
//! uppercase, since drives are told apart without regard to case.

use vstd::prelude::*;
use vstd::string::StringExecFns;

use crate::text::{
    from_chars, has_prefix, lemma_split_concat, lemma_split_not_empty, lemma_split_parts,
    lemma_split_single, replace_char, replaced, same, split, split_at_char, to_chars, views,
};

verus! {

/// `dir` with `name` appended: an absolute `name` replaces it.
pub open spec fn extended(dir: Seq<char>, name: Seq<char>) -> Seq<char> {
    if name.len() > 0 && name[0] == '/' {
        name
    } else if dir.len() == 0 || dir.last() == '/' {
        dir + name
    } else {
        dir.push('/') + name
    }
}

/// Appends `name` to `dir`.
pub fn extend(dir: &str, name: &str) -> (path: String)
    ensures
        path@ == extended(dir@, name@),
{
    let d = to_chars(dir);
    let n = to_chars(name);
    if n.len() > 0 && n[0] == '/' {
        name.to_owned()
    } else {
        let mut path = dir.to_owned();
        if d.len() > 0 && d[d.len() - 1] != '/' {
            path.push('/');
        }
        path.append(name);
        path
    }
}

/// Whether a part of a relative path names something: an empty part and `.`
/// do not.
pub open spec fn names(part: Seq<char>) -> bool {
    part.len() > 0 && part != "."@
}

/// The path below `root` that the parts name.
pub open spec fn below(root: Seq<char>, parts: Seq<Seq<char>>) -> Seq<char>
    decreases parts.len(),
{
    if parts.len() == 0 {
        root
    } else {
        let dir = below(root, parts.drop_last());
        if names(parts.last()) {
            extended(dir, parts.last())
        } else {
            dir
        }
    }
}

/// Whether a relative path steps upwards anywhere.
pub open spec fn escapes(rel: Seq<char>) -> bool {
    split(rel, '/').contains(".."@)
}

/// Where a relative path leads below `root`; `None` for one that could leave
/// it.
pub open spec fn inside(root: Seq<char>, rel: Seq<char>) -> Option<Seq<char>> {
    if escapes(rel) {
        None
    } else {
        Some(below(root, split(rel, '/')))
    }
}

/// Joins a relative path to `root`, refusing anything that would escape it.
pub fn safe_join(root: &str, rel: &str) -> (path: Option<String>)
    ensures
        match path {
            Some(p) => inside(root@, rel@) == Some(p@),
            None => inside(root@, rel@) is None,
        },
{
    let parts = split_at_char(rel, '/');
    let ghost all = split(rel@, '/');
    let mut out = root.to_owned();
    let mut i: usize = 0;
    while i < parts.len()
        invariant
            i <= parts@.len(),
            views(parts@) == all,
            all == split(rel@, '/'),
            out@ == below(root@, all.take(i as int)),
            forall|j: int| 0 <= j < i ==> #[trigger] all[j] != ".."@,
        decreases parts@.len() - i,
    {
        let part = parts[i].as_str();
        assert(all[i as int] == part@);
        assert(all.take(i + 1).drop_last() =~= all.take(i as int));
        if same(part, "..") {
            return None;
        }
        if !part.is_empty() && !same(part, ".") {
            out = extend(out.as_str(), part);
        }
        i = i + 1;
    }
    assert(all.take(all.len() as int) =~= all);
    Some(out)
}

/// `path` is `root` itself or lies below it: the text of `root` is followed by
/// a separator (unless it ends in one) and by components none of which steps
/// upwards.
pub open spec fn stays_under(root: Seq<char>, path: Seq<char>) -> bool {
    &&& has_prefix(path, root)
    &&& !split(path.skip(root.len() as int), '/').contains(".."@)
    &&& path == root || root.len() == 0 || root.last() == '/' || path[root.len() as int] == '/'
}

proof fn lemma_below(root: Seq<char>, parts: Seq<Seq<char>>)
    requires
        forall|i: int| 0 <= i < parts.len() ==> #[trigger] parts[i] != ".."@,
        forall|i: int| 0 <= i < parts.len() ==> !(#[trigger] parts[i]).contains('/'),
    ensures
        stays_under(root, below(root, parts)),
    decreases parts.len(),
{
    reveal_strlit("..");
    let path = below(root, parts);
    let n = root.len() as int;
    if parts.len() == 0 {
        assert(path.take(n) =~= root);
        assert(path.skip(n) =~= Seq::<char>::empty());
        let only = split(Seq::<char>::empty(), '/');
        assert(only =~= seq![Seq::<char>::empty()]);
        assert(only[0].len() == 0);
    } else {
        let init = parts.drop_last();
        assert forall|i: int| 0 <= i < init.len() implies #[trigger] init[i] != ".."@ by {
            assert(parts[i] != ".."@);
        }
        assert forall|i: int| 0 <= i < init.len() implies !(#[trigger] init[i]).contains('/') by {
            assert(!parts[i].contains('/'));
        }
        lemma_below(root, init);
        let dir = below(root, init);
        let name = parts.last();
        assert(name == parts[parts.len() - 1]);
        if names(name) {
            assert(name[0] != '/') by {
                assert(name.contains(name[0]));
            }
            assert(path.take(n) =~= dir.take(n));
            let tail = dir.skip(n);
            lemma_split_not_empty(tail, '/');
            lemma_split_single(name, '/');
            if dir.len() == 0 || dir.last() == '/' {
                assert(path.skip(n) =~= tail + name);
                if tail.len() == 0 {
                    assert(path.skip(n) =~= name);
                    assert(seq![name].contains(".."@) ==> seq![name][0] == ".."@);
                } else {
                    let stem = tail.drop_last();
                    assert(tail.last() == dir.last());
                    assert(path.skip(n) =~= stem + seq!['/'] + name);
                    lemma_split_concat(stem, '/', name);
                    assert(tail =~= stem + seq!['/'] + Seq::<char>::empty());
                    lemma_split_concat(stem, '/', Seq::empty());
                    lemma_no_dotdot(split(stem, '/'), split(Seq::empty(), '/'), seq![name]);
                }
            } else {
                assert(path.skip(n) =~= tail + seq!['/'] + name);
                lemma_split_concat(tail, '/', name);
                assert(split(tail, '/') + Seq::<Seq<char>>::empty() =~= split(tail, '/'));
                lemma_no_dotdot(split(tail, '/'), Seq::empty(), seq![name]);
            }
        }
    }
}

proof fn lemma_no_dotdot(a: Seq<Seq<char>>, b: Seq<Seq<char>>, c: Seq<Seq<char>>)
    requires
        !(a + b).contains(".."@),
        forall|i: int| 0 <= i < c.len() ==> c[i] != ".."@,
    ensures
        !(a + c).contains(".."@),
{
    if (a + c).contains(".."@) {
        let k = (a + c).index_of(".."@);
        if k < a.len() {
            assert((a + b)[k] == ".."@);
        } else {
            assert(c[k - a.len()] == ".."@);
        }
    }
}

/// Whatever relative path the other side sends, what it leads to stays inside
/// the workspace.
pub proof fn law_safe_join_stays_inside(root: Seq<char>, rel: Seq<char>)
    requires
        inside(root, rel) is Some,
    ensures
        stays_under(root, inside(root, rel)->0),
{
    let parts = split(rel, '/');
    lemma_split_parts(rel, '/');
    assert forall|i: int| 0 <= i < parts.len() implies #[trigger] parts[i] != ".."@ by {
        assert(parts.contains(parts[i]));
    }
    lemma_below(root, parts);
}

/// Where the part that begins at `i` ends: at the next separator, or at the end
/// of the path.
pub open spec fn part_end(p: Seq<char>, i: int) -> int
    decreases p.len() - i,
{
    if i >= p.len() || p[i] == '/' {
        i
    } else {
        part_end(p, i + 1)
    }
}

proof fn lemma_part_end(p: Seq<char>, i: int)
    requires
        0 <= i <= p.len(),
    ensures
        i <= part_end(p, i) <= p.len(),
        part_end(p, i) < p.len() ==> p[part_end(p, i)] == '/',
        forall|j: int| i <= j < part_end(p, i) ==> p[j] != '/',
    decreases p.len() - i,
{
    if i < p.len() && p[i] != '/' {
        lemma_part_end(p, i + 1);
    }
}

/// Where the parts that name something stand, from `i` on.
pub open spec fn spans_from(p: Seq<char>, i: int) -> Seq<(int, int)>
    decreases p.len() + 1 - i,
{
    if i < 0 || i >= p.len() {
        Seq::empty()
    } else {
        let end = part_end(p, i);
        if end < i || end > p.len() {
            Seq::empty()
        } else if names(p.subrange(i, end)) {
            seq![(i, end)] + spans_from(p, end + 1)
        } else {
            spans_from(p, end + 1)
        }
    }
}

/// Where a path's first component stands if it is the root `/` or a leading
/// `.`.
pub open spec fn lead(p: Seq<char>) -> Seq<(int, int)> {
    if p.len() > 0 && (p[0] == '/' || (p[0] == '.' && part_end(p, 0) == 1)) {
        seq![(0int, 1int)]
    } else {
        Seq::empty()
    }
}

/// Where a path's components stand. The root counts as one, and so does a
/// leading `.`; repeated separators and a `.` elsewhere do not.
pub open spec fn spans(p: Seq<char>) -> Seq<(int, int)> {
    lead(p) + spans_from(p, 0)
}

/// A path's components.
pub open spec fn components(p: Seq<char>) -> Seq<Seq<char>> {
    spans(p).map_values(|s: (int, int)| p.subrange(s.0, s.1))
}

/// Whether `p` is `dir` or lies below it, component by component.
pub open spec fn starts_with(p: Seq<char>, dir: Seq<char>) -> bool {
    let n = components(dir).len() as int;
    n <= components(p).len() && components(p).take(n) == components(dir)
}

/// What is left of a path after its first `k` components, without separators
/// around it.
pub open spec fn rest(p: Seq<char>, k: int) -> Seq<char> {
    if k >= spans(p).len() {
        Seq::empty()
    } else {
        p.subrange(
            if k == 0 {
                0
            } else {
                spans(p)[k].0
            },
            spans(p).last().1,
        )
    }
}

/// A path's last component, unless that is the root, `.` or `..`.
pub open spec fn file_name(p: Seq<char>) -> Option<Seq<char>> {
    let all = components(p);
    if all.len() == 0 || all.last() == "/"@ || all.last() == "."@ || all.last() == ".."@ {
        None
    } else {
        Some(all.last())
    }
}

proof fn lemma_spans_from(p: Seq<char>, i: int)
    requires
        0 <= i <= p.len() + 1,
    ensures
        forall|k: int|
            0 <= k < spans_from(p, i).len() ==> i <= (#[trigger] spans_from(p, i)[k]).0
                < spans_from(p, i)[k].1 <= p.len(),
        forall|k: int, m: int|
            0 <= k < m < spans_from(p, i).len() ==> (#[trigger] spans_from(p, i)[k]).1 < (
            #[trigger] spans_from(p, i)[m]).0,
    decreases p.len() + 1 - i,
{
    if i < p.len() {
        let end = part_end(p, i);
        lemma_part_end(p, i);
        lemma_spans_from(p, end + 1);
        let later = spans_from(p, end + 1);
        if names(p.subrange(i, end)) {
            assert forall|k: int, m: int| 0 <= k < m < spans_from(p, i).len() implies (
            #[trigger] spans_from(p, i)[k]).1 < (#[trigger] spans_from(p, i)[m]).0 by {
                assert(spans_from(p, i)[m] == later[m - 1]);
                if k > 0 {
                    assert(spans_from(p, i)[k] == later[k - 1]);
                }
            }
            assert forall|k: int| 0 <= k < spans_from(p, i).len() implies i <= (
            #[trigger] spans_from(p, i)[k]).0 < spans_from(p, i)[k].1 <= p.len() by {
                if k > 0 {
                    assert(spans_from(p, i)[k] == later[k - 1]);
                }
            }
        }
    }
}

pub proof fn lemma_spans(p: Seq<char>)
    ensures
        forall|k: int|
            0 <= k < spans(p).len() ==> 0 <= (#[trigger] spans(p)[k]).0 < spans(p)[k].1 <= p.len(),
        forall|k: int, m: int|
            0 <= k < m < spans(p).len() ==> (#[trigger] spans(p)[k]).1 <= (#[trigger] spans(
                p,
            )[m]).0,
{
    lemma_spans_from(p, 0);
    if lead(p).len() > 0 {
        let body = spans_from(p, 0);
        assert(body == spans_from(p, 1) || body == spans_from(p, 2)) by {
            lemma_part_end(p, 0);
            if p[0] == '/' {
                assert(part_end(p, 0) == 0);
                assert(p.subrange(0, 0).len() == 0);
            } else {
                reveal_strlit(".");
                assert(p.subrange(0, 1) =~= "."@);
            }
        }
        lemma_spans_from(p, 1);
        lemma_spans_from(p, 2);
        assert forall|k: int, m: int| 0 <= k < m < spans(p).len() implies (#[trigger] spans(
            p,
        )[k]).1 <= (#[trigger] spans(p)[m]).0 by {
            assert(spans(p)[m] == body[m - 1]);
            if k > 0 {
                assert(spans(p)[k] == body[k - 1]);
            }
        }
        assert forall|k: int| 0 <= k < spans(p).len() implies 0 <= (#[trigger] spans(p)[k]).0
            < spans(p)[k].1 <= p.len() by {
            if k > 0 {
                assert(spans(p)[k] == body[k - 1]);
            }
        }
    } else {
        assert(spans(p) =~= spans_from(p, 0));
    }
}

/// Spans as mathematical pairs.
pub open spec fn as_pairs(list: Seq<(usize, usize)>) -> Seq<(int, int)> {
    list.map_values(|s: (usize, usize)| (s.0 as int, s.1 as int))
}

fn find_end(p: &[char], i: usize) -> (end: usize)
    requires
        i <= p@.len(),
    ensures
        end == part_end(p@, i as int),
        i <= end <= p@.len(),
{
    let mut end = i;
    while end < p.len() && p[end] != '/'
        invariant
            i <= end <= p@.len(),
            part_end(p@, i as int) == part_end(p@, end as int),
        decreases p@.len() - end,
    {
        end = end + 1;
    }
    end
}

fn find_spans(p: &[char]) -> (list: Vec<(usize, usize)>)
    ensures
        as_pairs(list@) == spans(p@),
{
    let mut list: Vec<(usize, usize)> = Vec::new();
    if p.len() > 0 && (p[0] == '/' || (p[0] == '.' && find_end(p, 0) == 1)) {
        list.push((0, 1));
    }
    assert(as_pairs(list@) =~= lead(p@));
    let mut i: usize = 0;
    assert(as_pairs(list@) + spans_from(p@, 0) =~= spans(p@));
    while i < p.len()
        invariant
            i <= p@.len(),
            as_pairs(list@) + spans_from(p@, i as int) == spans(p@),
        decreases p@.len() - i,
    {
        let end = find_end(p, i);
        let ghost before = as_pairs(list@);
        let ghost later = spans_from(p@, end + 1);
        proof {
            reveal_strlit(".");
            assert(p@.subrange(i as int, end as int).len() == end - i);
            if end - i == 1 && p@[i as int] == '.' {
                assert(p@.subrange(i as int, end as int) =~= "."@);
            } else if end - i == 1 {
                assert(p@.subrange(i as int, end as int)[0] != '.');
            }
        }
        if end > i && !(end - i == 1 && p[i] == '.') {
            list.push((i, end));
            assert(as_pairs(list@) =~= before.push((i as int, end as int)));
            assert(before + (seq![(i as int, end as int)] + later) =~= before.push(
                (i as int, end as int),
            ) + later);
        }
        if end == p.len() {
            assert(later =~= Seq::<(int, int)>::empty());
            assert(as_pairs(list@) =~= spans(p@));
            return list;
        }
        i = end + 1;
    }
    assert(as_pairs(list@) =~= spans(p@));
    list
}

/// A path's components.
pub fn split_components(p: &str) -> (list: Vec<String>)
    ensures
        views(list@) == components(p@),
{
    let x = to_chars(p);
    let found = find_spans(&x);
    let mut list: Vec<String> = Vec::new();
    let mut i: usize = 0;
    proof {
        lemma_spans(p@);
    }
    while i < found.len()
        invariant
            i <= found@.len(),
            x@ == p@,
            as_pairs(found@) == spans(p@),
            forall|k: int|
                0 <= k < spans(p@).len() ==> 0 <= (#[trigger] spans(p@)[k]).0 < spans(p@)[k].1
                    <= p@.len(),
            views(list@) =~= components(p@).take(i as int),
        decreases found@.len() - i,
    {
        let (start, end) = found[i];
        let ghost before = views(list@);
        assert(as_pairs(found@)[i as int] == (start as int, end as int));
        assert(spans(p@)[i as int] == (start as int, end as int));
        list.push(from_chars(&x[start..end]));
        assert(views(list@) =~= before.push(components(p@)[i as int]));
        i = i + 1;
    }
    assert(components(p@).take(found@.len() as int) =~= components(p@));
    list
}

/// Whether `list` begins with `first`, text by text.
fn begins(list: &[String], first: &[String]) -> (yes: bool)
    ensures
        yes == (first@.len() <= list@.len() && views(list@).take(first@.len() as int) == views(
            first@,
        )),
{
    if first.len() > list.len() {
        return false;
    }
    let mut i: usize = 0;
    while i < first.len()
        invariant
            i <= first@.len() <= list@.len(),
            forall|j: int| 0 <= j < i ==> (#[trigger] list@[j])@ == first@[j]@,
        decreases first@.len() - i,
    {
        if !same(list[i].as_str(), first[i].as_str()) {
            assert(views(list@).take(first@.len() as int)[i as int] != views(first@)[i as int]);
            return false;
        }
        i = i + 1;
    }
    assert(views(list@).take(first@.len() as int) =~= views(first@));
    true
}

/// Whether `p` is `dir` or lies below it.
pub fn is_below(p: &str, dir: &str) -> (yes: bool)
    ensures
        yes == starts_with(p@, dir@),
{
    let a = split_components(p);
    let b = split_components(dir);
    assert(components(p@).len() == a@.len());
    assert(components(dir@).len() == b@.len());
    begins(a.as_slice(), b.as_slice())
}

/// Whether two paths have the same components.
pub fn same_path(a: &str, b: &str) -> (yes: bool)
    ensures
        yes == (components(a@) == components(b@)),
{
    let x = split_components(a);
    let y = split_components(b);
    assert(components(a@).len() == x@.len());
    assert(components(b@).len() == y@.len());
    proof {
        if x@.len() == y@.len() {
            assert(views(x@).take(y@.len() as int) =~= views(x@));
        }
    }
    x.len() == y.len() && begins(x.as_slice(), y.as_slice())
}

/// What of `p` lies below `dir`.
pub fn strip_dir(p: &str, dir: &str) -> (tail: Option<String>)
    ensures
        match tail {
            Some(t) => starts_with(p@, dir@) && t@ == rest(p@, components(dir@).len() as int),
            None => !starts_with(p@, dir@),
        },
{
    if !is_below(p, dir) {
        return None;
    }
    let x = to_chars(p);
    let found = find_spans(&x);
    let k = split_components(dir).len();
    assert(components(dir@).len() == k);
    assert(spans(p@).len() == found@.len());
    proof {
        lemma_spans(p@);
    }
    if k >= found.len() {
        let none = String::new();
        assert(none@ =~= Seq::<char>::empty());
        Some(none)
    } else {
        let start = if k == 0 {
            0
        } else {
            found[k].0
        };
        let end = found[found.len() - 1].1;
        assert(as_pairs(found@)[k as int] == spans(p@)[k as int]);
        assert(as_pairs(found@)[found@.len() - 1] == spans(p@)[found@.len() - 1]);
        Some(from_chars(&x[start..end]))
    }
}

/// A path's own name: its last component, unless that is the root, `.` or
/// `..`.
pub fn own_name(p: &str) -> (name: Option<String>)
    ensures
        match name {
            Some(n) => file_name(p@) == Some(n@),
            None => file_name(p@) is None,
        },
{
    let list = split_components(p);
    assert(components(p@).len() == list@.len());
    if list.len() == 0 {
        return None;
    }
    let last = list[list.len() - 1].clone();
    assert(components(p@).last() == last@);
    if same(last.as_str(), "/") || same(last.as_str(), ".") || same(last.as_str(), "..") {
        None
    } else {
        Some(last)
    }
}

spec fn moved(list: Seq<(int, int)>, by: int) -> Seq<(int, int)> {
    list.map_values(|s: (int, int)| (s.0 + by, s.1 + by))
}

proof fn lemma_part_end_skip(p: Seq<char>, s: int, i: int)
    requires
        0 <= s <= p.len(),
        0 <= i <= p.len() - s,
    ensures
        part_end(p.skip(s), i) + s == part_end(p, s + i),
    decreases p.len() - s - i,
{
    if i < p.len() - s && p[s + i] != '/' {
        lemma_part_end_skip(p, s, i + 1);
    }
}

proof fn lemma_spans_from_skip(p: Seq<char>, s: int, i: int)
    requires
        0 <= s <= p.len(),
        0 <= i <= p.len() - s + 1,
    ensures
        moved(spans_from(p.skip(s), i), s) == spans_from(p, s + i),
    decreases p.len() - s + 1 - i,
{
    let q = p.skip(s);
    if i < q.len() {
        lemma_part_end_skip(p, s, i);
        lemma_part_end(p, s + i);
        let end = part_end(q, i);
        lemma_spans_from_skip(p, s, end + 1);
        assert(q.subrange(i, end) =~= p.subrange(s + i, s + end));
        if names(q.subrange(i, end)) {
            let later = spans_from(q, end + 1);
            assert(moved(seq![(i, end)] + later, s) =~= seq![(s + i, s + end)] + moved(later, s));
        }
    } else {
        assert(moved(spans_from(q, i), s) =~= Seq::<(int, int)>::empty());
    }
}

proof fn lemma_part_end_take(p: Seq<char>, e: int, i: int)
    requires
        0 <= i <= e <= p.len(),
        part_end(p, i) <= e,
    ensures
        part_end(p.take(e), i) == part_end(p, i),
    decreases p.len() - i,
{
    if i < e && p[i] != '/' {
        lemma_part_end_take(p, e, i + 1);
    } else if i == e {
        lemma_part_end(p, i);
    }
}

proof fn lemma_spans_from_take(p: Seq<char>, e: int, i: int)
    requires
        0 <= i,
        spans_from(p, i).len() > 0,
        spans_from(p, i).last().1 == e,
    ensures
        spans_from(p.take(e), i) == spans_from(p, i),
    decreases p.len() - i,
{
    let q = p.take(e);
    let end = part_end(p, i);
    lemma_part_end(p, i);
    lemma_spans_from(p, i);
    let all = spans_from(p, i);
    assert(all[all.len() - 1].1 == e);
    assert(end <= e) by {
        if names(p.subrange(i, end)) {
            assert(all[0] == (i, end));
            if all.len() > 1 {
                assert(all[0].1 < all[all.len() - 1].0);
            }
        } else {
            lemma_spans_from(p, end + 1);
            assert(spans_from(p, end + 1)[all.len() - 1] == all[all.len() - 1]);
        }
    }
    lemma_part_end_take(p, e, i);
    assert(q.subrange(i, end) =~= p.subrange(i, end));
    let later = spans_from(p, end + 1);
    if names(p.subrange(i, end)) {
        if later.len() == 0 {
            assert(all =~= seq![(i, end)]);
            assert(end == e);
            assert(spans_from(q, end + 1) =~= later);
        } else {
            assert(all.last() == later.last());
            lemma_spans_from_take(p, e, end + 1);
        }
    } else {
        lemma_spans_from_take(p, e, end + 1);
        lemma_spans_from(p, end + 1);
    }
}

proof fn lemma_spans_from_nth(p: Seq<char>, i: int, j: int)
    requires
        0 <= i,
        0 <= j < spans_from(p, i).len(),
    ensures
        spans_from(p, spans_from(p, i)[j].0) == spans_from(p, i).skip(j),
        ({
            let (a, b) = spans_from(p, i)[j];
            0 <= a && b == part_end(p, a) && names(p.subrange(a, b))
        }),
    decreases p.len() - i,
{
    let end = part_end(p, i);
    lemma_part_end(p, i);
    let all = spans_from(p, i);
    let later = spans_from(p, end + 1);
    if names(p.subrange(i, end)) {
        if j == 0 {
            assert(all.skip(0) =~= all);
        } else {
            assert(all[j] == later[j - 1]);
            lemma_spans_from_nth(p, end + 1, j - 1);
            assert(all.skip(j) =~= later.skip(j - 1));
        }
    } else {
        lemma_spans_from_nth(p, end + 1, j);
    }
}

proof fn lemma_whole_rest(p: Seq<char>)
    requires
        spans(p).len() > 0,
    ensures
        components(rest(p, 0)) == components(p),
{
    let all = spans(p);
    let body = spans_from(p, 0);
    let e = all.last().1;
    let r = p.take(e);
    lemma_spans(p);
    lemma_part_end(p, 0);
    assert(rest(p, 0) =~= r);
    assert(0 < e <= p.len()) by {
        assert(all[all.len() - 1].1 == e);
    }
    if body.len() > 0 {
        assert(all.last() == body.last());
        lemma_spans_from_take(p, e, 0);
        assert(part_end(p, 0) <= e) by {
            lemma_spans_from(p, 0);
            if part_end(p, 0) > e {
                lemma_spans_from_nth(p, 0, body.len() - 1);
                lemma_part_end(p, body[body.len() - 1].0);
                assert(p[e] == '/');
            }
        }
        lemma_part_end_take(p, e, 0);
    } else {
        assert(e == 1);
        if p[0] == '.' {
            lemma_part_end_take(p, 1, 0);
            reveal_strlit(".");
            assert(r.subrange(0, 1) =~= "."@);
        } else {
            assert(part_end(r, 0) == 0);
            assert(r.subrange(0, 0).len() == 0);
        }
        assert(spans_from(r, 1) =~= Seq::<(int, int)>::empty());
        assert(spans_from(r, 2) =~= Seq::<(int, int)>::empty());
        assert(spans_from(r, 0) =~= body);
    }
    assert(lead(r) =~= lead(p));
    assert(spans(r) =~= all);
    assert forall|i: int| 0 <= i < all.len() implies #[trigger] components(r)[i] == components(
        p,
    )[i] by {
        assert(0 <= all[i].0 < all[i].1 <= p.len());
        assert(all[i].1 <= e) by {
            if i < all.len() - 1 {
                assert(all[i].1 <= all[all.len() - 1].0);
            }
        }
        assert(r.subrange(all[i].0, all[i].1) =~= p.subrange(all[i].0, all[i].1));
    }
    assert(components(r) =~= components(p));
}

/// What is left of a path below a directory names exactly the components that
/// the directory does not have.
pub proof fn law_rest_keeps_the_components(p: Seq<char>, k: int)
    requires
        0 <= k <= components(p).len(),
    ensures
        components(rest(p, k)) == components(p).skip(k),
{
    let all = spans(p);
    let body = spans_from(p, 0);
    lemma_spans(p);
    if k == 0 && all.len() > 0 {
        lemma_whole_rest(p);
        assert(components(p).skip(0) =~= components(p));
    } else if k == all.len() {
        assert(rest(p, k) =~= Seq::<char>::empty());
        assert(spans(rest(p, k)) =~= Seq::<(int, int)>::empty());
        assert(components(rest(p, k)) =~= components(p).skip(k));
    } else {
        let j = k - lead(p).len();
        assert(all[k] == body[j]);
        let (a, b) = body[j];
        let e = all.last().1;
        lemma_spans_from_nth(p, 0, j);
        let tail = spans_from(p, a);
        assert(tail.len() == body.len() - j);
        assert(tail.last() == all.last());
        let r = rest(p, k);
        assert(all[k].1 <= all.last().1) by {
            if k < all.len() - 1 {
                assert(all[k].1 <= all[all.len() - 1].0);
            }
        }
        assert(r =~= p.take(e).skip(a));
        lemma_spans_from_take(p, e, a);
        lemma_spans_from_skip(p.take(e), a, 0);
        assert(moved(spans_from(r, 0), a) == tail);
        // The rest does not begin with a separator or a lone dot.
        lemma_part_end(p, a);
        assert(r[0] == p[a]);
        assert(a < b);
        assert(p[a] != '/');
        if r[0] == '.' && part_end(r, 0) == 1 {
            lemma_part_end_skip(p.take(e), a, 0);
            lemma_part_end_take(p, e, a);
            reveal_strlit(".");
            assert(p.subrange(a, b) =~= "."@);
        }
        assert(lead(r) =~= Seq::<(int, int)>::empty());
        assert(spans(r) =~= spans_from(r, 0));
        assert forall|i: int| 0 <= i < spans(r).len() implies #[trigger] components(r)[i]
            == components(p).skip(k)[i] by {
            let s = spans(r)[i];
            assert(moved(spans_from(r, 0), a)[i] == (s.0 + a, s.1 + a));
            assert(tail[i] == body[j + i]);
            assert(all[k + i] == body[j + i]);
            assert(0 <= all[k + i].0 < all[k + i].1 <= p.len());
            assert(s.1 + a <= e) by {
                if k + i < all.len() - 1 {
                    assert(all[k + i].1 <= all[all.len() - 1].0);
                }
            }
            assert(s.0 >= 0) by {
                if i > 0 {
                    assert(all[k].1 <= all[k + i].0);
                }
            }
            assert(r.subrange(s.0, s.1) =~= p.subrange(s.0 + a, s.1 + a));
        }
        assert(components(r).len() == components(p).skip(k).len());
        assert(components(r) =~= components(p).skip(k));
    }
}

/// Whether a character is an ASCII letter.
pub open spec fn is_letter(c: char) -> bool {
    'a' <= c <= 'z' || 'A' <= c <= 'Z'
}

/// Whether a path begins with a drive: a letter and a colon.
pub open spec fn has_drive(p: Seq<char>) -> bool {
    p.len() >= 2 && is_letter(p[0]) && p[1] == ':'
}

/// How many of a Windows path's components its prefix takes up: a drive, a share
/// of a server, or one of the forms that name a device or are taken verbatim. A
/// drive that is followed by a relative path shares its component with it.
pub open spec fn prefix_parts(p: Seq<char>) -> int {
    let all = components(p);
    if has_prefix(p, "//./"@) {
        2
    } else if has_prefix(p, "//"@) && all.len() >= 2 && all[1] == "?"@ {
        if all.len() >= 3 && all[2] == "UNC"@ {
            5
        } else {
            3
        }
    } else if has_prefix(p, "//"@) && all.len() >= 3 {
        3
    } else if has_drive(p) && all.len() >= 1 && all[0].len() == 2 {
        1
    } else {
        0
    }
}

/// A path's own name on a platform. On Windows what belongs to the prefix names
/// nothing.
pub open spec fn name_on(p: Seq<char>, windows: bool) -> Option<Seq<char>> {
    if !windows {
        file_name(p)
    } else if components(p).len() <= prefix_parts(p) {
        None
    } else if has_drive(p) && components(p).len() == 1 {
        file_name(p.skip(2))
    } else {
        file_name(p)
    }
}

fn drive_at_start(p: &str) -> (yes: bool)
    ensures
        yes == has_drive(p@),
{
    let x = to_chars(p);
    x.len() >= 2 && (('a' <= x[0] && x[0] <= 'z') || ('A' <= x[0] && x[0] <= 'Z')) && x[1] == ':'
}

fn count_prefix(p: &str, all: &[String]) -> (n: usize)
    requires
        views(all@) == components(p@),
    ensures
        n == prefix_parts(p@),
{
    let ghost parts = components(p@);
    assert(parts.len() == all@.len());
    assert(all@.len() >= 1 ==> parts[0] == all@[0]@);
    assert(all@.len() >= 2 ==> parts[1] == all@[1]@);
    assert(all@.len() >= 3 ==> parts[2] == all@[2]@);
    if crate::text::starts_with(p, "//./") {
        2
    } else if crate::text::starts_with(p, "//") && all.len() >= 2 && same(all[1].as_str(), "?") {
        if all.len() >= 3 && same(all[2].as_str(), "UNC") {
            5
        } else {
            3
        }
    } else if crate::text::starts_with(p, "//") && all.len() >= 3 {
        3
    } else if drive_at_start(p) && all.len() >= 1 && to_chars(all[0].as_str()).len() == 2 {
        1
    } else {
        0
    }
}

/// A path's own name on a platform.
pub fn own_name_on(p: &str, windows: bool) -> (name: Option<String>)
    ensures
        match name {
            Some(n) => name_on(p@, windows) == Some(n@),
            None => name_on(p@, windows) is None,
        },
{
    if !windows {
        return own_name(p);
    }
    let all = split_components(p);
    assert(components(p@).len() == all@.len());
    if all.len() <= count_prefix(p, all.as_slice()) {
        None
    } else if drive_at_start(p) && all.len() == 1 {
        let x = to_chars(p);
        assert(x@.subrange(2, x@.len() as int) =~= p@.skip(2));
        own_name(from_chars(&x[2..x.len()]).as_str())
    } else {
        own_name(p)
    }
}

/// The uppercase of an ASCII letter; any other character as it is.
pub open spec fn upper_char(c: char) -> char {
    if c == 'a' {
        'A'
    } else if c == 'b' {
        'B'
    } else if c == 'c' {
        'C'
    } else if c == 'd' {
        'D'
    } else if c == 'e' {
        'E'
    } else if c == 'f' {
        'F'
    } else if c == 'g' {
        'G'
    } else if c == 'h' {
        'H'
    } else if c == 'i' {
        'I'
    } else if c == 'j' {
        'J'
    } else if c == 'k' {
        'K'
    } else if c == 'l' {
        'L'
    } else if c == 'm' {
        'M'
    } else if c == 'n' {
        'N'
    } else if c == 'o' {
        'O'
    } else if c == 'p' {
        'P'
    } else if c == 'q' {
        'Q'
    } else if c == 'r' {
        'R'
    } else if c == 's' {
        'S'
    } else if c == 't' {
        'T'
    } else if c == 'u' {
        'U'
    } else if c == 'v' {
        'V'
    } else if c == 'w' {
        'W'
    } else if c == 'x' {
        'X'
    } else if c == 'y' {
        'Y'
    } else if c == 'z' {
        'Z'
    } else {
        c
    }
}

fn upper_one(c: char) -> (u: char)
    ensures
        u == upper_char(c),
{
    match c {
        'a' => 'A',
        'b' => 'B',
        'c' => 'C',
        'd' => 'D',
        'e' => 'E',
        'f' => 'F',
        'g' => 'G',
        'h' => 'H',
        'i' => 'I',
        'j' => 'J',
        'k' => 'K',
        'l' => 'L',
        'm' => 'M',
        'n' => 'N',
        'o' => 'O',
        'p' => 'P',
        'q' => 'Q',
        'r' => 'R',
        's' => 'S',
        't' => 'T',
        'u' => 'U',
        'v' => 'V',
        'w' => 'W',
        'x' => 'X',
        'y' => 'Y',
        'z' => 'Z',
        _ => c,
    }
}

/// Where the drive of a path stands, if it has one: at the start, or after the
/// mark of a path that is taken verbatim.
pub open spec fn drive_place(p: Seq<char>) -> int {
    if has_prefix(p, "//?/"@) {
        4
    } else {
        0
    }
}

/// The path with its drive letter in uppercase.
pub open spec fn with_upper_drive(p: Seq<char>) -> Seq<char> {
    let d = drive_place(p);
    if has_drive(p.skip(d)) {
        p.update(d, upper_char(p[d]))
    } else {
        p
    }
}

/// A platform's path in portable form.
pub open spec fn portable_text(p: Seq<char>, windows: bool) -> Seq<char> {
    if windows {
        with_upper_drive(replaced(p, '\\', '/'))
    } else {
        p
    }
}

/// Brings a path of the platform's own into portable form.
pub fn portable(p: &str, windows: bool) -> (text: String)
    ensures
        text@ == portable_text(p@, windows),
{
    if !windows {
        return p.to_owned();
    }
    let text = replace_char(p, '\\', '/');
    let mut x = to_chars(text.as_str());
    proof {
        reveal_strlit("//?/");
    }
    let d: usize = if crate::text::starts_with(text.as_str(), "//?/") {
        4
    } else {
        0
    };
    let ghost rest = text@.skip(d as int);
    assert(rest.len() == text@.len() - d);
    if x.len() >= d + 2 && (('a' <= x[d] && x[d] <= 'z') || ('A' <= x[d] && x[d] <= 'Z')) && x[d + 1]
        == ':' {
        assert(rest[0] == x@[d as int] && rest[1] == x@[d + 1]);
        let u = upper_one(x[d]);
        x.set(d, u);
        from_chars(&x)
    } else {
        proof {
            if has_drive(rest) {
                assert(rest[0] == x@[d as int] && rest[1] == x@[d + 1]);
            }
        }
        text
    }
}

/// Drives are told apart without regard to case: paths that differ only in the
/// case of their drive letter have one portable form.
pub proof fn law_drive_case_does_not_matter(a: char, b: char, rest: Seq<char>)
    requires
        is_letter(a),
        is_letter(b),
        upper_char(a) == upper_char(b),
    ensures
        portable_text(seq![a, ':'] + rest, true) == portable_text(seq![b, ':'] + rest, true),
{
    reveal_strlit("//?/");
    let p = replaced(seq![a, ':'] + rest, '\\', '/');
    let q = replaced(seq![b, ':'] + rest, '\\', '/');
    assert(p[0] == a && p[1] == ':');
    assert(q[0] == b && q[1] == ':');
    assert(p.take(4)[0] == a || p.len() < 4);
    assert(q.take(4)[0] == b || q.len() < 4);
    assert(!has_prefix(p, "//?/"@)) by {
        if has_prefix(p, "//?/"@) {
            assert(p.take(4)[0] == "//?/"@[0]);
        }
    }
    assert(!has_prefix(q, "//?/"@)) by {
        if has_prefix(q, "//?/"@) {
            assert(q.take(4)[0] == "//?/"@[0]);
        }
    }
    assert(p.skip(0) =~= p);
    assert(q.skip(0) =~= q);
    assert(with_upper_drive(p) =~= with_upper_drive(q));
}

proof fn lemma_named_parts(p: Seq<char>, i: int)
    requires
        0 <= i <= p.len() + 1,
    ensures
        spans_from(p, i).map_values(|s: (int, int)| p.subrange(s.0, s.1)) == if i <= p.len() {
            split(p.skip(i), '/').filter(|part: Seq<char>| part.len() > 0 && part != "."@)
        } else {
            Seq::empty()
        },
    decreases p.len() + 1 - i,
{
    broadcast use vstd::seq_lib::group_filter_ensures;

    let text = |s: (int, int)| p.subrange(s.0, s.1);
    let keep = |part: Seq<char>| part.len() > 0 && part != "."@;
    reveal(Seq::filter);
    if i > p.len() {
        assert(spans_from(p, i).map_values(text) =~= Seq::<Seq<char>>::empty());
    } else {
        let end = part_end(p, i);
        lemma_part_end(p, i);
        lemma_named_parts(p, end + 1);
        let part = p.subrange(i, end);
        let q = p.skip(i);
        assert(!part.contains('/')) by {
            if part.contains('/') {
                let k = part.index_of('/');
                assert(p[i + k] == '/');
            }
        }
        lemma_split_single(part, '/');
        let later = spans_from(p, end + 1).map_values(text);
        if end < p.len() {
            let rest = p.skip(end + 1);
            assert(q =~= part + seq!['/'] + rest);
            lemma_split_concat(part, '/', rest);
            assert(split(q, '/') == seq![part] + split(rest, '/'));
            lemma_filter_first(part, split(rest, '/'), keep);
        } else {
            assert(q =~= part);
            assert(later =~= Seq::<Seq<char>>::empty());
            assert(seq![part] + Seq::<Seq<char>>::empty() =~= seq![part]);
            lemma_filter_first(part, Seq::empty(), keep);
            assert(Seq::<Seq<char>>::empty().filter(keep) =~= Seq::<Seq<char>>::empty());
        }
        if i < p.len() {
            if names(part) {
                assert(spans_from(p, i).map_values(text) =~= seq![part] + later);
            } else {
                assert(spans_from(p, i).map_values(text) =~= later);
                assert(Seq::<Seq<char>>::empty() + later =~= later);
            }
        } else {
            assert(spans_from(p, i).map_values(text) =~= Seq::<Seq<char>>::empty());
            assert(part.len() == 0);
        }
    }
}

proof fn lemma_filter_first(
    first: Seq<char>,
    rest: Seq<Seq<char>>,
    keep: spec_fn(Seq<char>) -> bool,
)
    ensures
        (seq![first] + rest).filter(keep) == (if keep(first) {
            seq![first]
        } else {
            Seq::empty()
        }) + rest.filter(keep),
    decreases rest.len(),
{
    reveal(Seq::filter);
    let all = seq![first] + rest;
    if rest.len() == 0 {
        assert(all.drop_last() =~= Seq::<Seq<char>>::empty());
        assert(all.last() == first);
        assert(Seq::<Seq<char>>::empty().filter(keep) =~= Seq::<Seq<char>>::empty());
        assert(rest.filter(keep) =~= Seq::<Seq<char>>::empty());
        assert(all.filter(keep) =~= (if keep(first) {
            seq![first]
        } else {
            Seq::empty()
        }) + rest.filter(keep));
    } else {
        lemma_filter_first(first, rest.drop_last(), keep);
        assert(all.drop_last() =~= seq![first] + rest.drop_last());
        assert(all.last() == rest.last());
        assert(all.filter(keep) =~= (if keep(first) {
            seq![first]
        } else {
            Seq::empty()
        }) + rest.filter(keep));
    }
}

/// A path's components are the parts between its separators, in order, without
/// the empty ones and the single dots, after the root of an absolute path or the
/// dot of a path that begins with one.
pub proof fn law_components_are_the_named_parts(p: Seq<char>)
    ensures
        components(p) == (if p.len() > 0 && p[0] == '/' {
            seq!["/"@]
        } else if split(p, '/')[0] == "."@ {
            seq!["."@]
        } else {
            Seq::empty()
        }) + split(p, '/').filter(|part: Seq<char>| part.len() > 0 && part != "."@),
{
    let text = |s: (int, int)| p.subrange(s.0, s.1);
    reveal_strlit("/");
    reveal_strlit(".");
    lemma_named_parts(p, 0);
    assert(p.skip(0) =~= p);
    assert(components(p) =~= lead(p).map_values(text) + spans_from(p, 0).map_values(text));
    lemma_split_not_empty(p, '/');
    lemma_part_end(p, 0);
    let end = part_end(p, 0);
    let part = p.subrange(0, end);
    assert(split(p, '/')[0] == part) by {
        assert(!part.contains('/')) by {
            if part.contains('/') {
                let k = part.index_of('/');
                assert(p[k] == '/');
            }
        }
        lemma_split_single(part, '/');
        if end < p.len() {
            let rest = p.skip(end + 1);
            assert(p =~= part + seq!['/'] + rest);
            lemma_split_concat(part, '/', rest);
        } else {
            assert(p =~= part);
        }
    }
    if p.len() > 0 && p[0] == '/' {
        assert(lead(p).map_values(text) =~= seq!["/"@]) by {
            assert(p.subrange(0, 1) =~= "/"@);
        }
    } else if part == "."@ {
        assert(part[0] == p[0]);
        assert(lead(p).map_values(text) =~= seq!["."@]) by {
            assert(p.subrange(0, 1) =~= "."@);
        }
    } else {
        if p.len() > 0 && p[0] == '.' && end == 1 {
            assert(part =~= "."@);
        }
        assert(lead(p).map_values(text) =~= Seq::<Seq<char>>::empty());
    }
}

proof fn lemma_part_end_joined(root: Seq<char>, rel: Seq<char>, i: int)
    requires
        0 <= i <= root.len(),
    ensures
        part_end(root + seq!['/'] + rel, i) == part_end(root, i),
    decreases root.len() - i,
{
    let p = root + seq!['/'] + rel;
    if i < root.len() && root[i] != '/' {
        assert(p[i] == root[i]);
        lemma_part_end_joined(root, rel, i + 1);
    } else if i < root.len() {
        assert(p[i] == root[i]);
    } else {
        assert(p[i] == '/');
    }
}

proof fn lemma_spans_joined(root: Seq<char>, rel: Seq<char>, i: int)
    requires
        0 <= i <= root.len() + 1,
    ensures
        spans_from(root + seq!['/'] + rel, i) == spans_from(root, i) + spans_from(
            root + seq!['/'] + rel,
            root.len() + 1int,
        ),
    decreases root.len() + 1 - i,
{
    let p = root + seq!['/'] + rel;
    let n = root.len() as int;
    let tail = spans_from(p, n + 1);
    if i == n + 1 {
        assert(spans_from(root, i) + tail =~= tail);
    } else {
        let end = part_end(root, i);
        lemma_part_end(root, i);
        lemma_part_end_joined(root, rel, i);
        assert(p.subrange(i, end) =~= root.subrange(i, end));
        lemma_spans_joined(root, rel, end + 1);
        if i == n {
            assert(p.subrange(i, end).len() == 0);
            assert(spans_from(root, i) =~= Seq::<(int, int)>::empty());
            assert(spans_from(root, end + 1) =~= Seq::<(int, int)>::empty());
        } else if names(root.subrange(i, end)) {
            assert(seq![(i, end)] + (spans_from(root, end + 1) + tail) =~= (seq![(i, end)]
                + spans_from(root, end + 1)) + tail);
        }
    }
}

proof fn lemma_spans_of_named(p: Seq<char>, i: int)
    requires
        0 <= i <= p.len(),
        forall|k: int|
            0 <= k < split(p.skip(i), '/').len() ==> names(#[trigger] split(p.skip(i), '/')[k]),
    ensures
        spans_from(p, i).len() > 0,
        spans_from(p, i)[0].0 == i,
        spans_from(p, i).last().1 == p.len(),
    decreases p.len() - i,
{
    let q = p.skip(i);
    let end = part_end(p, i);
    lemma_part_end(p, i);
    let part = p.subrange(i, end);
    assert(!part.contains('/')) by {
        if part.contains('/') {
            let k = part.index_of('/');
            assert(p[i + k] == '/');
        }
    }
    lemma_split_single(part, '/');
    if end < p.len() {
        let rest = p.skip(end + 1);
        assert(q =~= part + seq!['/'] + rest);
        lemma_split_concat(part, '/', rest);
        let all = split(q, '/');
        assert(all[0] == part);
        assert(names(all[0]));
        assert forall|k: int| 0 <= k < split(rest, '/').len() implies names(
            #[trigger] split(rest, '/')[k],
        ) by {
            assert(all[k + 1] == split(rest, '/')[k]);
        }
        lemma_spans_of_named(p, end + 1);
        let later = spans_from(p, end + 1);
        assert(spans_from(p, i) == seq![(i, end)] + later);
        assert(spans_from(p, i).last() == later.last());
    } else {
        assert(q =~= part);
        assert(split(q, '/')[0] == part);
        assert(names(split(q, '/')[0]));
        assert(i < p.len());
        assert(spans_from(p, end + 1) =~= Seq::<(int, int)>::empty());
        assert(spans_from(p, i) =~= seq![(i, end)]);
    }
}

/// A file below a directory is recognised as one, at any depth, and what lies
/// below the directory is the file's relative path.
pub proof fn law_file_below_a_directory(root: Seq<char>, rel: Seq<char>)
    requires
        root.len() > 0,
        root.last() != '/',
        forall|k: int|
            0 <= k < split(rel, '/').len() ==> (#[trigger] split(rel, '/')[k]).len() > 0 && split(
                rel,
                '/',
            )[k] != "."@,
    ensures
        starts_with(root + seq!['/'] + rel, root),
        rest(root + seq!['/'] + rel, components(root).len() as int) == rel,
        components(root + seq!['/'] + rel).len() > components(root).len(),
{
    let p = root + seq!['/'] + rel;
    let n = root.len() as int;
    let tail = spans_from(p, n + 1);
    lemma_spans_joined(root, rel, 0);
    lemma_part_end_joined(root, rel, 0);
    assert(lead(p) =~= lead(root));
    assert(spans(p) =~= spans(root) + tail);
    assert(p.skip(n + 1) =~= rel);
    lemma_spans_of_named(p, n + 1);
    lemma_spans(root);
    let k = spans(root).len() as int;
    assert(components(p).take(k) =~= components(root)) by {
        assert forall|i: int| 0 <= i < k implies components(p)[i] == components(root)[i] by {
            let s = spans(root)[i];
            assert(spans(p)[i] == s);
            assert(p.subrange(s.0, s.1) =~= root.subrange(s.0, s.1));
        }
    }
    // The root has a component of its own.
    assert(k > 0) by {
        lemma_part_end(root, 0);
        let end = part_end(root, 0);
        let part = root.subrange(0, end);
        if root[0] != '/' {
            reveal_strlit(".");
            if names(part) {
                assert(spans_from(root, 0)[0] == (0int, end));
            } else {
                assert(part.len() > 0) by {
                    assert(end > 0);
                }
                assert(part[0] == root[0]);
                assert(lead(root).len() == 1);
            }
        } else {
            assert(lead(root).len() == 1);
        }
    }
    assert(spans(p)[k] == tail[0]);
    assert(spans(p).last() == tail.last());
    assert(rest(p, k) =~= rel);
}

/// A relative path that names something at every step leads straight there: the
/// file's place in the workspace is the workspace, a separator and the path.
pub proof fn law_safe_join_reaches_every_file(root: Seq<char>, rel: Seq<char>)
    requires
        root.len() > 0,
        root.last() != '/',
        forall|k: int|
            0 <= k < split(rel, '/').len() ==> {
                &&& (#[trigger] split(rel, '/')[k]).len() > 0
                &&& split(rel, '/')[k] != "."@
                &&& split(rel, '/')[k] != ".."@
            },
    ensures
        inside(root, rel) == Some(root + seq!['/'] + rel),
{
    let parts = split(rel, '/');
    if escapes(rel) {
        let k = parts.index_of(".."@);
        assert(parts[k] == ".."@);
    }
    lemma_split_parts(rel, '/');
    lemma_split_not_empty(rel, '/');
    lemma_below_joined(root, parts);
    crate::text::lemma_join_split(rel, '/');
}

proof fn lemma_below_joined(root: Seq<char>, parts: Seq<Seq<char>>)
    requires
        root.len() > 0,
        root.last() != '/',
        parts.len() > 0,
        forall|k: int|
            0 <= k < parts.len() ==> names(#[trigger] parts[k]) && !parts[k].contains('/'),
    ensures
        below(root, parts) == root + seq!['/'] + crate::text::joined(parts, seq!['/']),
        below(root, parts).last() != '/',
    decreases parts.len(),
{
    let name = parts.last();
    assert(name == parts[parts.len() - 1]);
    assert(name.contains(name[0]));
    assert(name.contains(name.last()));
    let init = parts.drop_last();
    if init.len() == 0 {
        assert(below(root, init) == root);
        assert(crate::text::joined(parts, seq!['/']) == name);
        assert(below(root, parts) =~= root + seq!['/'] + name);
    } else {
        assert forall|k: int| 0 <= k < init.len() implies names(#[trigger] init[k])
            && !init[k].contains('/') by {
            assert(names(parts[k]));
        }
        lemma_below_joined(root, init);
        assert(below(root, parts) =~= root + seq!['/'] + crate::text::joined(parts, seq!['/']));
    }
}

/// A path that names something at every step keeps its last name, wherever it
/// lies.
pub proof fn law_last_part_is_the_name(dir: Seq<char>, name: Seq<char>)
    requires
        dir.len() > 0,
        dir.last() != '/',
        name.len() > 0,
        !name.contains('/'),
        name != "."@,
        name != ".."@,
    ensures
        file_name(dir + seq!['/'] + name) == Some(name),
{
    let p = dir + seq!['/'] + name;
    let n = dir.len() as int;
    lemma_split_single(name, '/');
    assert forall|k: int| 0 <= k < split(name, '/').len() implies names(
        #[trigger] split(name, '/')[k],
    ) by {}
    assert(p.skip(n + 1) =~= name);
    lemma_spans_joined(dir, name, 0);
    lemma_part_end_joined(dir, name, 0);
    assert(lead(p) =~= lead(dir));
    lemma_spans_of_named(p, n + 1);
    lemma_named_parts(p, n + 1);
    let text = |s: (int, int)| p.subrange(s.0, s.1);
    let tail = spans_from(p, n + 1);
    assert(seq![name] + Seq::<Seq<char>>::empty() =~= seq![name]);
    reveal(Seq::filter);
    let keep = |part: Seq<char>| part.len() > 0 && part != "."@;
    lemma_filter_first(name, Seq::empty(), keep);
    assert(Seq::<Seq<char>>::empty().filter(keep) =~= Seq::<Seq<char>>::empty());
    assert(tail.map_values(text) =~= seq![name]);
    assert(tail.len() == 1);
    assert(tail.map_values(text)[0] == name);
    assert(spans(p) =~= spans(dir) + tail);
    assert(components(p).last() == name);
    reveal_strlit("/");
    if name == "/"@ {
        assert(name[0] == '/');
        assert(name.contains(name[0]));
    }
}

/// A name goes behind a directory with one separator between them, whether or not
/// the directory is written with one; an absolute name stands for itself, and
/// what follows no directory stands alone.
pub proof fn law_extending_writes_one_separator(dir: Seq<char>, name: Seq<char>)
    ensures
        name.len() > 0 && name[0] == '/' ==> extended(dir, name) == name,
        extended(Seq::empty(), name) == name,
        dir.len() > 0 && dir.last() != '/' && !(name.len() > 0 && name[0] == '/') ==> extended(
            dir,
            name,
        ) == dir + seq!['/'] + name && extended(dir + seq!['/'], name) == dir + seq!['/'] + name,
{
    assert(Seq::<char>::empty() + name =~= name);
    assert(dir.push('/') =~= dir + seq!['/']);
}

/// A relative path is refused just where one of its parts steps upwards.
pub proof fn law_safe_join_refuses_upward_steps(root: Seq<char>, rel: Seq<char>)
    ensures
        inside(root, rel) is None <==> exists|k: int|
            0 <= k < split(rel, '/').len() && #[trigger] split(rel, '/')[k] == ".."@,
{
    let parts = split(rel, '/');
    if parts.contains(".."@) {
        let k = parts.index_of(".."@);
        assert(parts[k] == ".."@);
    }
}

proof fn lemma_below_filtered(root: Seq<char>, parts: Seq<Seq<char>>)
    ensures
        below(root, parts) == below(root, parts.filter(|part: Seq<char>| names(part))),
    decreases parts.len(),
{
    reveal(Seq::filter);
    let keep = |part: Seq<char>| names(part);
    if parts.len() > 0 {
        let init = parts.drop_last();
        lemma_below_filtered(root, init);
        let kept = init.filter(keep);
        if names(parts.last()) {
            assert(parts.filter(keep) == kept.push(parts.last()));
            assert(kept.push(parts.last()).drop_last() =~= kept);
        } else {
            assert(parts.filter(keep) == kept);
        }
    } else {
        assert(parts.filter(keep) =~= parts);
    }
}

proof fn lemma_filtered_from(
    parts: Seq<Seq<char>>,
    keep: spec_fn(Seq<char>) -> bool,
    k: int,
) -> (j: int)
    requires
        0 <= k < parts.filter(keep).len(),
    ensures
        0 <= j < parts.len(),
        parts[j] == parts.filter(keep)[k],
        keep(parts[j]),
    decreases parts.len(),
{
    reveal(Seq::filter);
    let kept = parts.drop_last().filter(keep);
    if k < kept.len() {
        lemma_filtered_from(parts.drop_last(), keep, k)
    } else {
        parts.len() - 1
    }
}

/// Where a relative path leads that does not step upwards: to the root with the
/// parts that name something behind it, in order. Empty parts and single dots
/// lead nowhere else.
pub proof fn law_safe_join_follows_the_named_parts(root: Seq<char>, rel: Seq<char>)
    requires
        root.len() > 0,
        root.last() != '/',
        inside(root, rel) is Some,
    ensures
        ({
            let kept = split(rel, '/').filter(|part: Seq<char>| part.len() > 0 && part != "."@);
            inside(root, rel) == Some(
                if kept.len() == 0 {
                    root
                } else {
                    root + seq!['/'] + crate::text::joined(kept, seq!['/'])
                },
            )
        }),
{
    let parts = split(rel, '/');
    let keep = |part: Seq<char>| names(part);
    let kept = parts.filter(keep);
    assert(keep =~= |part: Seq<char>| part.len() > 0 && part != "."@);
    lemma_below_filtered(root, parts);
    lemma_split_parts(rel, '/');
    if kept.len() > 0 {
        assert forall|k: int| 0 <= k < kept.len() implies names(#[trigger] kept[k])
            && !kept[k].contains('/') by {
            let j = lemma_filtered_from(parts, keep, k);
            assert(!parts[j].contains('/'));
        }
        lemma_below_joined(root, kept);
    }
}

/// A directory's own name is what follows its last separator, on every platform.
/// On Windows it is so for paths on a drive.
pub proof fn law_own_name_on_a_platform(dir: Seq<char>, name: Seq<char>, windows: bool)
    requires
        dir.len() > 0,
        dir.last() != '/',
        name.len() > 0,
        !name.contains('/'),
        name != "."@,
        name != ".."@,
        windows ==> dir.len() >= 2 && ('a' <= dir[0] <= 'z' || 'A' <= dir[0] <= 'Z') && dir[1]
            == ':',
    ensures
        name_on(dir + seq!['/'] + name, windows) == Some(name),
{
    let p = dir + seq!['/'] + name;
    law_last_part_is_the_name(dir, name);
    if windows {
        lemma_split_single(name, '/');
        law_file_below_a_directory(dir, name);
        assert(p[0] == dir[0] && p[1] == ':');
        reveal_strlit("//./");
        reveal_strlit("//");
        if has_prefix(p, "//./"@) {
            assert(p.take(4)[0] == '/');
        }
        if has_prefix(p, "//"@) {
            assert(p.take(2)[0] == '/');
        }
        // The directory has a component of its own, and the name is another.
        assert(components(dir).len() > 0) by {
            lemma_part_end(dir, 0);
            let end = part_end(dir, 0);
            let part = dir.subrange(0, end);
            reveal_strlit(".");
            assert(end > 0);
            assert(part[0] == dir[0]);
            assert(names(part));
            assert(spans_from(dir, 0)[0] == (0int, end));
            assert(spans(dir).len() > 0);
        }
    }
}

/// The root of a drive has no name of its own on Windows.
pub proof fn law_drive_root_has_no_name(letter: char)
    requires
        'a' <= letter <= 'z' || 'A' <= letter <= 'Z',
    ensures
        name_on(seq![letter, ':', '/'], true) is None,
        name_on(seq![letter, ':'], true) is None,
{
    let p = seq![letter, ':', '/'];
    let q = seq![letter, ':'];
    reveal_strlit("//./");
    reveal_strlit("//");
    reveal_strlit(".");
    reveal_with_fuel(part_end, 4);
    reveal_with_fuel(spans_from, 4);
    if has_prefix(p, "//"@) {
        assert(p.take(2)[0] == '/');
    }
    if has_prefix(q, "//"@) {
        assert(q.take(2)[0] == '/');
    }
    assert(part_end(p, 0) == 2);
    assert(part_end(q, 0) == 2);
    assert(p.subrange(0, 2) =~= q);
    assert(q.subrange(0, 2) =~= q);
    assert(part_end(p, 3) == 3);
    assert(spans_from(p, 3) =~= Seq::<(int, int)>::empty());
    assert(spans_from(q, 3) =~= Seq::<(int, int)>::empty());
    assert(spans_from(p, 0) =~= seq![(0int, 2int)]);
    assert(spans_from(q, 0) =~= seq![(0int, 2int)]);
    assert(components(p) =~= seq![q]);
    assert(components(q) =~= seq![q]);
}

/// Making a path portable changes nothing but separators and the case of a drive
/// letter, and on other platforms than Windows nothing at all.
pub proof fn law_portable_keeps_the_text(p: Seq<char>, i: int)
    requires
        0 <= i < p.len(),
    ensures
        portable_text(p, false) == p,
        portable_text(p, true).len() == p.len(),
        ({
            let r = portable_text(p, true);
            ||| r[i] == if p[i] == '\\' {
                '/'
            } else {
                p[i]
            }
            ||| (i == 0 || i == 4) && i + 1 < p.len() && p[i + 1] == ':' && 'a' <= p[i] <= 'z'
                && r[i] as u32 == p[i] as u32 - 32
        }),
{
    reveal_strlit("//?/");
    let q = replaced(p, '\\', '/');
    let d = drive_place(q);
    if has_drive(q.skip(d)) {
        assert(q.skip(d)[0] == q[d] && q.skip(d)[1] == q[d + 1]);
        assert(q[d + 1] == p[d + 1]);
        assert(q[d] == p[d]);
    }
}

/// On Windows no backslash is left, and a drive letter at the start is a capital.
pub proof fn law_portable_is_normal(p: Seq<char>)
    ensures
        !portable_text(p, true).contains('\\'),
        p.len() >= 2 && 'a' <= p[0] <= 'z' && p[1] == ':' ==> portable_text(p, true)[0] as u32
            == p[0] as u32 - 32,
{
    reveal_strlit("//?/");
    let r = portable_text(p, true);
    let q = replaced(p, '\\', '/');
    if r.contains('\\') {
        let k = r.index_of('\\');
        assert(q[k] != '\\');
        let d = drive_place(q);
        if has_drive(q.skip(d)) {
            assert(q.skip(d)[0] == q[d]);
        }
    }
    if p.len() >= 2 && 'a' <= p[0] <= 'z' && p[1] == ':' {
        assert(q[0] == p[0] && q[1] == p[1]);
        if has_prefix(q, "//?/"@) {
            assert(q.take(4)[0] == '/');
        }
        assert(q.skip(0) =~= q);
    }
}

/// A share of a server has no name of its own on Windows, and what lies below it is
/// called by its last part.
pub proof fn law_names_below_a_share(server: Seq<char>, share: Seq<char>, name: Seq<char>)
    requires
        names(server) && !server.contains('/') && server != "?"@,
        names(share) && !share.contains('/'),
        names(name) && !name.contains('/') && name != ".."@,
    ensures
        name_on(seq!['/', '/'] + server + seq!['/'] + share, true) is None,
        name_on(
            seq!['/', '/'] + server + seq!['/'] + share + seq!['/'] + name,
            true,
        ) == Some(name),
{
    let p = seq!['/', '/'] + server + seq!['/'] + share;
    let q = p + seq!['/'] + name;
    lemma_share_components(server, share);
    lemma_no_device(server, seq!['/'] + share);
    lemma_no_device(server, seq!['/'] + share + seq!['/'] + name);
    assert(seq!['/', '/'] + server + (seq!['/'] + share) =~= p);
    assert(seq!['/', '/'] + server + (seq!['/'] + share + seq!['/'] + name) =~= q);
    lemma_split_single(name, '/');
    assert(share.contains(share.last()));
    assert(p.last() == share.last());
    law_last_part_is_the_name(p, name);
    law_file_below_a_directory(p, name);
    assert(components(q).take(3) == components(p));
    assert(components(q)[1] == components(q).take(3)[1]);
    assert(p[0] == '/' && q[0] == '/');
}

proof fn lemma_no_device(server: Seq<char>, more: Seq<char>)
    requires
        names(server),
        !server.contains('/'),
        more.len() > 0,
    ensures
        !has_prefix(seq!['/', '/'] + server + more, "//./"@),
        has_prefix(seq!['/', '/'] + server + more, "//"@),
{
    let p = seq!['/', '/'] + server + more;
    reveal_strlit("//./");
    reveal_strlit("//");
    reveal_strlit(".");
    assert(p.take(2) =~= "//"@);
    if has_prefix(p, "//./"@) {
        assert(p.take(4)[2] == '.' && p.take(4)[3] == '/');
        assert(p[2] == server[0]);
        if server.len() > 1 {
            assert(p[3] == server[1]);
            assert(server.contains(server[1]));
        }
        assert(server =~= "."@);
    }
}

proof fn lemma_share_components(server: Seq<char>, share: Seq<char>)
    requires
        names(server) && !server.contains('/'),
        names(share) && !share.contains('/'),
    ensures
        components(seq!['/', '/'] + server + seq!['/'] + share) == seq!["/"@, server, share],
{
    let p = seq!['/', '/'] + server + seq!['/'] + share;
    lemma_share_parts(server, share);
    law_components_are_the_named_parts(p);
    assert(p[0] == '/');
    assert(seq!["/"@] + seq![server, share] =~= seq!["/"@, server, share]);
}

#[verifier::spinoff_prover]
#[verifier::rlimit(50)]
proof fn lemma_share_parts(server: Seq<char>, share: Seq<char>)
    requires
        names(server) && !server.contains('/'),
        names(share) && !share.contains('/'),
    ensures
        split(seq!['/', '/'] + server + seq!['/'] + share, '/').filter(
            |part: Seq<char>| part.len() > 0 && part != "."@,
        ) == seq![server, share],
{
    let none = Seq::<char>::empty();
    let no_parts = Seq::<Seq<char>>::empty();
    let p = seq!['/', '/'] + server + seq!['/'] + share;
    let keep = |part: Seq<char>| part.len() > 0 && part != "."@;
    let tail = server + seq!['/'] + share;
    let two = seq![server] + seq![share];
    assert(split(p, '/') == seq![none] + (seq![none] + two)) by {
        lemma_split_single(none, '/');
        lemma_split_single(server, '/');
        lemma_split_single(share, '/');
        lemma_split_concat(server, '/', share);
        lemma_split_concat(none, '/', tail);
        lemma_split_concat(none, '/', none + seq!['/'] + tail);
        assert(p =~= none + seq!['/'] + (none + seq!['/'] + tail));
    }
    assert(no_parts.filter(keep) =~= no_parts) by {
        reveal(Seq::filter);
    }
    assert(seq![share].filter(keep) == seq![share]) by {
        lemma_filter_first(share, no_parts, keep);
        assert(seq![share] + no_parts =~= seq![share]);
    }
    assert(two.filter(keep) == two) by {
        lemma_filter_first(server, seq![share], keep);
    }
    assert((seq![none] + two).filter(keep) == two) by {
        lemma_filter_first(none, two, keep);
        assert(no_parts + two =~= two);
    }
    assert((seq![none] + (seq![none] + two)).filter(keep) == two) by {
        lemma_filter_first(none, seq![none] + two, keep);
        assert(no_parts + two =~= two);
    }
    assert(two =~= seq![server, share]);
}

proof fn lemma_below_concat(root: Seq<char>, a: Seq<Seq<char>>, b: Seq<Seq<char>>)
    ensures
        below(root, a + b) == below(below(root, a), b),
    decreases b.len(),
{
    if b.len() == 0 {
        assert(a + b =~= a);
    } else {
        assert((a + b).drop_last() =~= a + b.drop_last());
        assert((a + b).last() == b.last());
        lemma_below_concat(root, a, b.drop_last());
    }
}

/// A relative path is followed part by part: where the first part leads, the rest
/// goes on from; an empty part and a dot lead nowhere else, two dots lead nowhere at
/// all, and every other part leads to what it names there.
pub proof fn law_safe_join_goes_part_by_part(
    root: Seq<char>,
    part: Seq<char>,
    a: Seq<char>,
    b: Seq<char>,
)
    requires
        !part.contains('/'),
    ensures
        inside(root, part) == if part == ".."@ {
            None
        } else if part.len() == 0 || part == "."@ {
            Some(root)
        } else {
            Some(extended(root, part))
        },
        inside(root, a + seq!['/'] + b) == match inside(root, a) {
            None => None,
            Some(dir) => inside(dir, b),
        },
{
    lemma_split_single(part, '/');
    let one = seq![part];
    assert(one.drop_last() =~= Seq::<Seq<char>>::empty());
    assert(one.last() == part);
    assert(below(root, one.drop_last()) == root);
    assert(one.contains(".."@) <==> part == ".."@) by {
        if one.contains(".."@) {
            let k = one.index_of(".."@);
            assert(one[k] == part);
        }
        assert(one[0] == part);
    }
    lemma_split_concat(a, '/', b);
    let x = split(a, '/');
    let y = split(b, '/');
    lemma_below_concat(root, x, y);
    assert((x + y).contains(".."@) <==> x.contains(".."@) || y.contains(".."@)) by {
        if x.contains(".."@) {
            let k = x.index_of(".."@);
            assert((x + y)[k] == ".."@);
        }
        if y.contains(".."@) {
            let k = y.index_of(".."@);
            assert((x + y)[x.len() + k] == ".."@);
        }
        if (x + y).contains(".."@) {
            let k = (x + y).index_of(".."@);
            if k < x.len() {
                assert(x[k] == ".."@);
            } else {
                assert(y[k - x.len()] == ".."@);
            }
        }
    }
}

/// A path is called by its last component, however it is written, unless that is the
/// root or a dot or two.
pub proof fn law_name_is_the_last_component(p: Seq<char>)
    ensures
        file_name(p) is None <==> {
            let all = components(p);
            all.len() == 0 || all[all.len() - 1] == "/"@ || all[all.len() - 1] == "."@
                || all[all.len() - 1] == ".."@
        },
        file_name(p) matches Some(name) ==> name == components(p)[components(p).len() - 1],
        name_on(p, false) == file_name(p),
{
}

proof fn lemma_single_component(name: Seq<char>)
    requires
        names(name),
        !name.contains('/'),
    ensures
        components(name) == seq![name],
{
    let keep = |part: Seq<char>| part.len() > 0 && part != "."@;
    let no_parts = Seq::<Seq<char>>::empty();
    lemma_split_single(name, '/');
    law_components_are_the_named_parts(name);
    lemma_filter_first(name, no_parts, keep);
    assert(no_parts.filter(keep) =~= no_parts) by {
        reveal(Seq::filter);
    }
    assert(seq![name] + no_parts =~= seq![name]);
    assert(no_parts + seq![name] =~= seq![name]);
    assert(name[0] != '/') by {
        assert(name.contains(name[0]));
    }
}

/// A bare name is called by itself, and on Windows so is a name that follows a drive
/// without a separator.
pub proof fn law_bare_names_are_called_by_themselves(letter: char, name: Seq<char>, windows: bool)
    requires
        'a' <= letter <= 'z' || 'A' <= letter <= 'Z',
        names(name),
        name != ".."@,
        !name.contains('/'),
        name.len() < 2 || name[1] != ':',
    ensures
        name_on(name, windows) == Some(name),
        name_on(seq![letter, ':'] + name, true) == Some(name),
{
    let p = seq![letter, ':'] + name;
    lemma_single_component(name);
    reveal_strlit("//./");
    reveal_strlit("//");
    reveal_strlit("/");
    reveal_strlit(".");
    assert(name.contains(name[0]));
    assert(name != "/"@);
    assert(p.len() > 2 && p[0] == letter && p[1] == ':');
    assert(!p.contains('/')) by {
        if p.contains('/') {
            let k = p.index_of('/');
            assert(p[k] == '/');
            assert(name[k - 2] == '/');
        }
    }
    lemma_single_component(p);
    assert(p.skip(2) =~= name);
    if has_prefix(p, "//"@) {
        assert(p.take(2)[0] == '/');
    }
    if has_prefix(p, "//./"@) {
        assert(p.take(4)[0] == '/');
    }
    if has_prefix(name, "//"@) {
        assert(name.take(2)[0] == '/');
    }
    if has_prefix(name, "//./"@) {
        assert(name.take(4)[0] == '/');
    }
}

/// The drive letter of a path that is taken verbatim becomes a capital too, whichever
/// way its separators are written.
pub proof fn law_verbatim_drive_becomes_a_capital(p: Seq<char>)
    requires
        p.len() >= 6,
        p[0] == '/' || p[0] == '\\',
        p[1] == '/' || p[1] == '\\',
        p[2] == '?',
        p[3] == '/' || p[3] == '\\',
        'a' <= p[4] <= 'z',
        p[5] == ':',
    ensures
        portable_text(p, true)[4] as u32 == p[4] as u32 - 32,
{
    reveal_strlit("//?/");
    let q = replaced(p, '\\', '/');
    assert(q[0] == '/' && q[1] == '/' && q[2] == '?' && q[3] == '/' && q[4] == p[4] && q[5] == ':');
    assert(q.take(4) =~= "//?/"@);
    assert(q.skip(4)[0] == q[4] && q.skip(4)[1] == q[5]);
}

} // verus!
