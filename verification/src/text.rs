//! Text as sequences of characters: comparison, splitting, trimming, joining.

use vstd::prelude::*;
use vstd::string::StringExecFns;

verus! {

/// `String::push` appends the given character to the end of the string.
pub assume_specification[ String::push ](s: &mut String, c: char)
    ensures
        final(s)@ == old(s)@.push(c),
;

/// How a text is shown in quotes, with what has no printable form escaped.
pub uninterp spec fn quoted(text: Seq<char>) -> Seq<char>;

/// Formats a text with `{:?}`, the `Debug` form that std gives to `str`.
///
/// Believed of std: the form is a function of the text alone.
#[verifier::external_body]
pub(crate) fn quote(text: &str) -> (shown: String)
    ensures
        shown@ == quoted(text@),
{
    format!("{text:?}")
}

/// What the strings of a list hold.
pub open spec fn views(list: Seq<String>) -> Seq<Seq<char>> {
    Seq::new(list.len(), |i: int| list[i]@)
}

/// Text order: code point by code point, a proper prefix first. This is also
/// the order of the UTF-8 encodings, byte by byte.
pub open spec fn text_lt(a: Seq<char>, b: Seq<char>) -> bool
    decreases a.len(),
{
    if b.len() == 0 {
        false
    } else if a.len() == 0 {
        true
    } else if a[0] != b[0] {
        a[0] < b[0]
    } else {
        text_lt(a.skip(1), b.skip(1))
    }
}

pub proof fn lemma_text_lt_irreflexive(a: Seq<char>)
    ensures
        !text_lt(a, a),
    decreases a.len(),
{
    if a.len() > 0 {
        lemma_text_lt_irreflexive(a.skip(1));
    }
}

pub proof fn lemma_text_lt_transitive(a: Seq<char>, b: Seq<char>, c: Seq<char>)
    requires
        text_lt(a, b),
        text_lt(b, c),
    ensures
        text_lt(a, c),
    decreases a.len(),
{
    if a.len() > 0 && b.len() > 0 && c.len() > 0 && a[0] == b[0] && b[0] == c[0] {
        lemma_text_lt_transitive(a.skip(1), b.skip(1), c.skip(1));
    }
}

pub proof fn lemma_text_lt_total(a: Seq<char>, b: Seq<char>)
    ensures
        a == b || text_lt(a, b) || text_lt(b, a),
    decreases a.len(),
{
    if a.len() > 0 && b.len() > 0 {
        if a[0] == b[0] {
            lemma_text_lt_total(a.skip(1), b.skip(1));
            if a.skip(1) == b.skip(1) {
                assert(a =~= seq![a[0]] + a.skip(1));
                assert(b =~= seq![b[0]] + b.skip(1));
            }
        } else {
            assert(a[0] < b[0] || b[0] < a[0]);
        }
    } else if a.len() == 0 && b.len() == 0 {
        assert(a =~= b);
    }
}

/// Strictly ascending text order.
pub open spec fn ascending(s: Seq<Seq<char>>) -> bool {
    forall|i: int, j: int| 0 <= i < j < s.len() ==> #[trigger] text_lt(s[i], s[j])
}

/// How two texts compare.
#[derive(Debug, Clone, Copy, PartialEq, Eq, Structural)]
pub enum Order {
    Less,
    Same,
    Greater,
}

/// The characters of a text.
pub fn to_chars(s: &str) -> (chars: Vec<char>)
    ensures
        chars@ == s@,
{
    let mut chars: Vec<char> = Vec::new();
    for c in it: s.chars()
        invariant
            chars@ =~= s@.take(it.index()),
            it.seq() == s@,
    {
        chars.push(c);
    }
    assert(s@.take(s@.len() as int) =~= s@);
    chars
}

/// The text that a run of characters spells.
pub fn from_chars(chars: &[char]) -> (s: String)
    ensures
        s@ == chars@,
{
    let mut s: String = String::new();
    let mut i: usize = 0;
    while i < chars.len()
        invariant
            i <= chars@.len(),
            s@ =~= chars@.take(i as int),
        decreases chars@.len() - i,
    {
        s.push(chars[i]);
        i = i + 1;
    }
    assert(chars@.take(chars@.len() as int) =~= chars@);
    s
}

/// Compares two texts.
pub fn order(a: &str, b: &str) -> (o: Order)
    ensures
        o == Order::Less <==> text_lt(a@, b@),
        o == Order::Same <==> a@ == b@,
        o == Order::Greater <==> text_lt(b@, a@),
{
    let x = to_chars(a);
    let y = to_chars(b);
    let mut n: usize = 0;
    proof {
        lemma_text_lt_total(a@, b@);
        lemma_text_lt_irreflexive(a@);
        if text_lt(a@, b@) && text_lt(b@, a@) {
            lemma_text_lt_transitive(a@, b@, a@);
        }
    }
    assert(x@.skip(0) =~= x@);
    assert(y@.skip(0) =~= y@);
    while n < x.len() && n < y.len() && x[n] == y[n]
        invariant
            n <= x@.len(),
            n <= y@.len(),
            x@.take(n as int) =~= y@.take(n as int),
            text_lt(x@, y@) == text_lt(x@.skip(n as int), y@.skip(n as int)),
            text_lt(y@, x@) == text_lt(y@.skip(n as int), x@.skip(n as int)),
        decreases x@.len() - n,
    {
        assert(x@.skip(n as int).skip(1) =~= x@.skip(n as int + 1));
        assert(y@.skip(n as int).skip(1) =~= y@.skip(n as int + 1));
        n = n + 1;
    }
    if n < x.len() {
        if n < y.len() {
            assert(x@[n as int] != y@[n as int]);
            if x[n] < y[n] {
                Order::Less
            } else {
                Order::Greater
            }
        } else {
            Order::Greater
        }
    } else if n < y.len() {
        Order::Less
    } else {
        assert(x@ =~= y@);
        Order::Same
    }
}

/// Whether two texts are equal.
pub fn same(a: &str, b: &str) -> (eq: bool)
    ensures
        eq == (a@ == b@),
{
    match order(a, b) {
        Order::Same => true,
        _ => false,
    }
}

/// The digit for a value below sixteen.
pub open spec fn digit(d: int) -> char {
    if d == 0 {
        '0'
    } else if d == 1 {
        '1'
    } else if d == 2 {
        '2'
    } else if d == 3 {
        '3'
    } else if d == 4 {
        '4'
    } else if d == 5 {
        '5'
    } else if d == 6 {
        '6'
    } else if d == 7 {
        '7'
    } else if d == 8 {
        '8'
    } else if d == 9 {
        '9'
    } else if d == 10 {
        'a'
    } else if d == 11 {
        'b'
    } else if d == 12 {
        'c'
    } else if d == 13 {
        'd'
    } else if d == 14 {
        'e'
    } else {
        'f'
    }
}

/// A number in decimal notation.
pub open spec fn decimal(n: nat) -> Seq<char>
    decreases n,
{
    if n < 10 {
        seq![digit(n as int)]
    } else {
        decimal(n / 10).push(digit(n as int % 10))
    }
}

/// The digit for a value below sixteen.
pub fn digit_char(d: u8) -> (c: char)
    requires
        d < 16,
    ensures
        c == digit(d as int),
{
    match d {
        0 => '0',
        1 => '1',
        2 => '2',
        3 => '3',
        4 => '4',
        5 => '5',
        6 => '6',
        7 => '7',
        8 => '8',
        9 => '9',
        10 => 'a',
        11 => 'b',
        12 => 'c',
        13 => 'd',
        14 => 'e',
        _ => 'f',
    }
}

/// Writes a number in decimal.
pub fn to_decimal(n: u64) -> (s: String)
    ensures
        s@ == decimal(n as nat),
    decreases n,
{
    if n < 10 {
        let mut s = String::new();
        s.push(digit_char(n as u8));
        assert(s@ =~= decimal(n as nat));
        s
    } else {
        let mut s = to_decimal(n / 10);
        s.push(digit_char((n % 10) as u8));
        s
    }
}

/// A copy of a list of texts.
pub fn copy_all(list: &[String]) -> (copy: Vec<String>)
    ensures
        copy@ == list@,
{
    let mut copy: Vec<String> = Vec::new();
    let mut i: usize = 0;
    while i < list.len()
        invariant
            i <= list@.len(),
            copy@ =~= list@.take(i as int),
        decreases list@.len() - i,
    {
        copy.push(list[i].clone());
        i = i + 1;
    }
    assert(list@.take(list@.len() as int) =~= list@);
    copy
}

/// Whether a list of texts holds `text`.
pub fn holds(list: &[String], text: &str) -> (found: bool)
    ensures
        found == views(list@).contains(text@),
{
    let mut i: usize = 0;
    while i < list.len()
        invariant
            i <= list@.len(),
            forall|j: int| 0 <= j < i ==> (#[trigger] list@[j])@ != text@,
        decreases list@.len() - i,
    {
        if same(list[i].as_str(), text) {
            assert(views(list@)[i as int] == text@);
            return true;
        }
        i = i + 1;
    }
    proof {
        if views(list@).contains(text@) {
            let j = views(list@).index_of(text@);
            assert(list@[j]@ == text@);
        }
    }
    false
}

/// Whether a text holds a character.
pub fn has_char(s: &str, c: char) -> (found: bool)
    ensures
        found == s@.contains(c),
{
    let x = to_chars(s);
    let mut i: usize = 0;
    while i < x.len()
        invariant
            i <= x@.len(),
            x@ == s@,
            forall|j: int| 0 <= j < i ==> x@[j] != c,
        decreases x@.len() - i,
    {
        if x[i] == c {
            assert(x@[i as int] == c);
            return true;
        }
        i = i + 1;
    }
    false
}

/// Whether `s` begins with `p`.
pub open spec fn has_prefix(s: Seq<char>, p: Seq<char>) -> bool {
    p.len() <= s.len() && s.take(p.len() as int) == p
}

/// Whether `s` ends with `p`.
pub open spec fn has_suffix(s: Seq<char>, p: Seq<char>) -> bool {
    p.len() <= s.len() && s.skip(s.len() - p.len()) == p
}

/// Whether `p` stands in `s` from `i` on.
pub open spec fn occurs_at(s: Seq<char>, p: Seq<char>, i: int) -> bool {
    0 <= i && i + p.len() <= s.len() && s.subrange(i, i + p.len()) == p
}

/// Whether `p` stands somewhere in `s`.
pub open spec fn has_text(s: Seq<char>, p: Seq<char>) -> bool {
    exists|i: int| occurs_at(s, p, i)
}

fn matches_at(x: &[char], p: &[char], i: usize) -> (found: bool)
    requires
        i + p@.len() <= x@.len(),
    ensures
        found == occurs_at(x@, p@, i as int),
{
    let total = x.len();
    let mut k: usize = 0;
    while k < p.len()
        invariant
            k <= p@.len(),
            i + p@.len() <= x@.len(),
            total == x@.len(),
            forall|j: int| 0 <= j < k ==> x@[i + j] == p@[j],
        decreases p@.len() - k,
    {
        if x[i + k] != p[k] {
            assert(x@.subrange(i as int, i + p@.len())[k as int] != p@[k as int]);
            return false;
        }
        k = k + 1;
    }
    assert(x@.subrange(i as int, i + p@.len()) =~= p@);
    true
}

/// Whether `s` begins with `p`.
pub fn starts_with(s: &str, p: &str) -> (yes: bool)
    ensures
        yes == has_prefix(s@, p@),
{
    let x = to_chars(s);
    let y = to_chars(p);
    assert(y@.len() <= x@.len() ==> x@.subrange(0, y@.len() as int) =~= x@.take(y@.len() as int));
    y.len() <= x.len() && matches_at(&x, &y, 0)
}

/// Whether `s` ends with `p`.
pub fn ends_with(s: &str, p: &str) -> (yes: bool)
    ensures
        yes == has_suffix(s@, p@),
{
    let x = to_chars(s);
    let y = to_chars(p);
    if y.len() <= x.len() {
        assert(x@.subrange(x@.len() - y@.len(), x@.len() as int) =~= x@.skip(x@.len() - y@.len()));
        matches_at(&x, &y, x.len() - y.len())
    } else {
        false
    }
}

/// What follows `p` in a text that begins with it.
pub fn strip_prefix(s: &str, p: &str) -> (rest: Option<String>)
    ensures
        match rest {
            Some(r) => has_prefix(s@, p@) && r@ == s@.skip(p@.len() as int),
            None => !has_prefix(s@, p@),
        },
{
    if starts_with(s, p) {
        let x = to_chars(s);
        let n = to_chars(p).len();
        assert(x@.subrange(n as int, x@.len() as int) =~= x@.skip(n as int));
        Some(from_chars(&x[n..x.len()]))
    } else {
        None
    }
}

/// What precedes `p` in a text that ends with it.
pub fn strip_suffix(s: &str, p: &str) -> (rest: Option<String>)
    ensures
        match rest {
            Some(r) => has_suffix(s@, p@) && r@ == s@.take(s@.len() - p@.len()),
            None => !has_suffix(s@, p@),
        },
{
    if ends_with(s, p) {
        let x = to_chars(s);
        let n = x.len() - to_chars(p).len();
        assert(x@.subrange(0, n as int) =~= x@.take(n as int));
        Some(from_chars(&x[0..n]))
    } else {
        None
    }
}

/// Whether `p` stands somewhere in `s`.
pub fn contains(s: &str, p: &str) -> (yes: bool)
    ensures
        yes == has_text(s@, p@),
{
    let x = to_chars(s);
    let y = to_chars(p);
    let mut i: usize = 0;
    while y.len() <= x.len() - i
        invariant
            i <= x@.len(),
            x@ == s@,
            y@ == p@,
            forall|j: int| 0 <= j < i ==> !#[trigger] occurs_at(x@, y@, j),
        decreases x@.len() - i,
    {
        if matches_at(&x, &y, i) {
            return true;
        }
        if i == x.len() {
            proof {
                if has_text(s@, p@) {
                    let j = choose|j: int| occurs_at(s@, p@, j);
                    assert(j <= i);
                }
            }
            return false;
        }
        i = i + 1;
    }
    proof {
        if has_text(s@, p@) {
            let j = choose|j: int| occurs_at(s@, p@, j);
            assert(j < i);
        }
    }
    false
}

/// Whether `i` is the first place where `p` stands in `s`.
pub open spec fn first_at(s: Seq<char>, p: Seq<char>, i: int) -> bool {
    occurs_at(s, p, i) && forall|j: int| 0 <= j < i ==> !#[trigger] occurs_at(s, p, j)
}

/// What stands before and after the first `p` in `s`, if there is one.
pub open spec fn cut(s: Seq<char>, p: Seq<char>) -> Option<(Seq<char>, Seq<char>)> {
    if has_text(s, p) {
        let i = choose|i: int| first_at(s, p, i);
        Some((s.take(i), s.skip(i + p.len())))
    } else {
        None
    }
}

/// Cuts a text at the first `p` in it.
pub fn split_once(s: &str, p: &str) -> (parts: Option<(String, String)>)
    ensures
        match parts {
            Some((a, b)) => cut(s@, p@) == Some((a@, b@)),
            None => cut(s@, p@) is None,
        },
{
    let x = to_chars(s);
    let y = to_chars(p);
    let mut i: usize = 0;
    while y.len() <= x.len() - i
        invariant
            i <= x@.len(),
            x@ == s@,
            y@ == p@,
            forall|j: int| 0 <= j < i ==> !#[trigger] occurs_at(x@, y@, j),
        decreases x@.len() - i,
    {
        if matches_at(&x, &y, i) {
            proof {
                assert(first_at(s@, p@, i as int));
                let k = choose|k: int| first_at(s@, p@, k);
                assert(k == i);
                assert(s@.take(i as int) =~= x@.subrange(0, i as int));
                assert(s@.skip(i + p@.len()) =~= x@.subrange(i + p@.len(), x@.len() as int));
            }
            return Some((from_chars(&x[0..i]), from_chars(&x[i + y.len()..x.len()])));
        }
        if i == x.len() {
            proof {
                if has_text(s@, p@) {
                    let j = choose|j: int| occurs_at(s@, p@, j);
                    assert(j <= i);
                }
            }
            return None;
        }
        i = i + 1;
    }
    proof {
        if has_text(s@, p@) {
            let j = choose|j: int| occurs_at(s@, p@, j);
            assert(j < i);
        }
    }
    None
}

/// The text with every `from` replaced by `to`.
pub open spec fn replaced(s: Seq<char>, from: char, to: char) -> Seq<char> {
    s.map_values(
        |c: char|
            if c == from {
                to
            } else {
                c
            },
    )
}

/// The text with every `from` replaced by `to`.
pub fn replace_char(s: &str, from: char, to: char) -> (r: String)
    ensures
        r@ == replaced(s@, from, to),
{
    let x = to_chars(s);
    let mut r = String::new();
    let mut i: usize = 0;
    while i < x.len()
        invariant
            i <= x@.len(),
            r@ =~= replaced(x@.take(i as int), from, to),
        decreases x@.len() - i,
    {
        r.push(
            if x[i] == from {
                to
            } else {
                x[i]
            },
        );
        assert(x@.take(i + 1) =~= x@.take(i as int).push(x@[i as int]));
        i = i + 1;
    }
    assert(x@.take(x@.len() as int) =~= x@);
    r
}

/// The stretches of `s` between its separators, empty ones too.
pub open spec fn split(s: Seq<char>, sep: char) -> Seq<Seq<char>>
    decreases s.len(),
{
    if s.len() == 0 {
        seq![Seq::<char>::empty()]
    } else {
        let before = split(s.drop_last(), sep);
        if s.last() == sep {
            before.push(Seq::empty())
        } else {
            before.drop_last().push(before.last().push(s.last()))
        }
    }
}

pub proof fn lemma_split_not_empty(s: Seq<char>, sep: char)
    ensures
        split(s, sep).len() > 0,
    decreases s.len(),
{
    if s.len() > 0 {
        lemma_split_not_empty(s.drop_last(), sep);
    }
}

/// Splitting at a separator: the parts before it, then the parts after it.
pub proof fn lemma_split_concat(a: Seq<char>, sep: char, b: Seq<char>)
    ensures
        split(a + seq![sep] + b, sep) == split(a, sep) + split(b, sep),
    decreases b.len(),
{
    let s = a + seq![sep] + b;
    lemma_split_not_empty(a, sep);
    lemma_split_not_empty(b, sep);
    if b.len() == 0 {
        assert(s.drop_last() =~= a);
        assert(split(s, sep) =~= split(a, sep) + split(b, sep));
    } else {
        let c = b.drop_last();
        assert(s.drop_last() =~= a + seq![sep] + c);
        lemma_split_concat(a, sep, c);
        lemma_split_not_empty(c, sep);
        assert(split(s, sep) =~= split(a, sep) + split(b, sep));
    }
}

/// A text without the separator is its own only part.
pub proof fn lemma_split_single(s: Seq<char>, sep: char)
    requires
        !s.contains(sep),
    ensures
        split(s, sep) == seq![s],
    decreases s.len(),
{
    if s.len() > 0 {
        assert(s[s.len() - 1] == s.last());
        assert(s.contains(s.last()));
        assert forall|i: int| 0 <= i < s.drop_last().len() implies s.drop_last()[i] != sep by {
            assert(s.contains(s[i]));
        }
        lemma_split_single(s.drop_last(), sep);
        assert(s.drop_last().push(s.last()) =~= s);
    } else {
        assert(s =~= Seq::<char>::empty());
    }
    assert(split(s, sep) =~= seq![s]);
}

/// No part of a split text holds the separator.
pub proof fn lemma_split_parts(s: Seq<char>, sep: char)
    ensures
        forall|i: int| 0 <= i < split(s, sep).len() ==> !(#[trigger] split(s, sep)[i]).contains(sep),
    decreases s.len(),
{
    if s.len() > 0 {
        lemma_split_parts(s.drop_last(), sep);
        lemma_split_not_empty(s.drop_last(), sep);
        let before = split(s.drop_last(), sep);
        assert forall|i: int| 0 <= i < split(s, sep).len() implies !(#[trigger] split(
            s,
            sep,
        )[i]).contains(sep) by {
            let part = split(s, sep)[i];
            if s.last() != sep && i == before.len() - 1 {
                if part.contains(sep) {
                    let k = part.index_of(sep);
                    assert(before.last()[k] == sep);
                    assert(before[before.len() - 1].contains(sep));
                }
            } else if i < before.len() {
                assert(part == before[i]);
            }
        }
    }
}

/// Splits a text at every separator.
pub fn split_at_char(s: &str, sep: char) -> (parts: Vec<String>)
    ensures
        views(parts@) == split(s@, sep),
{
    let x = to_chars(s);
    let mut done: Vec<String> = Vec::new();
    let mut current = String::new();
    let mut i: usize = 0;
    assert(x@.take(0) =~= Seq::<char>::empty());
    assert(views(done@).push(current@) =~= seq![Seq::<char>::empty()]);
    while i < x.len()
        invariant
            i <= x@.len(),
            views(done@).push(current@) =~= split(x@.take(i as int), sep),
        decreases x@.len() - i,
    {
        let ghost before = views(done@).push(current@);
        let ghost shorter = views(done@);
        assert(x@.take(i + 1).drop_last() =~= x@.take(i as int));
        assert(before.drop_last() =~= shorter);
        if x[i] == sep {
            done.push(current);
            current = String::new();
            assert(views(done@) =~= before);
        } else {
            current.push(x[i]);
        }
        i = i + 1;
    }
    assert(x@.take(x@.len() as int) =~= x@);
    let ghost last = current@;
    let ghost init = views(done@);
    done.push(current);
    assert(views(done@) =~= init.push(last));
    done
}

/// The parts with the separator between them.
pub open spec fn joined(parts: Seq<Seq<char>>, sep: Seq<char>) -> Seq<char>
    decreases parts.len(),
{
    if parts.len() == 0 {
        Seq::empty()
    } else if parts.len() == 1 {
        parts[0]
    } else {
        joined(parts.drop_last(), sep) + sep + parts.last()
    }
}

/// Joins the parts with a separator.
pub fn join(parts: &[String], sep: &str) -> (s: String)
    ensures
        s@ == joined(views(parts@), sep@),
{
    let mut s = String::new();
    let mut i: usize = 0;
    let ghost all = views(parts@);
    while i < parts.len()
        invariant
            i <= parts@.len(),
            all == views(parts@),
            s@ == joined(all.take(i as int), sep@),
        decreases parts@.len() - i,
    {
        assert(all.take(i + 1).drop_last() =~= all.take(i as int));
        if i > 0 {
            s.append(sep);
        }
        s.append(parts[i].as_str());
        assert(i == 0 ==> s@ =~= all[0]);
        i = i + 1;
    }
    assert(all.take(all.len() as int) =~= all);
    s
}

/// Joining what was split gives the text back.
pub proof fn lemma_join_split(s: Seq<char>, sep: char)
    ensures
        joined(split(s, sep), seq![sep]) == s,
    decreases s.len(),
{
    if s.len() > 0 {
        lemma_join_split(s.drop_last(), sep);
        lemma_split_not_empty(s.drop_last(), sep);
        let before = split(s.drop_last(), sep);
        let after = split(s, sep);
        if s.last() == sep {
            assert(after.drop_last() =~= before);
            assert(joined(after, seq![sep]) =~= joined(before, seq![sep]) + seq![sep]);
        } else {
            assert(after.drop_last() =~= before.drop_last());
            assert(joined(after, seq![sep]) =~= joined(before, seq![sep]).push(s.last()));
        }
        assert(s.drop_last().push(s.last()) =~= s);
    }
    assert(joined(split(s, sep), seq![sep]) =~= s);
}

/// A line without its trailing carriage return.
pub open spec fn chomped(line: Seq<char>) -> Seq<char> {
    if line.len() > 0 && line.last() == '\r' {
        line.drop_last()
    } else {
        line
    }
}

/// The lines of a text: each runs up to a line feed, and a carriage return
/// before that belongs to the line ending. What follows the last line feed is
/// a line if there is anything.
pub open spec fn lines(s: Seq<char>) -> Seq<Seq<char>> {
    let parts = split(s, '\n');
    let ended = parts.drop_last().map_values(|l: Seq<char>| chomped(l));
    if parts.last().len() == 0 {
        ended
    } else {
        ended.push(parts.last())
    }
}

/// Splits a text into lines.
pub fn split_lines(s: &str) -> (list: Vec<String>)
    ensures
        views(list@) == lines(s@),
{
    let parts = split_at_char(s, '\n');
    let ghost all = split(s@, '\n');
    let mut list: Vec<String> = Vec::new();
    proof {
        lemma_split_not_empty(s@, '\n');
        assert(parts@.len() == all.len());
    }
    let last = parts.len() - 1;
    let mut i: usize = 0;
    while i < last
        invariant
            i <= last,
            last == parts@.len() - 1,
            views(parts@) == all,
            views(list@) =~= all.take(i as int).map_values(|l: Seq<char>| chomped(l)),
        decreases last - i,
    {
        let line = &parts[i];
        let ghost before = list@;
        assert(all[i as int] == line@);
        proof {
            reveal_strlit("\r");
        }
        match strip_suffix(line.as_str(), "\r") {
            Some(bare) => {
                assert(line@.skip(line@.len() - 1)[0] == line@.last());
                assert(bare@ == chomped(line@)) by {
                    assert(line@.take(line@.len() - 1) =~= line@.drop_last());
                }
                list.push(bare);
            },
            None => {
                proof {
                    if line@.len() > 0 && line@.last() == '\r' {
                        assert(line@.skip(line@.len() - 1) =~= "\r"@);
                    }
                }
                list.push(line.clone());
            },
        }
        assert(views(list@) =~= views(before).push(chomped(line@)));
        assert(all.take(i + 1) =~= all.take(i as int).push(line@));
        i = i + 1;
    }
    assert(all.take(last as int) =~= all.drop_last());
    assert(all.last() == parts@[last as int]@);
    if !parts[last].as_str().is_empty() {
        let ghost before = list@;
        list.push(parts[last].clone());
        assert(views(list@) =~= views(before).push(all.last()));
    }
    list
}

/// Unicode white space.
pub open spec fn is_white(c: char) -> bool {
    ||| '\u{9}' <= c <= '\u{d}'
    ||| c == '\u{20}'
    ||| c == '\u{85}'
    ||| c == '\u{a0}'
    ||| c == '\u{1680}'
    ||| '\u{2000}' <= c <= '\u{200a}'
    ||| c == '\u{2028}'
    ||| c == '\u{2029}'
    ||| c == '\u{202f}'
    ||| c == '\u{205f}'
    ||| c == '\u{3000}'
}

/// Whether a character is Unicode white space.
pub fn white(c: char) -> (yes: bool)
    ensures
        yes == is_white(c),
{
    ('\u{9}' <= c && c <= '\u{d}') || c == '\u{20}' || c == '\u{85}' || c == '\u{a0}' || c
        == '\u{1680}' || ('\u{2000}' <= c && c <= '\u{200a}') || c == '\u{2028}' || c == '\u{2029}'
        || c == '\u{202f}' || c == '\u{205f}' || c == '\u{3000}'
}

/// The text without the characters at its end that `drop` picks out.
pub open spec fn trimmed_end(s: Seq<char>, drop: spec_fn(char) -> bool) -> Seq<char>
    decreases s.len(),
{
    if s.len() > 0 && drop(s.last()) {
        trimmed_end(s.drop_last(), drop)
    } else {
        s
    }
}

/// The text without the characters at its start that `drop` picks out.
pub open spec fn trimmed_start(s: Seq<char>, drop: spec_fn(char) -> bool) -> Seq<char>
    decreases s.len(),
{
    if s.len() > 0 && drop(s[0]) {
        trimmed_start(s.skip(1), drop)
    } else {
        s
    }
}

/// The text without white space around it.
pub open spec fn trimmed(s: Seq<char>) -> Seq<char> {
    trimmed_end(trimmed_start(s, |c: char| is_white(c)), |c: char| is_white(c))
}

/// Picks out one character.
pub open spec fn is_just(c: char) -> spec_fn(char) -> bool {
    |d: char| d == c
}

/// The text without `c` around it.
pub open spec fn trimmed_of(s: Seq<char>, c: char) -> Seq<char> {
    trimmed_end(trimmed_start(s, is_just(c)), is_just(c))
}

/// Removes white space around a text.
pub fn trim(s: &str) -> (t: String)
    ensures
        t@ == trimmed(s@),
{
    let x = to_chars(s);
    let ghost drop = |c: char| is_white(c);
    let mut start: usize = 0;
    assert(x@.skip(0) =~= x@);
    while start < x.len() && white(x[start])
        invariant
            start <= x@.len(),
            drop == (|c: char| is_white(c)),
            trimmed_start(x@, drop) == trimmed_start(x@.skip(start as int), drop),
        decreases x@.len() - start,
    {
        assert(x@.skip(start as int).skip(1) =~= x@.skip(start + 1));
        start = start + 1;
    }
    let ghost rest = x@.skip(start as int);
    let mut end: usize = x.len();
    assert(rest.take(end - start) =~= rest);
    while end > start && white(x[end - 1])
        invariant
            start <= end <= x@.len(),
            rest == x@.skip(start as int),
            drop == (|c: char| is_white(c)),
            trimmed_end(rest, drop) == trimmed_end(rest.take(end - start), drop),
        decreases end,
    {
        assert(rest.take(end - start).drop_last() =~= rest.take(end - start - 1));
        end = end - 1;
    }
    assert(rest.take(end - start) =~= x@.subrange(start as int, end as int));
    from_chars(&x[start..end])
}

/// Removes every `c` around a text.
pub fn trim_of(s: &str, c: char) -> (t: String)
    ensures
        t@ == trimmed_of(s@, c),
{
    let x = to_chars(s);
    let ghost drop = is_just(c);
    let mut start: usize = 0;
    assert(x@.skip(0) =~= x@);
    while start < x.len() && x[start] == c
        invariant
            start <= x@.len(),
            drop == is_just(c),
            trimmed_start(x@, drop) == trimmed_start(x@.skip(start as int), drop),
        decreases x@.len() - start,
    {
        assert(x@.skip(start as int).skip(1) =~= x@.skip(start + 1));
        start = start + 1;
    }
    let ghost rest = x@.skip(start as int);
    let mut end: usize = x.len();
    assert(rest.take(end - start) =~= rest);
    while end > start && x[end - 1] == c
        invariant
            start <= end <= x@.len(),
            rest == x@.skip(start as int),
            drop == is_just(c),
            trimmed_end(rest, drop) == trimmed_end(rest.take(end - start), drop),
        decreases end,
    {
        assert(rest.take(end - start).drop_last() =~= rest.take(end - start - 1));
        end = end - 1;
    }
    assert(rest.take(end - start) =~= x@.subrange(start as int, end as int));
    from_chars(&x[start..end])
}

/// The lowercase of an ASCII letter; any other character as it is.
pub open spec fn lower_char(c: char) -> char {
    if c == 'A' {
        'a'
    } else if c == 'B' {
        'b'
    } else if c == 'C' {
        'c'
    } else if c == 'D' {
        'd'
    } else if c == 'E' {
        'e'
    } else if c == 'F' {
        'f'
    } else if c == 'G' {
        'g'
    } else if c == 'H' {
        'h'
    } else if c == 'I' {
        'i'
    } else if c == 'J' {
        'j'
    } else if c == 'K' {
        'k'
    } else if c == 'L' {
        'l'
    } else if c == 'M' {
        'm'
    } else if c == 'N' {
        'n'
    } else if c == 'O' {
        'o'
    } else if c == 'P' {
        'p'
    } else if c == 'Q' {
        'q'
    } else if c == 'R' {
        'r'
    } else if c == 'S' {
        's'
    } else if c == 'T' {
        't'
    } else if c == 'U' {
        'u'
    } else if c == 'V' {
        'v'
    } else if c == 'W' {
        'w'
    } else if c == 'X' {
        'x'
    } else if c == 'Y' {
        'y'
    } else if c == 'Z' {
        'z'
    } else {
        c
    }
}

/// The text with its ASCII letters in lowercase.
pub open spec fn lowered(s: Seq<char>) -> Seq<char> {
    s.map_values(|c: char| lower_char(c))
}

fn lower_one(c: char) -> (l: char)
    ensures
        l == lower_char(c),
{
    match c {
        'A' => 'a',
        'B' => 'b',
        'C' => 'c',
        'D' => 'd',
        'E' => 'e',
        'F' => 'f',
        'G' => 'g',
        'H' => 'h',
        'I' => 'i',
        'J' => 'j',
        'K' => 'k',
        'L' => 'l',
        'M' => 'm',
        'N' => 'n',
        'O' => 'o',
        'P' => 'p',
        'Q' => 'q',
        'R' => 'r',
        'S' => 's',
        'T' => 't',
        'U' => 'u',
        'V' => 'v',
        'W' => 'w',
        'X' => 'x',
        'Y' => 'y',
        'Z' => 'z',
        _ => c,
    }
}

/// The text with its ASCII letters in lowercase.
pub fn lower(s: &str) -> (t: String)
    ensures
        t@ == lowered(s@),
{
    let x = to_chars(s);
    let mut t = String::new();
    let mut i: usize = 0;
    while i < x.len()
        invariant
            i <= x@.len(),
            t@ =~= lowered(x@.take(i as int)),
        decreases x@.len() - i,
    {
        t.push(lower_one(x[i]));
        assert(x@.take(i + 1) =~= x@.take(i as int).push(x@[i as int]));
        i = i + 1;
    }
    assert(x@.take(x@.len() as int) =~= x@);
    t
}

/// Whether a text is all ASCII.
pub open spec fn all_ascii(s: Seq<char>) -> bool {
    forall|i: int| 0 <= i < s.len() ==> #[trigger] s[i] <= '\u{7f}'
}

/// A text in lowercase, by Unicode's rules.
pub uninterp spec fn lowercase(text: Seq<char>) -> Seq<char>;

/// Calls `str::to_lowercase`.
///
/// Believed of std: the result is a function of the text alone, and is in
/// lowercase itself: lowercasing it again changes nothing. Of ASCII text only the
/// letters change, each to its own lowercase.
#[verifier::external_body]
pub(crate) fn to_lowercase(text: &str) -> (low: String)
    ensures
        low@ == lowercase(text@),
        lowercase(low@) == low@,
        all_ascii(text@) ==> low@ == lowered(text@),
{
    text.to_lowercase()
}

/// Puts a text into an ascending list, unless it is there.
pub fn insert_sorted(list: &mut Vec<String>, text: String)
    requires
        ascending(views(old(list)@)),
    ensures
        ascending(views(final(list)@)),
        forall|t: Seq<char>| #[trigger]
            views(final(list)@).contains(t) <==> views(old(list)@).contains(t) || t == text@,
{
    let ghost before = views(list@);
    let mut at: usize = 0;
    while at < list.len()
        invariant
            at <= list@.len(),
            *list == *old(list),
            before == views(list@),
            ascending(before),
            forall|j: int| 0 <= j < at ==> text_lt(#[trigger] before[j], text@),
        ensures
            at < list@.len() ==> text_lt(text@, before[at as int]),
        decreases list@.len() - at,
    {
        assert(before[at as int] == list@[at as int]@);
        match order(list[at].as_str(), text.as_str()) {
            Order::Less => {},
            Order::Same => {
                assert(before.contains(before[at as int]));
                return;
            },
            Order::Greater => {
                break;
            },
        }
        at = at + 1;
    }
    proof {
        assert forall|j: int| at <= j < before.len() implies text_lt(
            text@,
            #[trigger] before[j],
        ) by {
            if j > at {
                assert(text_lt(before[at as int], before[j]));
                lemma_text_lt_transitive(text@, before[at as int], before[j]);
            }
        }
    }
    let ghost value = text@;
    list.insert(at, text);
    proof {
        let after = views(list@);
        assert(after =~= before.insert(at as int, value));
        assert forall|i: int, j: int| 0 <= i < j < after.len() implies #[trigger] text_lt(
            after[i],
            after[j],
        ) by {
            if i != at && j != at {
                let a = if i < at { i } else { i - 1 };
                let b = if j < at { j } else { j - 1 };
                assert(text_lt(before[a], before[b]));
            }
        }
        assert forall|t: Seq<char>| #[trigger] after.contains(t) <==> before.contains(t) || t
            == value by {
            if before.contains(t) {
                let k = before.index_of(t);
                assert(after[if k < at { k } else { k + 1 }] == t);
            }
            if t == value {
                assert(after[at as int] == t);
            }
            if after.contains(t) {
                let k = after.index_of(t);
                if k != at {
                    assert(before[if k < at { k } else { k - 1 }] == t);
                }
            }
        }
    }
}

/// The lines, each with a line feed after it.
pub open spec fn unlines(list: Seq<Seq<char>>) -> Seq<char>
    decreases list.len(),
{
    if list.len() == 0 {
        Seq::empty()
    } else {
        unlines(list.drop_last()) + list.last() + seq!['\n']
    }
}

/// Writes lines, each with a line feed after it.
pub fn write_lines(list: &[String]) -> (s: String)
    ensures
        s@ == unlines(views(list@)),
{
    let mut s = String::new();
    let ghost all = views(list@);
    let mut i: usize = 0;
    while i < list.len()
        invariant
            i <= list@.len(),
            all == views(list@),
            s@ =~= unlines(all.take(i as int)),
        decreases list@.len() - i,
    {
        assert(all.take(i + 1).drop_last() =~= all.take(i as int));
        s.append(list[i].as_str());
        s.push('\n');
        i = i + 1;
    }
    assert(all.take(all.len() as int) =~= all);
    s
}

/// The lines of a text, each with its line ending: they end after every line
/// feed, and what follows the last one is a line if there is anything.
pub open spec fn pieces(s: Seq<char>) -> Seq<Seq<char>>
    decreases s.len(),
{
    if s.len() == 0 {
        Seq::empty()
    } else {
        let before = pieces(s.drop_last());
        if before.len() == 0 || is_ended(before.last()) {
            before.push(seq![s.last()])
        } else {
            before.drop_last().push(before.last().push(s.last()))
        }
    }
}

/// Whether a line ends in a line feed.
pub open spec fn is_ended(line: Seq<char>) -> bool {
    line.len() > 0 && line.last() == '\n'
}

/// The texts one after the other.
pub open spec fn flat(list: Seq<Seq<char>>) -> Seq<char>
    decreases list.len(),
{
    if list.len() == 0 {
        Seq::empty()
    } else {
        flat(list.drop_last()) + list.last()
    }
}

/// Splits a text into lines, each with its line ending.
pub fn split_pieces(s: &str) -> (list: Vec<String>)
    ensures
        views(list@) == pieces(s@),
{
    let x = to_chars(s);
    let mut done: Vec<String> = Vec::new();
    let mut i: usize = 0;
    assert(views(done@) =~= pieces(x@.take(0)));
    let mut open = false;
    while i < x.len()
        invariant
            i <= x@.len(),
            views(done@) == pieces(x@.take(i as int)),
            open == (done@.len() > 0 && !is_ended(done@.last()@)),
        decreases x@.len() - i,
    {
        let ghost before = views(done@);
        assert(x@.take(i + 1).drop_last() =~= x@.take(i as int));
        assert(x@.take(i + 1).last() == x@[i as int]);
        let c = x[i];
        assert(before.len() > 0 ==> before.last() == done@.last()@);
        if open {
            let mut line = match done.pop() {
                Some(l) => l,
                None => String::new(),
            };
            assert(line@ == before.last());
            assert(views(done@) =~= before.drop_last());
            line.push(c);
            let ghost longer = line@;
            let ghost rest = views(done@);
            done.push(line);
            assert(views(done@) =~= rest.push(longer));
        } else {
            let mut line = String::new();
            line.push(c);
            assert(line@ =~= seq![c]);
            let ghost fresh = line@;
            done.push(line);
            assert(views(done@) =~= before.push(fresh));
        }
        open = c != '\n';
        i = i + 1;
    }
    assert(x@.take(x@.len() as int) =~= x@);
    done
}

/// Writes texts one after the other.
pub fn write_pieces(list: &[String]) -> (s: String)
    ensures
        s@ == flat(views(list@)),
{
    let mut s = String::new();
    let ghost all = views(list@);
    let mut i: usize = 0;
    while i < list.len()
        invariant
            i <= list@.len(),
            all == views(list@),
            s@ =~= flat(all.take(i as int)),
        decreases list@.len() - i,
    {
        assert(all.take(i + 1).drop_last() =~= all.take(i as int));
        s.append(list[i].as_str());
        i = i + 1;
    }
    assert(all.take(all.len() as int) =~= all);
    s
}

/// A line holds a line feed at its end or nowhere.
pub open spec fn is_piece(line: Seq<char>) -> bool {
    line.len() > 0 && forall|i: int| 0 <= i < line.len() - 1 ==> #[trigger] line[i] != '\n'
}

/// Lines that are read back as they were written: every one but the last ends
/// in a line feed.
pub open spec fn are_pieces(list: Seq<Seq<char>>) -> bool {
    &&& forall|i: int| 0 <= i < list.len() ==> is_piece(#[trigger] list[i])
    &&& forall|i: int| 0 <= i < list.len() - 1 ==> is_ended(#[trigger] list[i])
}

/// Splitting a text into lines loses nothing.
pub proof fn lemma_flat_pieces(s: Seq<char>)
    ensures
        flat(pieces(s)) == s,
        are_pieces(pieces(s)),
        s.len() > 0 ==> pieces(s).len() > 0 && pieces(s).last().last() == s.last(),
    decreases s.len(),
{
    if s.len() > 0 {
        let t = s.drop_last();
        lemma_flat_pieces(t);
        let before = pieces(t);
        let after = pieces(s);
        assert(t.push(s.last()) =~= s);
        if before.len() == 0 || is_ended(before.last()) {
            assert(after.drop_last() =~= before);
            assert(flat(after) =~= s);
            assert forall|i: int| 0 <= i < after.len() implies is_piece(#[trigger] after[i]) by {
                if i < before.len() {
                    assert(is_piece(before[i]));
                }
            }
            assert forall|i: int| 0 <= i < after.len() - 1 implies is_ended(
                #[trigger] after[i],
            ) by {
                if i < before.len() - 1 {
                    assert(is_ended(before[i]));
                }
            }
        } else {
            assert(after.drop_last() =~= before.drop_last());
            assert(flat(after) =~= s);
            let grown = before.last().push(s.last());
            assert(is_piece(before[before.len() - 1]));
            assert(is_piece(grown)) by {
                assert forall|i: int| 0 <= i < grown.len() - 1 implies #[trigger] grown[i]
                    != '\n' by {
                    if i < before.last().len() - 1 {
                        assert(before.last()[i] != '\n');
                    }
                }
            }
            assert forall|i: int| 0 <= i < after.len() implies is_piece(#[trigger] after[i]) by {
                if i < before.len() - 1 {
                    assert(is_piece(before[i]));
                }
            }
            assert forall|i: int| 0 <= i < after.len() - 1 implies is_ended(
                #[trigger] after[i],
            ) by {
                assert(is_ended(before[i]));
            }
        }
    } else {
        assert(flat(pieces(s)) =~= s);
    }
}

/// The lines of a text that begins with whole lines: theirs, then the rest's.
pub proof fn lemma_pieces_concat(a: Seq<char>, b: Seq<char>)
    requires
        a.len() == 0 || a.last() == '\n',
    ensures
        pieces(a + b) == pieces(a) + pieces(b),
    decreases b.len(),
{
    if b.len() == 0 {
        assert(a + b =~= a);
        assert(pieces(a) + pieces(b) =~= pieces(a));
    } else {
        let c = b.drop_last();
        assert((a + b).drop_last() =~= a + c);
        lemma_pieces_concat(a, c);
        lemma_flat_pieces(a);
        let before = pieces(a + c);
        if c.len() == 0 {
            assert(pieces(c) =~= Seq::<Seq<char>>::empty());
            assert(before =~= pieces(a));
            assert(pieces(a + b) =~= pieces(a) + pieces(b));
        } else {
            lemma_flat_pieces(c);
            assert(before.last() == pieces(c).last());
            assert(pieces(a + b) =~= pieces(a) + pieces(b));
        }
    }
}

/// A single line is its own only piece.
pub proof fn lemma_pieces_single(line: Seq<char>)
    requires
        is_piece(line),
    ensures
        pieces(line) == seq![line],
    decreases line.len(),
{
    let init = line.drop_last();
    if init.len() == 0 {
        assert(pieces(init) =~= Seq::<Seq<char>>::empty());
        assert(line =~= seq![line.last()]);
    } else {
        assert(init.last() == line[line.len() - 2]);
        assert forall|i: int| 0 <= i < init.len() - 1 implies #[trigger] init[i] != '\n' by {
            assert(line[i] != '\n');
        }
        lemma_pieces_single(init);
        assert(init.push(line.last()) =~= line);
    }
    assert(pieces(line) =~= seq![line]);
}

/// Lines that were written are read back as they were.
pub proof fn lemma_pieces_flat(list: Seq<Seq<char>>)
    requires
        are_pieces(list),
    ensures
        pieces(flat(list)) == list,
        list.len() > 0 ==> flat(list).len() > 0 && flat(list).last() == list.last().last(),
    decreases list.len(),
{
    if list.len() == 0 {
        assert(pieces(flat(list)) =~= list);
    } else {
        let init = list.drop_last();
        let line = list.last();
        assert(line == list[list.len() - 1]);
        assert(is_piece(line));
        assert forall|i: int| 0 <= i < init.len() implies is_piece(#[trigger] init[i]) by {
            assert(is_piece(list[i]));
        }
        assert forall|i: int| 0 <= i < init.len() - 1 implies is_ended(#[trigger] init[i]) by {
            assert(is_ended(list[i]));
        }
        lemma_pieces_flat(init);
        if init.len() > 0 {
            assert(is_ended(list[list.len() - 2]));
            assert(init.last() == list[list.len() - 2]);
        }
        lemma_pieces_concat(flat(init), line);
        lemma_pieces_single(line);
        assert(init + seq![line] =~= list);
    }
}

/// Trimming does not see a white character at the end.
pub proof fn lemma_trimmed_ignores_ending(s: Seq<char>, c: char)
    requires
        is_white(c),
    ensures
        trimmed(s.push(c)) == trimmed(s),
    decreases s.len(),
{
    let drop = |d: char| is_white(d);
    let t = s.push(c);
    if s.len() == 0 {
        assert(t.skip(1) =~= s);
        assert(trimmed_start(t, drop) == trimmed_start(t.skip(1), drop));
    } else if drop(s[0]) {
        assert(t[0] == s[0]);
        assert(t.skip(1) =~= s.skip(1).push(c));
        assert(trimmed_start(t, drop) == trimmed_start(t.skip(1), drop));
        assert(trimmed_start(s, drop) == trimmed_start(s.skip(1), drop));
        lemma_trimmed_ignores_ending(s.skip(1), c);
    } else {
        assert(t[0] == s[0]);
        assert(trimmed_start(t, drop) == t);
        assert(trimmed_start(s, drop) == s);
        assert(t.drop_last() =~= s);
        assert(trimmed_end(t, drop) == trimmed_end(t.drop_last(), drop));
    }
}

/// Trimming keeps a first character that is not white.
pub proof fn lemma_trimmed_keeps_first(s: Seq<char>)
    requires
        s.len() > 0,
        !is_white(s[0]),
    ensures
        trimmed(s).len() > 0,
        trimmed(s)[0] == s[0],
    decreases s.len(),
{
    let drop = |c: char| is_white(c);
    assert(trimmed_start(s, drop) == s);
    if drop(s.last()) {
        let t = s.drop_last();
        assert(s.len() > 1);
        assert(t[0] == s[0]);
        lemma_trimmed_keeps_first(t);
        assert(trimmed_start(t, drop) == t);
    }
}

/// Trimming keeps a last character that is not white.
pub proof fn lemma_trimmed_keeps_last(s: Seq<char>)
    requires
        s.len() > 0,
        !is_white(s.last()),
    ensures
        trimmed(s).len() > 0,
        trimmed(s).last() == s.last(),
    decreases s.len(),
{
    let drop = |c: char| is_white(c);
    if drop(s[0]) {
        assert(s.len() > 1);
        assert(s.skip(1).last() == s.last());
        lemma_trimmed_keeps_last(s.skip(1));
        assert(trimmed_start(s, drop) == trimmed_start(s.skip(1), drop));
    } else {
        assert(trimmed_start(s, drop) == s);
        assert(trimmed_end(s, drop) == s);
    }
}

/// Whether none of the first `n` characters is `c`.
pub open spec fn free_upto(s: Seq<char>, c: char, n: int) -> bool
    decreases n,
{
    n <= 0 || (s[n - 1] != c && free_upto(s, c, n - 1))
}

pub proof fn lemma_free(s: Seq<char>, c: char, n: int)
    requires
        free_upto(s, c, n),
        0 <= n <= s.len(),
    ensures
        forall|i: int| 0 <= i < n ==> s[i] != c,
    decreases n,
{
    if n > 0 {
        lemma_free(s, c, n - 1);
    }
}

/// Digits stand at their code points: the decimal ones from `0` on, the others
/// from `a` on.
pub proof fn law_digits_follow_each_other(d: int)
    requires
        0 <= d < 16,
    ensures
        digit(d) as u32 == if d < 10 {
            48 + d
        } else {
            87 + d
        },
{
}

/// Decimal notation: a number below ten is one digit, and multiplying by ten and
/// adding a digit writes that digit behind the number.
pub proof fn law_decimal_grows_by_its_last_digit(n: nat, d: nat, c: char)
    requires
        d < 10,
        c as u32 == 48 + d,
    ensures
        n == 0 ==> decimal(d) == seq![c],
        n > 0 ==> decimal(10 * n + d) == decimal(n) + seq![c],
{
    law_digits_follow_each_other(d as int);
    assert(digit(d as int) == c);
    if n > 0 {
        let m = 10 * n + d;
        assert(m / 10 == n && m % 10 == d);
        assert(decimal(m) =~= decimal(n) + seq![c]);
    }
}

/// Texts are ordered by the first place where they differ, and a text comes
/// before every longer one that begins with it.
pub proof fn law_first_difference_decides(
    p: Seq<char>,
    a: char,
    x: Seq<char>,
    b: char,
    y: Seq<char>,
)
    ensures
        a != b ==> (text_lt(p + seq![a] + x, p + seq![b] + y) <==> a < b),
        text_lt(p, p + seq![a] + x),
        !text_lt(p + seq![a] + x, p),
    decreases p.len(),
{
    let l = p + seq![a] + x;
    let r = p + seq![b] + y;
    if p.len() > 0 {
        law_first_difference_decides(p.skip(1), a, x, b, y);
        assert(l.skip(1) =~= p.skip(1) + seq![a] + x);
        assert(r.skip(1) =~= p.skip(1) + seq![b] + y);
        assert(l[0] == p[0] && r[0] == p[0]);
    } else {
        assert(l[0] == a && r[0] == b);
    }
}

proof fn lemma_stands_between(s: Seq<char>, a: Seq<char>, p: Seq<char>, b: Seq<char>)
    requires
        s == a + p + b,
    ensures
        occurs_at(s, p, a.len() as int),
{
    let n = a.len() as int;
    assert(s.subrange(n, n + p.len()) =~= p);
}

proof fn lemma_infix(s: Seq<char>, p: Seq<char>)
    ensures
        has_text(s, p) <==> exists|a: Seq<char>, b: Seq<char>| s == #[trigger] (a + p + b),
{
    if has_text(s, p) {
        let i = choose|i: int| occurs_at(s, p, i);
        assert(s =~= s.take(i) + p + s.skip(i + p.len()));
    }
    if exists|a: Seq<char>, b: Seq<char>| s == #[trigger] (a + p + b) {
        let (a, b) = choose|a: Seq<char>, b: Seq<char>| s == #[trigger] (a + p + b);
        lemma_stands_between(s, a, p, b);
    }
}

proof fn lemma_prefix(s: Seq<char>, p: Seq<char>)
    ensures
        has_prefix(s, p) <==> exists|t: Seq<char>| s == #[trigger] (p + t),
{
    if has_prefix(s, p) {
        assert(s =~= p + s.skip(p.len() as int));
    }
    if exists|t: Seq<char>| s == #[trigger] (p + t) {
        let t = choose|t: Seq<char>| s == #[trigger] (p + t);
        assert((p + t).take(p.len() as int) =~= p);
    }
}

proof fn lemma_suffix(s: Seq<char>, p: Seq<char>)
    ensures
        has_suffix(s, p) <==> exists|t: Seq<char>| s == #[trigger] (t + p),
{
    if has_suffix(s, p) {
        assert(s =~= s.take(s.len() - p.len()) + p);
    }
    if exists|t: Seq<char>| s == #[trigger] (t + p) {
        let t = choose|t: Seq<char>| s == #[trigger] (t + p);
        assert((t + p).skip(t.len() as int) =~= p);
    }
}

/// A text begins with another where it goes on from it, ends with another where
/// it leads up to it, and holds another where it does both.
pub proof fn law_prefix_suffix_and_infix(s: Seq<char>, p: Seq<char>)
    ensures
        has_prefix(s, p) <==> exists|t: Seq<char>| s == #[trigger] (p + t),
        has_suffix(s, p) <==> exists|t: Seq<char>| s == #[trigger] (t + p),
        has_text(s, p) <==> exists|a: Seq<char>, b: Seq<char>| s == #[trigger] (a + p + b),
{
    lemma_prefix(s, p);
    lemma_suffix(s, p);
    lemma_infix(s, p);
}

proof fn lemma_first_place(s: Seq<char>, p: Seq<char>, i: int) -> (j: int)
    requires
        occurs_at(s, p, i),
    ensures
        first_at(s, p, j),
        j <= i,
    decreases i,
{
    if exists|k: int| 0 <= k < i && #[trigger] occurs_at(s, p, k) {
        let k = choose|k: int| 0 <= k < i && #[trigger] occurs_at(s, p, k);
        lemma_first_place(s, p, k)
    } else {
        i
    }
}

proof fn lemma_nothing_earlier(s: Seq<char>, p: Seq<char>, i: int)
    requires
        first_at(s, p, i),
    ensures
        s == s.take(i) + p + s.skip(i + p.len()),
        forall|x: Seq<char>, y: Seq<char>| s == #[trigger] (x + p + y) ==> i <= x.len(),
{
    assert(s =~= s.take(i) + p + s.skip(i + p.len()));
    assert forall|x: Seq<char>, y: Seq<char>| s == #[trigger] (x + p + y) implies i <= x.len() by {
        lemma_stands_between(s, x, p, y);
    }
}

/// Cutting a text loses nothing and takes the first place: the two parts with
/// what was cut at between them are the text, no earlier place would do, and it
/// fails just where there is nowhere to cut.
pub proof fn law_cut_is_at_the_first_place(s: Seq<char>, p: Seq<char>)
    ensures
        cut(s, p) is None <==> !(exists|a: Seq<char>, b: Seq<char>| s == #[trigger] (a + p + b)),
        cut(s, p) matches Some((a, b)) ==> s == a + p + b && forall|x: Seq<char>, y: Seq<char>|
            s == #[trigger] (x + p + y) ==> a.len() <= x.len(),
{
    assert(cut(s, p) is None <==> !(exists|a: Seq<char>, b: Seq<char>| s == #[trigger] (a + p + b)))
        by {
        lemma_infix(s, p);
    }
    if has_text(s, p) {
        let k = choose|k: int| occurs_at(s, p, k);
        let j = lemma_first_place(s, p, k);
        let i = choose|i: int| first_at(s, p, i);
        lemma_nothing_earlier(s, p, i);
        assert(s.take(i).len() == i);
    }
}

/// Replacing a character goes place by place and touches no other.
pub proof fn law_replacing_goes_place_by_place(s: Seq<char>, from: char, to: char)
    ensures
        replaced(s, from, to).len() == s.len(),
        forall|i: int|
            0 <= i < s.len() ==> #[trigger] replaced(s, from, to)[i] == if s[i] == from {
                to
            } else {
                s[i]
            },
{
}

/// Joining puts the separator between two lists that are joined on their own, and
/// nowhere else.
pub proof fn law_joining_goes_part_by_part(a: Seq<Seq<char>>, b: Seq<Seq<char>>, sep: Seq<char>)
    requires
        a.len() > 0,
        b.len() > 0,
    ensures
        joined(a + b, sep) == joined(a, sep) + sep + joined(b, sep),
        a.len() == 1 ==> joined(a, sep) == a[0],
        joined(Seq::empty(), sep) == Seq::<char>::empty(),
    decreases b.len(),
{
    let all = a + b;
    assert(all.last() == b.last());
    assert(all.drop_last() =~= a + b.drop_last());
    if b.len() > 1 {
        law_joining_goes_part_by_part(a, b.drop_last(), sep);
        assert(joined(all, sep) =~= joined(a, sep) + sep + joined(b, sep));
    } else {
        assert(a + b.drop_last() =~= a);
        assert(joined(all, sep) =~= joined(a, sep) + sep + joined(b, sep));
    }
}

/// A text is read line by line: up to the first line feed stands its first line,
/// without a carriage return before the line feed, and the rest follows. A text
/// without a line feed is one line, an empty text is none.
pub proof fn law_lines_are_read_one_by_one(a: Seq<char>, b: Seq<char>)
    requires
        !a.contains('\n'),
    ensures
        lines(a + seq!['\n'] + b) == seq![
            if a.len() > 0 && a.last() == '\r' {
                a.drop_last()
            } else {
                a
            },
        ] + lines(b),
        lines(a) == if a.len() == 0 {
            Seq::<Seq<char>>::empty()
        } else {
            seq![a]
        },
{
    let chomp = |l: Seq<char>| chomped(l);
    lemma_split_concat(a, '\n', b);
    lemma_split_single(a, '\n');
    lemma_split_not_empty(b, '\n');
    let parts = split(b, '\n');
    let all = split(a + seq!['\n'] + b, '\n');
    assert(all =~= seq![a] + parts);
    assert(all.drop_last() =~= seq![a] + parts.drop_last());
    assert(all.last() == parts.last());
    assert(lines(a + seq!['\n'] + b) =~= seq![chomped(a)] + lines(b));
    assert(seq![a].drop_last() =~= Seq::<Seq<char>>::empty());
    assert(seq![a].last() == a);
    assert(lines(a) =~= if a.len() == 0 {
        Seq::<Seq<char>>::empty()
    } else {
        seq![a]
    });
}

/// Lines are written one after the other, each with a line feed.
pub proof fn law_lines_are_written_one_by_one(list: Seq<Seq<char>>, line: Seq<char>)
    ensures
        unlines(Seq::empty()) == Seq::<char>::empty(),
        unlines(list.push(line)) == unlines(list) + line + seq!['\n'],
        flat(Seq::empty()) == Seq::<char>::empty(),
        flat(list.push(line)) == flat(list) + line,
{
    assert(list.push(line).drop_last() =~= list);
}

proof fn lemma_trimmed_start_leaves(s: Seq<char>, drop: spec_fn(char) -> bool) -> (k: int)
    ensures
        0 <= k <= s.len(),
        trimmed_start(s, drop) == s.skip(k),
        forall|i: int| 0 <= i < k ==> drop(#[trigger] s[i]),
        k < s.len() ==> !drop(s[k]),
    decreases s.len(),
{
    if s.len() > 0 && drop(s[0]) {
        let k = lemma_trimmed_start_leaves(s.skip(1), drop);
        assert(s.skip(1).skip(k) =~= s.skip(k + 1));
        assert forall|i: int| 0 <= i < k + 1 implies drop(#[trigger] s[i]) by {
            if i > 0 {
                assert(s.skip(1)[i - 1] == s[i]);
            }
        }
        k + 1
    } else {
        assert(s.skip(0) =~= s);
        0
    }
}

proof fn lemma_trimmed_end_leaves(s: Seq<char>, drop: spec_fn(char) -> bool) -> (k: int)
    ensures
        0 <= k <= s.len(),
        trimmed_end(s, drop) == s.take(k),
        forall|i: int| k <= i < s.len() ==> drop(#[trigger] s[i]),
        k > 0 ==> !drop(s[k - 1]),
    decreases s.len(),
{
    if s.len() > 0 && drop(s.last()) {
        let k = lemma_trimmed_end_leaves(s.drop_last(), drop);
        assert(s.drop_last().take(k) =~= s.take(k));
        assert forall|i: int| k <= i < s.len() implies drop(#[trigger] s[i]) by {
            if i < s.len() - 1 {
                assert(s.drop_last()[i] == s[i]);
            }
        }
        k
    } else {
        assert(s.take(s.len() as int) =~= s);
        s.len() as int
    }
}

/// Trimming takes white space off both ends and nothing else, and leaves none
/// there. Among the ASCII characters the space and those from tab to carriage
/// return are white.
pub proof fn law_trimming_takes_the_white_ends(s: Seq<char>, c: char) -> (r: (int, int))
    ensures
        0 <= r.0 <= r.1 <= s.len(),
        trimmed(s) == s.subrange(r.0, r.1),
        forall|i: int| 0 <= i < s.len() && !(r.0 <= i < r.1) ==> is_white(#[trigger] s[i]),
        r.0 < r.1 ==> !is_white(s[r.0]) && !is_white(s[r.1 - 1]),
        c as u32 <= 127 ==> (is_white(c) <==> c as u32 == 32 || 9 <= c as u32 <= 13),
{
    let drop = |c: char| is_white(c);
    let a = lemma_trimmed_start_leaves(s, drop);
    let t = s.skip(a);
    let k = lemma_trimmed_end_leaves(t, drop);
    assert(t.take(k) =~= s.subrange(a, a + k));
    assert forall|i: int| 0 <= i < s.len() && !(a <= i < a + k) implies is_white(
        #[trigger] s[i],
    ) by {
        if i >= a + k {
            assert(drop(t[i - a]));
        } else {
            assert(drop(s[i]));
        }
    }
    if k > 0 {
        assert(a < s.len());
        assert(!drop(s[a]));
        assert(t[k - 1] == s[a + k - 1]);
    }
    (a, a + k)
}

/// The same for a single character that is taken off both ends.
pub proof fn law_trimming_takes_one_character_off(s: Seq<char>, c: char) -> (r: (int, int))
    ensures
        0 <= r.0 <= r.1 <= s.len(),
        trimmed_of(s, c) == s.subrange(r.0, r.1),
        forall|i: int| 0 <= i < s.len() && !(r.0 <= i < r.1) ==> #[trigger] s[i] == c,
        r.0 < r.1 ==> s[r.0] != c && s[r.1 - 1] != c,
{
    let drop = is_just(c);
    let a = lemma_trimmed_start_leaves(s, drop);
    let t = s.skip(a);
    let k = lemma_trimmed_end_leaves(t, drop);
    assert(t.take(k) =~= s.subrange(a, a + k));
    assert forall|i: int| 0 <= i < s.len() && !(a <= i < a + k) implies #[trigger] s[i] == c by {
        if i >= a + k {
            assert(drop(t[i - a]));
        } else {
            assert(drop(s[i]));
        }
    }
    if k > 0 {
        assert(!drop(s[a]));
        assert(t[k - 1] == s[a + k - 1]);
    }
    (a, a + k)
}

/// Lowering moves the capital letters of ASCII, and only those, by the distance
/// between the two alphabets.
pub proof fn law_lowering_moves_capitals(s: Seq<char>, i: int)
    requires
        0 <= i < s.len(),
    ensures
        lowered(s).len() == s.len(),
        lowered(s)[i] as u32 == if 65 <= s[i] as u32 <= 90 {
            s[i] as u32 + 32
        } else {
            s[i] as int
        },
{
}

/// A list of texts shows each of them, in order.
pub proof fn law_every_text_of_a_list_shows(list: Seq<String>, i: int)
    requires
        0 <= i < list.len(),
    ensures
        views(list).len() == list.len(),
        views(list)[i] == list[i]@,
{
}

/// A text is plain ASCII just where every character of it is.
pub proof fn law_ascii_is_told_by_every_character(s: Seq<char>)
    ensures
        all_ascii(s) <==> forall|i: int| 0 <= i < s.len() ==> #[trigger] s[i] <= '\u{7f}',
{
}

} // verus!
