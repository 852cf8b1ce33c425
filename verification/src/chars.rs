//! Character sequences: conversion between strings and `Vec<char>`, and the
//! few text operations the route grammar is written in (trimming, finding,
//! splitting and joining), each with the spec function it computes.

use vstd::prelude::*;
use vstd::string::StrSliceExecFns;
use crate::unicode::char_is_whitespace;

verus! {

broadcast use vstd::string::group_string_axioms;

// ---------------------------------------------------------------------
// Specifications
// ---------------------------------------------------------------------

/// `s` with its leading whitespace removed (`str::trim_start`).
pub open spec fn trim_start(s: Seq<char>) -> Seq<char>
    decreases s.len(),
{
    if s.len() > 0 && char_is_whitespace(s[0]) {
        trim_start(s.drop_first())
    } else {
        s
    }
}

/// `s` with its trailing whitespace removed (`str::trim_end`).
pub open spec fn trim_end(s: Seq<char>) -> Seq<char>
    decreases s.len(),
{
    if s.len() > 0 && char_is_whitespace(s.last()) {
        trim_end(s.drop_last())
    } else {
        s
    }
}

/// `s` with whitespace removed from both ends (`str::trim`).
pub open spec fn trim(s: Seq<char>) -> Seq<char> {
    trim_end(trim_start(s))
}

/// Index of the first `c` in `s`, or `s.len()` when there is none.
pub open spec fn first_of(s: Seq<char>, c: char) -> nat
    decreases s.len(),
{
    if s.len() == 0 {
        0
    } else if s[0] == c {
        0
    } else {
        1 + first_of(s.drop_first(), c)
    }
}

/// Index of the first whitespace character in `s`, or `s.len()` when there is none.
pub open spec fn first_whitespace(s: Seq<char>) -> nat
    decreases s.len(),
{
    if s.len() == 0 {
        0
    } else if char_is_whitespace(s[0]) {
        0
    } else {
        1 + first_whitespace(s.drop_first())
    }
}

/// Index of the last `c` in `s`, or `-1` when there is none.
pub open spec fn last_of(s: Seq<char>, c: char) -> int
    decreases s.len(),
{
    if s.len() == 0 {
        -1
    } else if s.last() == c {
        s.len() - 1
    } else {
        last_of(s.drop_last(), c)
    }
}

/// The pieces of `s` between occurrences of `sep` (`str::split` with a
/// `char` pattern): one more piece than there are separators, empty pieces
/// kept.
pub open spec fn split(s: Seq<char>, sep: char) -> Seq<Seq<char>>
    decreases s.len(),
{
    let k = last_of(s, sep);
    if k < 0 {
        seq![s]
    } else {
        proof {
            lemma_last_of(s, sep);
        }
        split(s.take(k), sep).push(s.skip(k + 1))
    }
}

/// The pieces joined with `sep` between each two (`[T]::join`).
pub open spec fn join(parts: Seq<Seq<char>>, sep: char) -> Seq<char>
    decreases parts.len(),
{
    if parts.len() == 0 {
        Seq::empty()
    } else if parts.len() == 1 {
        parts[0]
    } else {
        join(parts.drop_last(), sep).push(sep) + parts.last()
    }
}

/// The non-empty pieces, in order.
pub open spec fn non_empty(parts: Seq<Seq<char>>) -> Seq<Seq<char>>
    decreases parts.len(),
{
    if parts.len() == 0 {
        parts
    } else if parts.last().len() > 0 {
        non_empty(parts.drop_last()).push(parts.last())
    } else {
        non_empty(parts.drop_last())
    }
}


/// The character sequences that a vector of `Vec<char>` holds.
pub open spec fn views(v: Seq<Vec<char>>) -> Seq<Seq<char>> {
    v.map_values(|x: Vec<char>| x@)
}

// ---------------------------------------------------------------------
// Lemmas
// ---------------------------------------------------------------------

pub proof fn lemma_trim_start_at(s: Seq<char>, k: int)
    requires
        0 <= k <= s.len(),
        forall|j: int| 0 <= j < k ==> char_is_whitespace(#[trigger] s[j]),
        k == s.len() || !char_is_whitespace(s[k]),
    ensures
        trim_start(s) == s.skip(k),
    decreases k,
{
    if k == 0 {
        assert(s.skip(0) =~= s);
    } else {
        assert(char_is_whitespace(s[0]));
        let t = s.drop_first();
        assert forall|j: int| 0 <= j < k - 1 implies char_is_whitespace(#[trigger] t[j]) by {
            assert(t[j] == s[j + 1]);
        }
        lemma_trim_start_at(t, k - 1);
        assert(t.skip(k - 1) =~= s.skip(k));
    }
}

pub proof fn lemma_trim_end_at(s: Seq<char>, k: int)
    requires
        0 <= k <= s.len(),
        forall|j: int| k <= j < s.len() ==> char_is_whitespace(#[trigger] s[j]),
        k == 0 || !char_is_whitespace(s[k - 1]),
    ensures
        trim_end(s) == s.take(k),
    decreases s.len() - k,
{
    if k == s.len() {
        assert(s.take(k) =~= s);
    } else {
        let t = s.drop_last();
        assert(char_is_whitespace(s.last()));
        assert forall|j: int| k <= j < t.len() implies char_is_whitespace(#[trigger] t[j]) by {
            assert(t[j] == s[j]);
        }
        lemma_trim_end_at(t, k);
        assert(t.take(k) =~= s.take(k));
    }
}

pub proof fn lemma_first_of_at(s: Seq<char>, c: char, k: int)
    requires
        0 <= k <= s.len(),
        forall|j: int| 0 <= j < k ==> #[trigger] s[j] != c,
        k == s.len() || s[k] == c,
    ensures
        first_of(s, c) == k,
    decreases k,
{
    if k > 0 {
        let t = s.drop_first();
        assert(s[0] != c);
        assert forall|j: int| 0 <= j < k - 1 implies #[trigger] t[j] != c by {
            assert(t[j] == s[j + 1]);
        }
        lemma_first_of_at(t, c, k - 1);
    }
}

pub proof fn lemma_first_whitespace_at(s: Seq<char>, k: int)
    requires
        0 <= k <= s.len(),
        forall|j: int| 0 <= j < k ==> !char_is_whitespace(#[trigger] s[j]),
        k == s.len() || char_is_whitespace(s[k]),
    ensures
        first_whitespace(s) == k,
    decreases k,
{
    if k > 0 {
        let t = s.drop_first();
        assert(!char_is_whitespace(s[0]));
        assert forall|j: int| 0 <= j < k - 1 implies !char_is_whitespace(#[trigger] t[j]) by {
            assert(t[j] == s[j + 1]);
        }
        lemma_first_whitespace_at(t, k - 1);
    }
}

/// `first_of` finds the first `c`, and nothing before it is `c`.
pub proof fn lemma_first_of(s: Seq<char>, c: char)
    ensures
        first_of(s, c) <= s.len(),
        forall|j: int| 0 <= j < first_of(s, c) ==> #[trigger] s[j] != c,
        first_of(s, c) < s.len() ==> s[first_of(s, c) as int] == c,
    decreases s.len(),
{
    if s.len() > 0 && s[0] != c {
        let t = s.drop_first();
        lemma_first_of(t, c);
        assert forall|j: int| 0 <= j < first_of(s, c) implies #[trigger] s[j] != c by {
            if j > 0 {
                assert(s[j] == t[j - 1]);
            }
        }
    }
}

pub proof fn lemma_last_of_at(s: Seq<char>, c: char, k: int)
    requires
        -1 <= k < s.len(),
        forall|j: int| k < j < s.len() ==> #[trigger] s[j] != c,
        k == -1 || s[k] == c,
    ensures
        last_of(s, c) == k,
    decreases s.len(),
{
    if s.len() > 0 && k < s.len() - 1 {
        let t = s.drop_last();
        assert(s.last() != c);
        assert forall|j: int| k < j < t.len() implies #[trigger] t[j] != c by {
            assert(t[j] == s[j]);
        }
        lemma_last_of_at(t, c, k);
    }
}

/// `last_of` finds the last `c`, and nothing after it is `c`.
pub proof fn lemma_last_of(s: Seq<char>, c: char)
    ensures
        -1 <= last_of(s, c) < s.len(),
        forall|j: int| last_of(s, c) < j < s.len() ==> #[trigger] s[j] != c,
        last_of(s, c) >= 0 ==> s[last_of(s, c)] == c,
    decreases s.len(),
{
    if s.len() > 0 && s.last() != c {
        let t = s.drop_last();
        lemma_last_of(t, c);
        assert forall|j: int| last_of(s, c) < j < s.len() implies #[trigger] s[j] != c by {
            if j < t.len() {
                assert(s[j] == t[j]);
            }
        }
    }
}

/// Every piece of a split is free of the separator, and there is at least one.
pub proof fn lemma_split_pieces(s: Seq<char>, sep: char)
    ensures
        split(s, sep).len() >= 1,
        forall|i: int| 0 <= i < split(s, sep).len() ==> !(#[trigger] split(s, sep)[i]).contains(sep),
    decreases s.len(),
{
    lemma_last_of(s, sep);
    let k = last_of(s, sep);
    if k >= 0 {
        lemma_split_pieces(s.take(k), sep);
        let last = s.skip(k + 1);
        assert forall|i: int| 0 <= i < split(s, sep).len() implies !(#[trigger] split(s, sep)[i]).contains(sep) by {
            if i == split(s, sep).len() - 1 {
                assert(split(s, sep)[i] == last);
                if last.contains(sep) {
                    let j = choose|j: int| 0 <= j < last.len() && last[j] == sep;
                    assert(s[k + 1 + j] == sep);
                }
            } else {
                assert(split(s, sep)[i] == split(s.take(k), sep)[i]);
            }
        }
    } else {
        assert forall|i: int| 0 <= i < split(s, sep).len() implies !(#[trigger] split(s, sep)[i]).contains(sep) by {
            assert(split(s, sep)[i] == s);
            if s.contains(sep) {
                let j = choose|j: int| 0 <= j < s.len() && s[j] == sep;
            }
        }
    }
}


/// Split peels off the piece after the last separator.
pub proof fn lemma_split_last(t: Seq<char>, sep: char, st: int)
    requires
        0 <= st <= t.len(),
        st > 0 ==> t[st - 1] == sep,
        forall|j: int| st <= j < t.len() ==> #[trigger] t[j] != sep,
    ensures
        split(t, sep) == (if st == 0 {
            Seq::<Seq<char>>::empty()
        } else {
            split(t.take(st - 1), sep)
        }).push(t.skip(st)),
{
    lemma_last_of_at(t, sep, st - 1);
    if st == 0 {
        assert(t.skip(0) =~= t);
        assert(seq![t] =~= Seq::<Seq<char>>::empty().push(t));
    }
}

/// Joining the pieces of a split gives back the text.
pub proof fn lemma_join_split(s: Seq<char>, sep: char)
    ensures
        join(split(s, sep), sep) == s,
    decreases s.len(),
{
    lemma_last_of(s, sep);
    let k = last_of(s, sep);
    if k >= 0 {
        let head = s.take(k);
        lemma_join_split(head, sep);
        lemma_split_pieces(head, sep);
        let ps = split(s, sep);
        assert(ps.drop_last() =~= split(head, sep));
        assert(ps.last() == s.skip(k + 1));
        assert(s =~= head.push(sep) + s.skip(k + 1));
    }
}

/// Splitting a join of separator-free pieces gives back the pieces.
pub proof fn lemma_split_join(parts: Seq<Seq<char>>, sep: char)
    requires
        parts.len() >= 1,
        forall|i: int| 0 <= i < parts.len() ==> !(#[trigger] parts[i]).contains(sep),
    ensures
        split(join(parts, sep), sep) == parts,
    decreases parts.len(),
{
    let j = join(parts, sep);
    if parts.len() == 1 {
        assert(j == parts[0]);
        assert forall|x: int| -1 < x < j.len() implies #[trigger] j[x] != sep by {
            assert(!parts[0].contains(sep));
            if j[x] == sep {
                assert(parts[0].contains(sep));
            }
        }
        lemma_last_of_at(j, sep, -1);
        assert(seq![j] =~= parts);
    } else {
        let front = parts.drop_last();
        let last = parts.last();
        assert forall|i: int| 0 <= i < front.len() implies !(#[trigger] front[i]).contains(sep) by {
            assert(front[i] == parts[i]);
        }
        lemma_split_join(front, sep);
        let jf = join(front, sep);
        assert(j == jf.push(sep) + last);
        let k = jf.len() as int;
        assert(!parts[parts.len() - 1].contains(sep));
        assert forall|x: int| k < x < j.len() implies #[trigger] j[x] != sep by {
            assert(j[x] == last[x - k - 1]);
            if j[x] == sep {
                assert(last.contains(sep));
            }
        }
        lemma_last_of_at(j, sep, k);
        assert(j.take(k) =~= jf);
        assert(j.skip(k + 1) =~= last);
        assert(front.push(last) =~= parts);
    }
}

/// Joining a piece in front of at least one more.
pub proof fn lemma_join_prepend(x: Seq<char>, ys: Seq<Seq<char>>, sep: char)
    requires
        ys.len() >= 1,
    ensures
        join(seq![x] + ys, sep) == x.push(sep) + join(ys, sep),
    decreases ys.len(),
{
    let xs = seq![x] + ys;
    assert(xs.len() == ys.len() + 1);
    assert(xs.drop_last() =~= seq![x] + ys.drop_last());
    assert(xs.last() == ys.last());
    assert(join(xs, sep) == join(xs.drop_last(), sep).push(sep) + xs.last());
    if ys.len() == 1 {
        assert(seq![x] + ys.drop_last() =~= seq![x]);
        assert(join(seq![x], sep) == x);
        assert(join(ys, sep) == ys[0]);
        assert(ys[0] == ys.last());
    } else {
        lemma_join_prepend(x, ys.drop_last(), sep);
        assert(x.push(sep) + join(ys.drop_last(), sep).push(sep) + ys.last() =~= x.push(sep) + (
        join(ys.drop_last(), sep).push(sep) + ys.last()));
    }
}

/// An empty piece followed by non-empty ones keeps just the non-empty ones.
pub proof fn lemma_non_empty_after_lead(s: Seq<Seq<char>>)
    requires
        s.len() >= 1,
        s[0].len() == 0,
        forall|i: int| 1 <= i < s.len() ==> (#[trigger] s[i]).len() > 0,
    ensures
        non_empty(s) == s.drop_first(),
    decreases s.len(),
{
    if s.len() == 1 {
        assert(s.drop_last() =~= Seq::<Seq<char>>::empty());
        assert(non_empty(Seq::<Seq<char>>::empty()) == Seq::<Seq<char>>::empty());
        assert(s.last().len() == 0);
        assert(s.drop_first() =~= Seq::<Seq<char>>::empty());
    } else {
        let t = s.drop_last();
        assert forall|i: int| 1 <= i < t.len() implies (#[trigger] t[i]).len() > 0 by {
            assert(t[i] == s[i]);
        }
        lemma_non_empty_after_lead(t);
        assert(s[s.len() - 1].len() > 0);
        assert(t.drop_first().push(s.last()) =~= s.drop_first());
    }
}

/// Non-empty pieces without `/`, joined with `/`: the text neither starts
/// nor ends with `/`, and never has two in a row.
pub proof fn lemma_join_no_double_slash(ns: Seq<Seq<char>>)
    requires
        ns.len() >= 1,
        forall|i: int| 0 <= i < ns.len() ==> (#[trigger] ns[i]).len() > 0 && !ns[i].contains('/'),
    ensures
        join(ns, '/').len() > 0,
        join(ns, '/')[0] != '/',
        join(ns, '/').last() != '/',
        forall|i: int|
            0 < i < join(ns, '/').len() ==> !(join(ns, '/')[i - 1] == '/' && #[trigger] join(
                ns,
                '/',
            )[i] == '/'),
    decreases ns.len(),
{
    let j = join(ns, '/');
    assert(ns[0].len() > 0 && !ns[0].contains('/'));
    assert(ns[ns.len() - 1].len() > 0 && !ns[ns.len() - 1].contains('/'));
    let last = ns.last();
    assert(last.len() > 0);
    if last[last.len() - 1] == '/' {
        assert(last.contains('/'));
    }
    if ns.len() == 1 {
        assert(j == ns[0]);
        if ns[0][0] == '/' {
            assert(ns[0].contains('/'));
        }
        assert forall|i: int| 0 < i < j.len() implies !(j[i - 1] == '/' && #[trigger] j[i] == '/') by {
            if j[i] == '/' {
                assert(ns[0].contains('/'));
            }
        }
    } else {
        let front = ns.drop_last();
        assert forall|i: int| 0 <= i < front.len() implies (#[trigger] front[i]).len() > 0 && !front[i].contains('/') by {
            assert(front[i] == ns[i]);
        }
        lemma_join_no_double_slash(front);
        let jf = join(front, '/');
        assert(j == jf.push('/') + last);
        let k = jf.len() as int;
        assert(j[0] == jf[0]);
        assert(j.last() == last.last());
        assert forall|i: int| 0 < i < j.len() implies !(j[i - 1] == '/' && #[trigger] j[i] == '/') by {
            if i < k {
                assert(j[i - 1] == jf[i - 1] && j[i] == jf[i]);
            } else if i == k {
                assert(j[i - 1] == jf[k - 1]);
                assert(jf[k - 1] == jf.last());
            } else if i == k + 1 {
                assert(j[i] == last[0]);
                if last[0] == '/' {
                    assert(last.contains('/'));
                }
            } else {
                assert(j[i] == last[i - k - 1]);
                if j[i] == '/' {
                    assert(last.contains('/'));
                }
            }
        }
    }
}

// ---------------------------------------------------------------------
// Executable operations
// ---------------------------------------------------------------------

/// Whether `c` has the Unicode White_Space property, as `char::is_whitespace` decides.
pub fn is_whitespace(c: char) -> (b: bool)
    ensures
        b == char_is_whitespace(c),
{
    ('\t' <= c && c <= '\r') || c == ' ' || c == '\u{85}' || c == '\u{a0}' || c == '\u{1680}'
        || ('\u{2000}' <= c && c <= '\u{200a}') || c == '\u{2028}' || c == '\u{2029}' || c
        == '\u{202f}' || c == '\u{205f}' || c == '\u{3000}'
}

/// The characters of `s`.
pub fn to_chars(s: &str) -> (r: Vec<char>)
    ensures
        r@ == s@,
{
    let mut r: Vec<char> = Vec::new();
    for c in it: s.chars()
        invariant
            r@ == it.seq().take(it.index()),
            it.seq() == s@,
    {
        r.push(c);
    }
    r
}

/// A string holding the characters of `s`.
pub fn from_chars(s: &[char]) -> (r: String)
    ensures
        r@ == s@,
{
    let mut r = String::new();
    let n = s.len();
    for i in 0..n
        invariant
            n == s@.len(),
            r@ == s@.take(i as int),
    {
        r.push(s[i]);
        assert(s@.take(i + 1) =~= s@.take(i as int).push(s@[i as int]));
    }
    assert(s@.take(n as int) =~= s@);
    r
}

/// The characters `s[from..to]`.
pub fn slice_chars(s: &[char], from: usize, to: usize) -> (r: Vec<char>)
    requires
        from <= to <= s@.len(),
    ensures
        r@ == s@.subrange(from as int, to as int),
{
    let mut r: Vec<char> = Vec::new();
    for i in from..to
        invariant
            to <= s@.len(),
            r@ == s@.subrange(from as int, i as int),
    {
        r.push(s[i]);
        assert(s@.subrange(from as int, i + 1) =~= s@.subrange(from as int, i as int).push(s@[i as int]));
    }
    r
}

/// `a` followed by `b`.
pub fn concat_chars(a: &[char], b: &[char]) -> (r: Vec<char>)
    ensures
        r@ == a@ + b@,
{
    let mut r: Vec<char> = Vec::new();
    let n = a.len();
    for i in 0..n
        invariant
            n == a@.len(),
            r@ == a@.take(i as int),
    {
        r.push(a[i]);
        assert(a@.take(i + 1) =~= a@.take(i as int).push(a@[i as int]));
    }
    assert(a@.take(n as int) =~= a@);
    let m = b.len();
    for j in 0..m
        invariant
            m == b@.len(),
            r@ == a@ + b@.take(j as int),
    {
        r.push(b[j]);
        assert(b@.take(j + 1) =~= b@.take(j as int).push(b@[j as int]));
    }
    assert(b@.take(m as int) =~= b@);
    r
}

/// Whether `a` and `b` hold the same characters.
pub fn chars_eq(a: &[char], b: &[char]) -> (r: bool)
    ensures
        r == (a@ == b@),
{
    if a.len() != b.len() {
        return false;
    }
    let n = a.len();
    for i in 0..n
        invariant
            n == a@.len(),
            n == b@.len(),
            forall|j: int| 0 <= j < i ==> a@[j] == b@[j],
    {
        if a[i] != b[i] {
            return false;
        }
    }
    assert(a@ =~= b@);
    true
}

/// Index of the first `c` in `s`, or `s.len()` (`str::find` with a `char`).
pub fn find_char(s: &[char], c: char) -> (r: usize)
    ensures
        r == first_of(s@, c),
        r <= s@.len(),
{
    let n = s.len();
    let mut i: usize = 0;
    while i < n && s[i] != c
        invariant
            n == s@.len(),
            i <= n,
            forall|j: int| 0 <= j < i ==> #[trigger] s@[j] != c,
        decreases n - i,
    {
        i = i + 1;
    }
    proof {
        lemma_first_of_at(s@, c, i as int);
    }
    i
}

/// Index of the first whitespace character in `s`, or `s.len()`.
pub fn find_whitespace(s: &[char]) -> (r: usize)
    ensures
        r == first_whitespace(s@),
        r <= s@.len(),
{
    let n = s.len();
    let mut i: usize = 0;
    while i < n && !is_whitespace(s[i])
        invariant
            n == s@.len(),
            i <= n,
            forall|j: int| 0 <= j < i ==> !char_is_whitespace(#[trigger] s@[j]),
        decreases n - i,
    {
        i = i + 1;
    }
    proof {
        lemma_first_whitespace_at(s@, i as int);
    }
    i
}

/// `s` without trailing whitespace.
pub fn trim_end_chars(s: &[char]) -> (r: Vec<char>)
    ensures
        r@ == trim_end(s@),
{
    let mut k: usize = s.len();
    while k > 0 && is_whitespace(s[k - 1])
        invariant
            k <= s@.len(),
            forall|j: int| k <= j < s@.len() ==> char_is_whitespace(#[trigger] s@[j]),
        decreases k,
    {
        k = k - 1;
    }
    proof {
        lemma_trim_end_at(s@, k as int);
    }
    slice_chars(s, 0, k)
}

/// The pieces of `s` between occurrences of `sep` (`str::split`).
pub fn split_chars(s: &[char], sep: char) -> (r: Vec<Vec<char>>)
    ensures
        views(r@) == split(s@, sep),
{
    let n = s.len();
    let mut parts: Vec<Vec<char>> = Vec::new();
    let mut start: usize = 0;
    for i in 0..n
        invariant
            n == s@.len(),
            start <= i,
            start > 0 ==> s@[start - 1] == sep,
            forall|j: int| start <= j < i ==> #[trigger] s@[j] != sep,
            views(parts@) == (if start == 0 {
                Seq::<Seq<char>>::empty()
            } else {
                split(s@.take(start - 1), sep)
            }),
    {
        if s[i] == sep {
            let piece = slice_chars(s, start, i);
            proof {
                let t = s@.take(i as int);
                assert forall|j: int| start <= j < t.len() implies #[trigger] t[j] != sep by {
                    assert(t[j] == s@[j]);
                }
                lemma_split_last(t, sep, start as int);
                if start > 0 {
                    assert(t.take(start - 1) =~= s@.take(start - 1));
                }
                assert(t.skip(start as int) =~= s@.subrange(start as int, i as int));
            }
            parts.push(piece);
            proof {
                assert(views(parts@) =~= split(s@.take(i as int), sep));
            }
            start = i + 1;
        }
    }
    let piece = slice_chars(s, start, n);
    proof {
        lemma_split_last(s@, sep, start as int);
        assert(s@.skip(start as int) =~= s@.subrange(start as int, n as int));
    }
    parts.push(piece);
    proof {
        assert(views(parts@) =~= split(s@, sep));
    }
    parts
}

/// The pieces joined with `sep` between each two (`[T]::join`).
pub fn join_chars(parts: &Vec<Vec<char>>, sep: char) -> (r: Vec<char>)
    ensures
        r@ == join(views(parts@), sep),
{
    let n = parts.len();
    let mut r: Vec<char> = Vec::new();
    for i in 0..n
        invariant
            n == parts@.len(),
            r@ == join(views(parts@).take(i as int), sep),
    {
        let ghost before = views(parts@).take(i as int);
        let ghost after = views(parts@).take(i + 1);
        assert(after.drop_last() =~= before);
        if i > 0 {
            r.push(sep);
        }
        r = concat_chars(&r, &parts[i]);
        proof {
            if i == 0 {
                assert(after.len() == 1);
                assert(r@ =~= after[0]);
            }
        }
    }
    assert(views(parts@).take(n as int) =~= views(parts@));
    r
}


/// `s` without leading whitespace, as a slice of `s` (`str::trim_start`).
pub fn trim_start_str(s: &str) -> (r: &str)
    ensures
        r@ == trim_start(s@),
{
    let c = to_chars(s);
    let n = c.len();
    let mut i: usize = 0;
    while i < n && is_whitespace(c[i])
        invariant
            n == c@.len(),
            c@ == s@,
            i <= n,
            forall|j: int| 0 <= j < i ==> char_is_whitespace(#[trigger] c@[j]),
        decreases n - i,
    {
        i = i + 1;
    }
    proof {
        lemma_trim_start_at(s@, i as int);
    }
    s.substring_char(i, n)
}

/// `s` without whitespace at either end, as a slice of `s` (`str::trim`).
pub fn trim_str(s: &str) -> (r: &str)
    ensures
        r@ == trim(s@),
{
    let t = trim_start_str(s);
    let c = to_chars(t);
    let mut k: usize = c.len();
    while k > 0 && is_whitespace(c[k - 1])
        invariant
            c@ == t@,
            k <= c@.len(),
            forall|j: int| k <= j < c@.len() ==> char_is_whitespace(#[trigger] c@[j]),
        decreases k,
    {
        k = k - 1;
    }
    proof {
        lemma_trim_end_at(t@, k as int);
    }
    t.substring_char(0, k)
}


/// Appends the characters of `s` to `dst`.
pub fn push_str(dst: &mut String, s: &str)
    ensures
        final(dst)@ == old(dst)@ + s@,
{
    let c = to_chars(s);
    let n = c.len();
    for i in 0..n
        invariant
            n == c@.len(),
            c@ == s@,
            dst@ == old(dst)@ + s@.take(i as int),
    {
        dst.push(c[i]);
        assert(s@.take(i + 1) =~= s@.take(i as int).push(s@[i as int]));
    }
    assert(s@.take(n as int) =~= s@);
}

} // verus!
