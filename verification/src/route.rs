//! Normalizing one route line, and the collision key of a normalized route.
//!
//! Every function here works on the characters of its input and is stated
//! over a spec function of the same name with a `spec_` prefix.

use vstd::prelude::*;
use vstd::string::StrSliceExecFns;
use crate::chars::{
    chars_eq, concat_chars, find_char, find_whitespace, first_of, first_whitespace, from_chars, join,
    join_chars, push_str, slice_chars, split, split_chars, to_chars, trim, trim_end, trim_end_chars,
    trim_start, trim_start_str, trim_str, views, non_empty, lemma_split_pieces, lemma_split_join,
    lemma_join_prepend, lemma_non_empty_after_lead, lemma_join_no_double_slash, lemma_first_of_at,
};
use crate::unicode::{
    all_ascii, ascii_upper, is_ascii_char, str_lowercase, str_uppercase,
};

verus! {

/// Why a path segment could not be normalized; each carries the segment as written.
#[derive(Debug)]
pub enum NormalizeError {
    /// A parameter segment (`:`, `{}`, `<>`) with nothing for a name.
    EmptyParamName(String),
    /// A parameter name with a character other than an ASCII letter, digit or `_`.
    InvalidParamName(String),
}

/// The content of a `NormalizeError`.
pub enum SegmentFault {
    EmptyParamName(Seq<char>),
    InvalidParamName(Seq<char>),
}

impl View for NormalizeError {
    type V = SegmentFault;

    open spec fn view(&self) -> SegmentFault {
        match self {
            NormalizeError::EmptyParamName(s) => SegmentFault::EmptyParamName(s@),
            NormalizeError::InvalidParamName(s) => SegmentFault::InvalidParamName(s@),
        }
    }
}

/// A `Result` of strings taken by its view.
pub open spec fn result_view(r: Result<String, NormalizeError>) -> Result<Seq<char>, SegmentFault> {
    match r {
        Ok(s) => Ok(s@),
        Err(e) => Err(e@),
    }
}

// ---------------------------------------------------------------------
// Specifications
// ---------------------------------------------------------------------

pub open spec fn get_method() -> Seq<char> {
    seq!['G', 'E', 'T']
}

/// The HTTP methods a route line may name.
pub open spec fn known_methods() -> Seq<Seq<char>> {
    seq![
        seq!['G', 'E', 'T'],
        seq!['P', 'O', 'S', 'T'],
        seq!['P', 'U', 'T'],
        seq!['P', 'A', 'T', 'C', 'H'],
        seq!['D', 'E', 'L', 'E', 'T', 'E'],
        seq!['H', 'E', 'A', 'D'],
        seq!['O', 'P', 'T', 'I', 'O', 'N', 'S'],
    ]
}

pub open spec fn is_known_method(m: Seq<char>) -> bool {
    known_methods().contains(m)
}

pub open spec fn is_ascii_alpha(c: char) -> bool {
    ('a' <= c && c <= 'z') || ('A' <= c && c <= 'Z')
}

/// A character allowed in a parameter name: ASCII letter, digit or `_`.
pub open spec fn is_param_char(c: char) -> bool {
    is_ascii_alpha(c) || ('0' <= c && c <= '9') || c == '_'
}

pub open spec fn valid_param_name(name: Seq<char>) -> bool {
    forall|i: int| 0 <= i < name.len() ==> is_param_char(#[trigger] name[i])
}

/// The bare parameter name of `:id`, `{id}` or `<id>`; `None` for any other segment.
pub open spec fn spec_param_name(seg: Seq<char>) -> Option<Seq<char>> {
    if seg.len() > 0 && seg[0] == ':' {
        Some(seg.drop_first())
    } else if seg.len() >= 2 && seg[0] == '{' && seg.last() == '}' {
        Some(seg.subrange(1, seg.len() - 1))
    } else if seg.len() >= 2 && seg[0] == '<' && seg.last() == '>' {
        Some(seg.subrange(1, seg.len() - 1))
    } else {
        None
    }
}

/// One path segment in canonical form: `*` stays, a parameter becomes
/// `:name`, any other segment is lowercased.
pub open spec fn spec_normalize_segment(seg: Seq<char>) -> Result<Seq<char>, SegmentFault> {
    if seg == seq!['*'] {
        Ok(seq!['*'])
    } else {
        match spec_param_name(seg) {
            Some(name) => if name.len() == 0 {
                Err(SegmentFault::EmptyParamName(seg))
            } else if !valid_param_name(name) {
                Err(SegmentFault::InvalidParamName(seg))
            } else {
                Ok(seq![':'] + name)
            },
            None => Ok(str_lowercase(seg)),
        }
    }
}

/// The non-empty pieces normalized in order; the first error stops it.
pub open spec fn spec_normalize_pieces(pieces: Seq<Seq<char>>) -> Result<Seq<Seq<char>>, SegmentFault>
    decreases pieces.len(),
{
    if pieces.len() == 0 {
        Ok(Seq::empty())
    } else {
        match spec_normalize_pieces(pieces.drop_last()) {
            Err(e) => Err(e),
            Ok(done) => if pieces.last().len() == 0 {
                Ok(done)
            } else {
                match spec_normalize_segment(pieces.last()) {
                    Err(e) => Err(e),
                    Ok(seg) => Ok(done.push(seg)),
                }
            },
        }
    }
}

/// A path in canonical form: `/` followed by its non-empty segments,
/// normalized and joined with `/`; just `/` when there are none.
pub open spec fn spec_normalize_path(path: Seq<char>) -> Result<Seq<char>, SegmentFault> {
    match spec_normalize_pieces(split(path, '/')) {
        Err(e) => Err(e),
        Ok(segs) => Ok(
            if segs.len() == 0 {
                seq!['/']
            } else {
                seq!['/'] + join(segs, '/')
            },
        ),
    }
}

/// `s` without its trailing `(` characters.
pub open spec fn trim_end_parens(s: Seq<char>) -> Seq<char>
    decreases s.len(),
{
    if s.len() > 0 && s.last() == '(' {
        trim_end_parens(s.drop_last())
    } else {
        s
    }
}

/// Where the run of ASCII letters that ends `s` begins.
pub open spec fn alpha_suffix_start(s: Seq<char>) -> nat
    decreases s.len(),
{
    if s.len() > 0 && is_ascii_alpha(s.last()) {
        alpha_suffix_start(s.drop_last())
    } else {
        s.len()
    }
}

/// The word right before a quoted path (past trailing whitespace and `(`),
/// uppercased, when it is a known method; `GET` otherwise.
pub open spec fn spec_method_before(prefix: Seq<char>) -> Seq<char> {
    let t = trim_end_parens(trim_end(prefix));
    let word = t.skip(alpha_suffix_start(t) as int);
    let upper = word.map_values(|c: char| ascii_upper(c));
    if is_known_method(upper) {
        upper
    } else {
        get_method()
    }
}

/// A leading method token and the rest of the line; `GET` and the whole
/// line when the first whitespace-separated token is not a known method.
pub open spec fn spec_split_method(line: Seq<char>) -> (Seq<char>, Seq<char>) {
    spec_split_method_with(line, str_uppercase(line.take(first_whitespace(line) as int)))
}

/// What `split_method` makes of `line` once its first whitespace-separated
/// token has been uppercased to `candidate`.
pub open spec fn spec_split_method_with(line: Seq<char>, candidate: Seq<char>) -> (Seq<char>, Seq<char>) {
    let idx = first_whitespace(line);
    if idx < line.len() && is_known_method(candidate) {
        (candidate, trim_start(line.skip(idx as int)))
    } else {
        (get_method(), line)
    }
}

pub open spec fn is_quote(c: char) -> bool {
    c == '\'' || c == '"'
}

/// The first quoted path at or after index `i`: a quote followed by `/`,
/// up to the next quote of the same kind, with the method word before it.
pub open spec fn spec_embedded_from(s: Seq<char>, i: nat) -> Option<(Seq<char>, Seq<char>)>
    decreases s.len() - i,
{
    if i >= s.len() {
        None
    } else {
        let c = s[i as int];
        let rest = s.skip(i + 1 as int);
        if is_quote(c) && rest.len() > 0 && rest[0] == '/' && first_of(rest, c) < rest.len() {
            Some((spec_method_before(s.take(i as int)), rest.take(first_of(rest, c) as int)))
        } else {
            spec_embedded_from(s, i + 1)
        }
    }
}

pub open spec fn spec_extract_embedded_route(line: Seq<char>) -> Option<(Seq<char>, Seq<char>)> {
    spec_embedded_from(line, 0)
}

/// Method and path of a trimmed, non-comment line.
pub open spec fn spec_route_parts(t: Seq<char>) -> (Seq<char>, Seq<char>) {
    match spec_extract_embedded_route(t) {
        Some(parts) => parts,
        None => spec_split_method(t),
    }
}

/// A blank or comment line is skipped.
pub open spec fn is_skipped_line(line: Seq<char>) -> bool {
    trim(line).len() == 0 || trim(line)[0] == '#'
}

/// One route line normalized to `METHOD /path`, or `None` for a blank or comment line.
pub open spec fn spec_normalize_route(line: Seq<char>) -> Result<Option<Seq<char>>, SegmentFault> {
    if is_skipped_line(line) {
        Ok(None)
    } else {
        let (method, path) = spec_route_parts(trim(line));
        match spec_normalize_path(path) {
            Err(e) => Err(e),
            Ok(p) => Ok(Some(method.push(' ') + p)),
        }
    }
}

/// The method of a normalized route: what comes before the first space.
pub open spec fn route_method(r: Seq<char>) -> Seq<char> {
    r.take(first_of(r, ' ') as int)
}

/// The path of a normalized route: what comes after the first space.
pub open spec fn route_path(r: Seq<char>) -> Seq<char> {
    if first_of(r, ' ') < r.len() {
        r.skip(first_of(r, ' ') + 1 as int)
    } else {
        Seq::empty()
    }
}

/// A segment that starts with `:` is a parameter.
pub open spec fn is_param_segment(seg: Seq<char>) -> bool {
    seg.len() > 0 && seg[0] == ':'
}

/// A parameter segment folded to a bare `:`.
pub open spec fn generic_segment(seg: Seq<char>) -> Seq<char> {
    if is_param_segment(seg) {
        seq![':']
    } else {
        seg
    }
}

pub open spec fn generic_segments(path: Seq<char>) -> Seq<Seq<char>> {
    split(path, '/').map_values(|seg: Seq<char>| generic_segment(seg))
}

/// The collision key: method, a space, and the path with every parameter
/// folded to `:`.
pub open spec fn spec_collision_key(r: Seq<char>) -> Seq<char> {
    route_method(r).push(' ') + join(generic_segments(route_path(r)), '/')
}

// ---------------------------------------------------------------------
// Lemmas
// ---------------------------------------------------------------------

/// Trailing `(` characters from index `k` on are what `trim_end_parens` removes.
pub proof fn lemma_trim_end_parens_at(s: Seq<char>, k: int)
    requires
        0 <= k <= s.len(),
        forall|j: int| k <= j < s.len() ==> #[trigger] s[j] == '(',
        k == 0 || s[k - 1] != '(',
    ensures
        trim_end_parens(s) == s.take(k),
    decreases s.len() - k,
{
    if k == s.len() {
        assert(s.take(k) =~= s);
    } else {
        let t = s.drop_last();
        assert(s.last() == '(');
        assert forall|j: int| k <= j < t.len() implies #[trigger] t[j] == '(' by {
            assert(t[j] == s[j]);
        }
        lemma_trim_end_parens_at(t, k);
        assert(t.take(k) =~= s.take(k));
    }
}

/// The run of ASCII letters that ends `s` begins at `k` when `s[k..]` is all
/// letters and `s[k - 1]`, if any, is not one.
pub proof fn lemma_alpha_suffix_start_at(s: Seq<char>, k: int)
    requires
        0 <= k <= s.len(),
        forall|j: int| k <= j < s.len() ==> is_ascii_alpha(#[trigger] s[j]),
        k == 0 || !is_ascii_alpha(s[k - 1]),
    ensures
        alpha_suffix_start(s) == k,
    decreases s.len() - k,
{
    if k < s.len() {
        let t = s.drop_last();
        assert(is_ascii_alpha(s.last()));
        assert forall|j: int| k <= j < t.len() implies is_ascii_alpha(#[trigger] t[j]) by {
            assert(t[j] == s[j]);
        }
        lemma_alpha_suffix_start_at(t, k);
    }
}

/// Once a prefix of the pieces fails, the whole fails the same way.
proof fn lemma_normalize_pieces_error(pieces: Seq<Seq<char>>, k: int)
    requires
        0 <= k <= pieces.len(),
        spec_normalize_pieces(pieces.take(k)) is Err,
    ensures
        spec_normalize_pieces(pieces) == spec_normalize_pieces(pieces.take(k)),
    decreases pieces.len() - k,
{
    if k == pieces.len() {
        assert(pieces.take(k) =~= pieces);
    } else {
        let t = pieces.drop_last();
        assert(t.take(k) =~= pieces.take(k));
        lemma_normalize_pieces_error(t, k);
    }
}

/// A path in the shape normalization gives it: it starts with `/`, ends
/// with `/` only when it is just `/`, and never has two `/` in a row.
pub open spec fn clean_path(q: Seq<char>) -> bool {
    &&& q.len() > 0
    &&& q[0] == '/'
    &&& (q == seq!['/'] || q.last() != '/')
    &&& forall|i: int| 0 < i < q.len() ==> !(q[i - 1] == '/' && #[trigger] q[i] == '/')
}

/// `/` alone is clean and has no non-empty segment.
proof fn lemma_root_pieces()
    ensures
        clean_path(seq!['/']),
        non_empty(split(seq!['/'], '/')).len() == 0,
{
    let e = Seq::<char>::empty();
    let ee = seq![e, e];
    assert(ee.drop_last() =~= seq![e]);
    assert(join(seq![e], '/') == e);
    assert(join(ee, '/') == join(ee.drop_last(), '/').push('/') + ee.last());
    assert(join(ee, '/') =~= seq!['/']);
    assert forall|i: int| 0 <= i < ee.len() implies !(#[trigger] ee[i]).contains('/') by {}
    lemma_split_join(ee, '/');
    assert(seq![e].drop_last() =~= Seq::<Seq<char>>::empty());
    assert(non_empty(Seq::<Seq<char>>::empty()) == Seq::<Seq<char>>::empty());
    assert(seq![e].last().len() == 0);
    assert(non_empty(seq![e]) =~= Seq::<Seq<char>>::empty());
    assert(non_empty(ee) =~= Seq::<Seq<char>>::empty());
}

/// `/` followed by non-empty `/`-free segments joined with `/` is clean, and
/// its non-empty segments are those segments.
proof fn lemma_slash_joined_path(ns: Seq<Seq<char>>)
    requires
        ns.len() >= 1,
        forall|i: int| 0 <= i < ns.len() ==> (#[trigger] ns[i]).len() > 0 && !ns[i].contains('/'),
    ensures
        clean_path(seq!['/'] + join(ns, '/')),
        non_empty(split(seq!['/'] + join(ns, '/'), '/')) == ns,
{
    let q = seq!['/'] + join(ns, '/');
    let j = join(ns, '/');
    lemma_join_no_double_slash(ns);
    assert(q.last() == j.last());
    assert forall|i: int| 0 < i < q.len() implies !(q[i - 1] == '/' && #[trigger] q[i] == '/') by {
        if i == 1 {
            assert(q[1] == j[0]);
        } else {
            assert(q[i - 1] == j[i - 2] && q[i] == j[i - 1]);
        }
    }
    let e = Seq::<char>::empty();
    let all = seq![e] + ns;
    lemma_join_prepend(e, ns, '/');
    assert(e.push('/') =~= seq!['/']);
    assert forall|i: int| 0 <= i < all.len() implies !(#[trigger] all[i]).contains('/') by {
        if i > 0 {
            assert(all[i] == ns[i - 1]);
        } else if all[0].contains('/') {
            let x = choose|x: int| 0 <= x < all[0].len() && all[0][x] == '/';
        }
    }
    lemma_split_join(all, '/');
    assert forall|i: int| 1 <= i < all.len() implies (#[trigger] all[i]).len() > 0 by {
        assert(all[i] == ns[i - 1]);
    }
    lemma_non_empty_after_lead(all);
    assert(all.drop_first() =~= ns);
}

/// A known method is a non-empty run of uppercase ASCII letters.
pub proof fn lemma_known_method_letters(m: Seq<char>)
    requires
        is_known_method(m),
    ensures
        m.len() > 0,
        forall|i: int| 0 <= i < m.len() ==> 'A' <= #[trigger] m[i] && m[i] <= 'Z',
        all_ascii(m),
        str_uppercase(m) == m,
        !m.contains(' '),
{
    let k = choose|k: int| 0 <= k < known_methods().len() && known_methods()[k] == m;
    assert(m == known_methods()[k]);
    assert(m.map_values(|c: char| ascii_upper(c)) =~= m);
    if m.contains(' ') {
        let j = choose|j: int| 0 <= j < m.len() && m[j] == ' ';
        assert('A' <= m[j]);
    }
}

/// `GET` is a known method.
pub proof fn lemma_get_is_known()
    ensures
        is_known_method(get_method()),
{
    assert(known_methods()[0] == get_method());
}

/// A route made of a space-free method, a space and a path splits back into them.
pub proof fn lemma_route_split(r: Seq<char>, m: Seq<char>, q: Seq<char>)
    requires
        r == m.push(' ') + q,
        !m.contains(' '),
    ensures
        first_of(r, ' ') == m.len(),
        route_method(r) == m,
        route_path(r) == q,
{
    assert forall|j: int| 0 <= j < m.len() implies #[trigger] r[j] != ' ' by {
        assert(r[j] == m[j]);
        if m[j] == ' ' {
            assert(m.contains(' '));
        }
    }
    lemma_first_of_at(r, ' ', m.len() as int);
    assert(r.take(m.len() as int) =~= m);
    assert(r.skip(m.len() + 1 as int) =~= q);
}

/// The method an embedded route is read with is a known one, and on ASCII
/// text its path is ASCII too.
pub proof fn lemma_embedded_method_known(s: Seq<char>, i: nat)
    ensures
        spec_embedded_from(s, i) matches Some(parts) ==> is_known_method(parts.0),
        all_ascii(s) ==> (spec_embedded_from(s, i) matches Some(parts) ==> all_ascii(parts.1)),
    decreases s.len() - i,
{
    lemma_get_is_known();
    if i < s.len() {
        lemma_embedded_method_known(s, i + 1);
    }
}

// ---------------------------------------------------------------------
// Executable code
// ---------------------------------------------------------------------

fn get_method_chars() -> (r: Vec<char>)
    ensures
        r@ == get_method(),
{
    let r = vec!['G', 'E', 'T'];
    assert(r@ =~= get_method());
    r
}

fn known_method_list() -> (r: Vec<Vec<char>>)
    ensures
        views(r@) == known_methods(),
{
    let r = vec![
        vec!['G', 'E', 'T'],
        vec!['P', 'O', 'S', 'T'],
        vec!['P', 'U', 'T'],
        vec!['P', 'A', 'T', 'C', 'H'],
        vec!['D', 'E', 'L', 'E', 'T', 'E'],
        vec!['H', 'E', 'A', 'D'],
        vec!['O', 'P', 'T', 'I', 'O', 'N', 'S'],
    ];
    assert(r@[0]@ =~= known_methods()[0]);
    assert(r@[1]@ =~= known_methods()[1]);
    assert(r@[2]@ =~= known_methods()[2]);
    assert(r@[3]@ =~= known_methods()[3]);
    assert(r@[4]@ =~= known_methods()[4]);
    assert(r@[5]@ =~= known_methods()[5]);
    assert(r@[6]@ =~= known_methods()[6]);
    assert(views(r@) =~= known_methods());
    r
}

/// Whether `m` is one of the known methods.
fn is_known(m: &[char]) -> (r: bool)
    ensures
        r == is_known_method(m@),
{
    let list = known_method_list();
    let n = list.len();
    for i in 0..n
        invariant
            n == list@.len(),
            views(list@) == known_methods(),
            forall|j: int| 0 <= j < i ==> known_methods()[j] != m@,
    {
        if chars_eq(list[i].as_slice(), m) {
            assert(known_methods()[i as int] == m@);
            return true;
        }
        assert(known_methods()[i as int] == list@[i as int]@);
    }
    assert forall|j: int| 0 <= j < known_methods().len() implies known_methods()[j] != m@ by {}
    false
}

/// The bare name of a parameter segment (`:id`, `{id}`, `<id>`), if it is one.
pub fn param_name(segment: &str) -> (r: Option<&str>)
    ensures
        match r {
            Some(name) => spec_param_name(segment@) == Some(name@),
            None => spec_param_name(segment@) is None,
        },
{
    let c = to_chars(segment);
    let n = c.len();
    if n > 0 && c[0] == ':' {
        assert(segment@.subrange(1, n as int) =~= segment@.drop_first());
        return Some(segment.substring_char(1, n));
    }
    if n >= 2 && c[0] == '{' && c[n - 1] == '}' {
        return Some(segment.substring_char(1, n - 1));
    }
    if n >= 2 && c[0] == '<' && c[n - 1] == '>' {
        return Some(segment.substring_char(1, n - 1));
    }
    None
}

/// One path segment in canonical form.
pub fn normalize_segment(segment: &str) -> (r: Result<String, NormalizeError>)
    ensures
        result_view(r) == spec_normalize_segment(segment@),
        r matches Ok(x) ==> (segment@.len() > 0 ==> x@.len() > 0) && (!segment@.contains('/')
            ==> !x@.contains('/')),
{
    let c = to_chars(segment);
    if c.len() == 1 && c[0] == '*' {
        assert(segment@ =~= seq!['*']);
        return Ok(from_chars(&c));
    }
    assert(segment@ != seq!['*']) by {
        if segment@ == seq!['*'] {
            assert(c@.len() == 1 && c@[0] == '*');
        }
    }
    match param_name(segment) {
        Some(name) => {
            let nc = to_chars(name);
            if nc.len() == 0 {
                return Err(NormalizeError::EmptyParamName(segment.to_owned()));
            }
            let n = nc.len();
            for i in 0..n
                invariant
                    n == nc@.len(),
                    nc@ == name@,
                    name@.len() > 0,
                    segment@ != seq!['*'],
                    spec_param_name(segment@) == Some(name@),
                    forall|j: int| 0 <= j < i ==> is_param_char(#[trigger] nc@[j]),
            {
                let ch = nc[i];
                if !(('a' <= ch && ch <= 'z') || ('A' <= ch && ch <= 'Z') || ('0' <= ch && ch <= '9') || ch == '_') {
                    assert(!is_param_char(name@[i as int]));
                    assert(!valid_param_name(name@));
                    return Err(NormalizeError::InvalidParamName(segment.to_owned()));
                }
            }
            let colon = vec![':'];
            let out = concat_chars(&colon, &nc);
            assert(colon@ =~= seq![':']);
            assert(!out@.contains('/')) by {
                if out@.contains('/') {
                    let j = choose|j: int| 0 <= j < out@.len() && out@[j] == '/';
                    assert(is_param_char(nc@[j - 1]));
                }
            }
            Ok(from_chars(&out))
        },
        None => Ok(segment.to_lowercase()),
    }
}

/// A path in canonical form: repeated, leading and trailing slashes
/// collapsed, each segment normalized.
pub fn normalize_path(path: &str) -> (r: Result<String, NormalizeError>)
    ensures
        result_view(r) == spec_normalize_path(path@),
        r matches Ok(q) ==> clean_path(q@) && non_empty(split(q@, '/')).len() == non_empty(
            split(path@, '/'),
        ).len(),
{
    let pc = to_chars(path);
    let pieces = split_chars(&pc, '/');
    let ghost all = views(pieces@);
    let mut normalized: Vec<Vec<char>> = Vec::new();
    let n = pieces.len();
    assert(all.take(0) =~= Seq::<Seq<char>>::empty());
    assert(views(normalized@) =~= Seq::<Seq<char>>::empty());
    for i in 0..n
        invariant
            n == pieces@.len(),
            all == views(pieces@),
            all == split(path@, '/'),
            spec_normalize_pieces(all.take(i as int)) == Ok::<Seq<Seq<char>>, SegmentFault>(views(normalized@)),
            normalized@.len() == non_empty(all.take(i as int)).len(),
            forall|j: int|
                0 <= j < normalized@.len() ==> (#[trigger] normalized@[j])@.len() > 0
                    && !normalized@[j]@.contains('/'),
    {
        let ghost before = all.take(i as int);
        assert(all.take(i + 1).drop_last() =~= before);
        assert(all.take(i + 1).last() == pieces@[i as int]@);
        proof {
            lemma_split_pieces(path@, '/');
            assert(!all[i as int].contains('/'));
        }
        if pieces[i].len() > 0 {
            let seg = from_chars(&pieces[i]);
            match normalize_segment(seg.as_str()) {
                Ok(s) => {
                    let ghost prev = views(normalized@);
                    let ghost prev_vec = normalized@;
                    normalized.push(to_chars(s.as_str()));
                    assert(views(normalized@) =~= prev.push(s@));
                    assert forall|j: int|
                        0 <= j < normalized@.len() implies (#[trigger] normalized@[j])@.len() > 0
                            && !normalized@[j]@.contains('/') by {
                        if j < prev_vec.len() {
                            assert(normalized@[j] == prev_vec[j]);
                        }
                    }
                },
                Err(e) => {
                    proof {
                        lemma_normalize_pieces_error(all, i + 1);
                        assert(all.take(n as int) =~= all);
                    }
                    return Err(e);
                },
            }
        }
    }
    assert(all.take(n as int) =~= all);
    if normalized.len() == 0 {
        let slash = vec!['/'];
        assert(slash@ =~= seq!['/']);
        proof {
            lemma_root_pieces();
        }
        Ok(from_chars(&slash))
    } else {
        let joined = join_chars(&normalized, '/');
        let slash = vec!['/'];
        let out = concat_chars(&slash, &joined);
        assert(slash@ =~= seq!['/']);
        proof {
            let ns = views(normalized@);
            assert forall|i: int| 0 <= i < ns.len() implies (#[trigger] ns[i]).len() > 0 && !ns[i].contains('/') by {
                assert(ns[i] == normalized@[i]@);
            }
            lemma_slash_joined_path(ns);
        }
        Ok(from_chars(&out))
    }
}


/// The method named by the word right before a quoted path, e.g. the `get`
/// of `app.get(`; `GET` when that word is not a known method.
pub fn method_before(prefix: &str) -> (r: String)
    ensures
        r@ == spec_method_before(prefix@),
{
    let pc = to_chars(prefix);
    let t = trim_end_chars(&pc);
    let mut k: usize = t.len();
    while k > 0 && t[k - 1] == '('
        invariant
            k <= t@.len(),
            forall|j: int| k <= j < t@.len() ==> #[trigger] t@[j] == '(',
        decreases k,
    {
        k = k - 1;
    }
    proof {
        lemma_trim_end_parens_at(t@, k as int);
    }
    let t2 = slice_chars(&t, 0, k);
    let mut w: usize = k;
    while w > 0 && (('a' <= t2[w - 1] && t2[w - 1] <= 'z') || ('A' <= t2[w - 1] && t2[w - 1] <= 'Z'))
        invariant
            w <= t2@.len(),
            forall|j: int| w <= j < t2@.len() ==> is_ascii_alpha(#[trigger] t2@[j]),
        decreases w,
    {
        w = w - 1;
    }
    proof {
        lemma_alpha_suffix_start_at(t2@, w as int);
    }
    let word = slice_chars(&t2, w, k);
    let word_str = from_chars(&word);
    assert(all_ascii(word_str@)) by {
        assert forall|i: int| 0 <= i < word_str@.len() implies is_ascii_char(#[trigger] word_str@[i]) by {
            assert(word_str@[i] == t2@[w + i]);
        }
    }
    let upper = word_str.as_str().to_uppercase();
    let uc = to_chars(upper.as_str());
    if is_known(&uc) {
        upper
    } else {
        from_chars(&get_method_chars())
    }
}

/// A leading method token and the rest of the line (with its leading
/// whitespace removed); a line whose first token is not a known method
/// keeps its whole text as the path, with `GET`.
pub fn split_method(line: &str) -> (r: (String, &str))
    ensures
        (r.0@, r.1@) == spec_split_method(line@),
{
    let lc = to_chars(line);
    let idx = find_whitespace(&lc);
    if idx < lc.len() {
        let first = line.substring_char(0, idx);
        let candidate = first.to_uppercase();
        return split_method_with(line, candidate);
    }
    (from_chars(&get_method_chars()), line)
}

/// The method and the rest of `line`, given `candidate`, the uppercase form
/// of the line's first whitespace-separated token: when there is whitespace
/// and `candidate` is a known method, `candidate` and the rest after the
/// token with its leading whitespace removed; otherwise `GET` and the whole line.
pub fn split_method_with(line: &str, candidate: String) -> (r: (String, &str))
    ensures
        (r.0@, r.1@) == spec_split_method_with(line@, candidate@),
{
    let lc = to_chars(line);
    let idx = find_whitespace(&lc);
    if idx < lc.len() {
        let cc = to_chars(candidate.as_str());
        if is_known(&cc) {
            let rest = line.substring_char(idx, lc.len());
            assert(rest@ =~= line@.skip(idx as int));
            return (candidate, trim_start_str(rest));
        }
    }
    (from_chars(&get_method_chars()), line)
}

/// The route named by a line of framework source: the first quote followed
/// by `/`, up to the next quote of the same kind, with the method read from
/// the word before it.
pub fn extract_embedded_route(line: &str) -> (r: Option<(String, &str)>)
    ensures
        match r {
            Some((m, p)) => spec_extract_embedded_route(line@) == Some((m@, p@)),
            None => spec_extract_embedded_route(line@) is None,
        },
{
    let lc = to_chars(line);
    let n = lc.len();
    for i in 0..n
        invariant
            n == lc@.len(),
            lc@ == line@,
            spec_embedded_from(line@, 0) == spec_embedded_from(line@, i as nat),
    {
        let c = lc[i];
        let start = i + 1;
        let ghost rest = line@.skip(start as int);
        if (c == '\'' || c == '"') && start < n && lc[start] == '/' {
            let tail = slice_chars(&lc, start, n);
            assert(tail@ =~= rest);
            let end = find_char(&tail, c);
            if end < tail.len() {
                let path = line.substring_char(start, start + end);
                let method = method_before(line.substring_char(0, i));
                assert(path@ =~= rest.take(end as int));
                assert(line@.subrange(0, i as int) =~= line@.take(i as int));
                return Some((method, path));
            }
        }
        assert(spec_embedded_from(line@, i as nat) == spec_embedded_from(line@, (i + 1) as nat));
    }
    None
}

/// Normalizes one line of route table input; `Ok(None)` for a blank or
/// comment line.
pub fn normalize_route(line: &str) -> (r: Result<Option<String>, NormalizeError>)
    ensures
        r matches Ok(Some(s)) ==> {
            &&& is_known_method(route_method(s@))
            &&& s@ == route_method(s@).push(' ') + route_path(s@)
            &&& clean_path(route_path(s@))
        },
        match r {
            Ok(Some(s)) => spec_normalize_route(line@) == Ok::<Option<Seq<char>>, SegmentFault>(Some(s@)),
            Ok(None) => spec_normalize_route(line@) == Ok::<Option<Seq<char>>, SegmentFault>(None),
            Err(e) => spec_normalize_route(line@) == Err::<Option<Seq<char>>, SegmentFault>(e@),
        },
{
    let trimmed = trim_str(line);
    let tc = to_chars(trimmed);
    if tc.len() == 0 || tc[0] == '#' {
        return Ok(None);
    }
    let (method, path) = match extract_embedded_route(trimmed) {
        Some((m, p)) => (m, p),
        None => split_method(trimmed),
    };
    match normalize_path(path) {
        Err(e) => Err(e),
        Ok(np) => {
            proof {
                lemma_get_is_known();
                lemma_embedded_method_known(trim(line@), 0);
                lemma_known_method_letters(method@);
                lemma_route_split(method@.push(' ') + np@, method@, np@);
            }
            let mut mc = to_chars(method.as_str());
            mc.push(' ');
            let pc = to_chars(np.as_str());
            let out = concat_chars(&mc, &pc);
            Ok(Some(from_chars(&out)))
        },
    }
}

/// Reduces an already-normalized `METHOD /path` line to a key that two
/// routes share exactly when a router could not tell them apart: each
/// parameter segment is folded to a bare `:`.
pub fn collision_key(normalized_route: &str) -> (r: String)
    ensures
        r@ == spec_collision_key(normalized_route@),
{
    let rc = to_chars(normalized_route);
    let n = rc.len();
    let sp = find_char(&rc, ' ');
    let mut key = slice_chars(&rc, 0, sp);
    let path = if sp < n {
        slice_chars(&rc, sp + 1, n)
    } else {
        Vec::new()
    };
    assert(path@ =~= route_path(normalized_route@));
    let pieces = split_chars(&path, '/');
    let ghost all = views(pieces@);
    let mut generic: Vec<Vec<char>> = Vec::new();
    let m = pieces.len();
    for i in 0..m
        invariant
            m == pieces@.len(),
            all == views(pieces@),
            all == split(route_path(normalized_route@), '/'),
            generic@.len() == i,
            views(generic@) == all.take(i as int).map_values(|seg: Seq<char>| generic_segment(seg)),
    {
        let ghost prev = views(generic@);
        if pieces[i].len() > 0 && pieces[i][0] == ':' {
            let colon = vec![':'];
            assert(colon@ =~= seq![':']);
            generic.push(colon);
            assert(views(generic@)[i as int] == generic_segment(all[i as int]));
        } else {
            generic.push(slice_chars(&pieces[i], 0, pieces[i].len()));
            assert(pieces@[i as int]@.subrange(0, pieces@[i as int]@.len() as int) =~= pieces@[i as int]@);
            assert(views(generic@)[i as int] == generic_segment(all[i as int]));
        }
        proof {
            let target = all.take(i + 1).map_values(|seg: Seq<char>| generic_segment(seg));
            assert forall|j: int| 0 <= j < i + 1 implies views(generic@)[j] == #[trigger] target[j] by {
                if j < i {
                    assert(views(generic@)[j] == prev[j]);
                    assert(prev[j] == generic_segment(all[j]));
                }
            }
            assert(views(generic@) =~= target);
        }
    }
    assert(all.take(m as int) =~= all);
    let joined = join_chars(&generic, '/');
    key.push(' ');
    let out = concat_chars(&key, &joined);
    from_chars(&out)
}


/// The text a `NormalizeError` is reported with.
pub open spec fn fault_message(f: SegmentFault) -> Seq<char> {
    match f {
        SegmentFault::EmptyParamName(seg) => "empty parameter name in segment '"@ + seg + "'"@,
        SegmentFault::InvalidParamName(seg) => "parameter name in segment '"@ + seg
            + "' must be alphanumeric or underscore"@,
    }
}

impl NormalizeError {
    /// The text this error is reported with.
    pub fn message(&self) -> (r: String)
        ensures
            r@ == fault_message(self@),
    {
        let mut out = String::new();
        match self {
            NormalizeError::EmptyParamName(seg) => {
                push_str(&mut out, "empty parameter name in segment '");
                push_str(&mut out, seg.as_str());
                push_str(&mut out, "'");
            },
            NormalizeError::InvalidParamName(seg) => {
                push_str(&mut out, "parameter name in segment '");
                push_str(&mut out, seg.as_str());
                push_str(&mut out, "' must be alphanumeric or underscore");
            },
        }
        out
    }
}

} // verus!
