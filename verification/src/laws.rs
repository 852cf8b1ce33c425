//! What holds of normalization and formatting across calls: normalized
//! routes are fixed points, the collision key folds exactly the parameter
//! names, extra slashes and the spelling of a parameter do not matter, a
//! line keeps its method and its quoted path, and reading an input as lines,
//! or several files one after another, loses no text.

use vstd::prelude::*;
use crate::chars::{
    non_empty, first_of, first_whitespace, join, split, trim, trim_end, trim_start, lemma_first_of,
    lemma_first_of_at, lemma_first_whitespace_at, lemma_join_split, lemma_split_join,
    lemma_split_pieces, last_of, lemma_last_of, lemma_join_prepend, lemma_non_empty_after_lead,
    lemma_join_no_double_slash, lemma_split_last, lemma_last_of_at, lemma_trim_start_at,
    lemma_trim_end_at,
};
use crate::route::{
    lemma_known_method_letters, lemma_get_is_known, lemma_route_split, lemma_embedded_method_known,
    generic_segment, generic_segments, is_known_method, is_param_segment, is_skipped_line,
    route_method, route_path, spec_collision_key,
    spec_embedded_from, spec_extract_embedded_route, spec_normalize_path, spec_normalize_pieces,
    spec_normalize_route, spec_normalize_segment, spec_param_name, spec_route_parts,
    spec_split_method, spec_split_method_with, is_param_char, spec_method_before, get_method, lemma_trim_end_parens_at,
    lemma_alpha_suffix_start_at, is_ascii_alpha, fault_message,
    valid_param_name, SegmentFault,
};
use crate::tool::{
    appended_file, check_lines, check_step, collision_message, decimal, digit, distinct, format_lines,
    format_step, location, not_normalized_message,
    non_flags, note_route, strip_cr, text_lines,
};
use crate::unicode::{all_ascii, ascii_lower, ascii_upper, char_is_whitespace, is_ascii_char};

verus! {

// ---------------------------------------------------------------------
// Vocabulary
// ---------------------------------------------------------------------

/// A path segment that normalizes to itself.
pub open spec fn stable_segment(seg: Seq<char>) -> bool {
    seg.len() > 0 && spec_normalize_segment(seg) == Ok::<Seq<char>, SegmentFault>(seg)
}

/// A path whose every segment after the leading `/` normalizes to itself:
/// `/` alone, or `/` followed by non-empty stable segments joined with `/`.
pub open spec fn stable_path(p: Seq<char>) -> bool {
    p == seq!['/'] || forall|i: int|
        1 <= i < split(p, '/').len() ==> stable_segment(#[trigger] split(p, '/')[i])
}

/// A route line already in canonical form: a known method, one space, a
/// path starting with `/` whose segments are canonical, no trailing
/// whitespace, and no quoted path for the embedded-route reader to find.
pub open spec fn is_canonical_route(r: Seq<char>) -> bool {
    &&& first_of(r, ' ') < r.len()
    &&& is_known_method(route_method(r))
    &&& route_path(r).len() > 0
    &&& route_path(r)[0] == '/'
    &&& stable_path(route_path(r))
    &&& !char_is_whitespace(r.last())
    &&& spec_extract_embedded_route(r) is None
}

/// Two path segments a router cannot tell apart: both parameters, or the
/// same static text.
pub open spec fn same_shape(a: Seq<char>, b: Seq<char>) -> bool {
    (is_param_segment(a) && is_param_segment(b)) || (!is_param_segment(a) && !is_param_segment(
        b,
    ) && a == b)
}

// ---------------------------------------------------------------------
// Helper lemmas
// ---------------------------------------------------------------------



/// A sequence that starts and ends with non-whitespace trims to itself.
proof fn lemma_trim_noop(s: Seq<char>)
    requires
        s.len() > 0,
        !char_is_whitespace(s[0]),
        !char_is_whitespace(s.last()),
    ensures
        trim(s) == s,
{
    assert(trim_start(s) == s);
    assert(trim_end(s) == s);
}



/// Pieces that are an empty piece followed by stable segments normalize to those segments.
proof fn lemma_stable_pieces(s: Seq<Seq<char>>)
    requires
        s.len() >= 1,
        s[0].len() == 0,
        forall|i: int| 1 <= i < s.len() ==> stable_segment(#[trigger] s[i]),
    ensures
        spec_normalize_pieces(s) == Ok::<Seq<Seq<char>>, SegmentFault>(s.drop_first()),
    decreases s.len(),
{
    if s.len() == 1 {
        assert(s.drop_last() =~= Seq::<Seq<char>>::empty());
        assert(spec_normalize_pieces(Seq::<Seq<char>>::empty()) == Ok::<Seq<Seq<char>>, SegmentFault>(Seq::<Seq<char>>::empty()));
        assert(s.last().len() == 0);
        assert(s.drop_first() =~= Seq::<Seq<char>>::empty());
    } else {
        let t = s.drop_last();
        assert forall|i: int| 1 <= i < t.len() implies stable_segment(#[trigger] t[i]) by {
            assert(t[i] == s[i]);
        }
        lemma_stable_pieces(t);
        assert(stable_segment(s[s.len() - 1]));
        assert(s.last() == s[s.len() - 1]);
        assert(spec_normalize_segment(s.last()) == Ok::<Seq<char>, SegmentFault>(s.last()));
        assert(t.drop_first().push(s.last()) =~= s.drop_first());
    }
}

/// A stable path normalizes to itself.
proof fn lemma_stable_path(p: Seq<char>)
    requires
        p.len() > 0,
        p[0] == '/',
        stable_path(p),
    ensures
        spec_normalize_path(p) == Ok::<Seq<char>, SegmentFault>(p),
{
    let s = split(p, '/');
    lemma_split_pieces(p, '/');
    lemma_join_split(p, '/');
    if p == seq!['/'] {
        let e = Seq::<char>::empty();
        let ee = seq![e, e];
        assert(ee.len() == 2);
        assert(ee.drop_last() =~= seq![e]);
        assert(join(seq![e], '/') == e);
        assert(join(ee, '/') == join(ee.drop_last(), '/').push('/') + ee.last());
        assert(join(ee, '/') =~= p);
        assert forall|i: int| 0 <= i < ee.len() implies !(#[trigger] ee[i]).contains('/') by {}
        lemma_split_join(ee, '/');
        assert(s == ee);
        assert(s.drop_last() =~= seq![e]);
        assert(spec_normalize_pieces(Seq::<Seq<char>>::empty()) == Ok::<Seq<Seq<char>>, SegmentFault>(Seq::<Seq<char>>::empty()));
        assert(seq![e].drop_last() =~= Seq::<Seq<char>>::empty());
        assert(spec_normalize_pieces(seq![e]) == Ok::<Seq<Seq<char>>, SegmentFault>(Seq::<Seq<char>>::empty()));
        assert(spec_normalize_pieces(s) == Ok::<Seq<Seq<char>>, SegmentFault>(Seq::<Seq<char>>::empty()));
        assert(seq![e].drop_last() =~= Seq::<Seq<char>>::empty());
    } else {
        // The first piece is empty: p starts with '/'.
        lemma_first_of_at(p, '/', 0);
        assert(s.len() >= 2) by {
            if s.len() == 1 {
                assert(join(s, '/') == s[0]);
                assert(s[0].contains('/')) by {
                    assert(s[0][0] == '/');
                }
            }
        }
        let rest = s.drop_first();
        assert(s =~= seq![s[0]] + rest);
        lemma_join_prepend(s[0], rest, '/');
        assert(s[0].len() == 0) by {
            // join(s) == s[0] + "/" + ..., and p[0] == '/' while s[0] has no '/'
            assert(p == s[0].push('/') + join(rest, '/'));
            if s[0].len() > 0 {
                assert(p[0] == s[0][0]);
                assert(s[0].contains('/'));
            }
        }
        lemma_stable_pieces(s);
        assert(s[0].push('/') =~= seq!['/']);
        assert(rest.len() >= 1);
        assert(p == seq!['/'] + join(rest, '/'));
    }
}

/// A normalized route is a known method, one space, and a path that starts with `/`.
proof fn lemma_normalized_shape(line: Seq<char>, r: Seq<char>)
    requires
        spec_normalize_route(line) == Ok::<Option<Seq<char>>, SegmentFault>(Some(r)),
    ensures
        is_known_method(route_method(r)),
        first_of(r, ' ') < r.len(),
        r == route_method(r).push(' ') + route_path(r),
        route_path(r).len() > 0,
        route_path(r)[0] == '/',
        spec_normalize_path(spec_route_parts(trim(line)).1) == Ok::<Seq<char>, SegmentFault>(
            route_path(r),
        ),
{
    let t = trim(line);
    let (m, p) = spec_route_parts(t);
    lemma_get_is_known();
    assert(is_known_method(m)) by {
        match spec_extract_embedded_route(t) {
            Some(parts) => {
                lemma_embedded_method_known(t, 0);
            },
            None => {},
        }
    }
    let q = match spec_normalize_path(p) {
        Ok(q) => q,
        Err(_) => Seq::empty(),
    };
    assert(r == m.push(' ') + q);
    lemma_known_method_letters(m);
    lemma_route_split(r, m, q);
}



/// The method part of a route holds no space.
proof fn lemma_route_method_spaceless(r: Seq<char>)
    ensures
        !route_method(r).contains(' '),
{
    lemma_first_of(r, ' ');
    let m = route_method(r);
    if m.contains(' ') {
        let j = choose|j: int| 0 <= j < m.len() && m[j] == ' ';
        assert(r[j] == m[j]);
    }
}

/// The folded segments of a path: at least one, none holding `/`, and the
/// key's path part splits back into them.
proof fn lemma_generic_pieces(path: Seq<char>)
    ensures
        generic_segments(path).len() == split(path, '/').len(),
        generic_segments(path).len() >= 1,
        split(join(generic_segments(path), '/'), '/') == generic_segments(path),
{
    lemma_split_pieces(path, '/');
    let g = generic_segments(path);
    assert forall|i: int| 0 <= i < g.len() implies !(#[trigger] g[i]).contains('/') by {
        let piece = split(path, '/')[i];
        assert(g[i] == generic_segment(piece));
        if is_param_segment(piece) {
            assert(g[i] =~= seq![':']);
            if g[i].contains('/') {
                let j = choose|j: int| 0 <= j < g[i].len() && g[i][j] == '/';
            }
        }
    }
    lemma_split_join(g, '/');
}

/// Where the key's space falls: right after the method.
proof fn lemma_key_split(r: Seq<char>)
    ensures
        first_of(spec_collision_key(r), ' ') == route_method(r).len(),
        spec_collision_key(r).take(route_method(r).len() as int) == route_method(r),
        spec_collision_key(r).skip(route_method(r).len() + 1 as int) == join(
            generic_segments(route_path(r)),
            '/',
        ),
{
    lemma_route_method_spaceless(r);
    let m = route_method(r);
    let j = join(generic_segments(route_path(r)), '/');
    lemma_route_split(spec_collision_key(r), m, j);
}

/// Normalizing the pieces looks only at the non-empty ones.
proof fn lemma_pieces_non_empty(x: Seq<Seq<char>>)
    ensures
        spec_normalize_pieces(x) == spec_normalize_pieces(non_empty(x)),
    decreases x.len(),
{
    if x.len() > 0 {
        lemma_pieces_non_empty(x.drop_last());
        if x.last().len() > 0 {
            let ne = non_empty(x.drop_last()).push(x.last());
            assert(ne.drop_last() =~= non_empty(x.drop_last()));
            assert(ne.last() == x.last());
        }
    } else {
        assert(non_empty(x) == x);
    }
}

// ---------------------------------------------------------------------
// ASCII text
// ---------------------------------------------------------------------

proof fn lemma_trim_ascii(s: Seq<char>)
    requires
        all_ascii(s),
    ensures
        all_ascii(trim_start(s)),
        all_ascii(trim_end(s)),
        all_ascii(trim(s)),
    decreases s.len(),
{
    if s.len() > 0 {
        let a = s.drop_first();
        let b = s.drop_last();
        assert(all_ascii(a)) by {
            assert forall|i: int| 0 <= i < a.len() implies is_ascii_char(#[trigger] a[i]) by {
                assert(a[i] == s[i + 1]);
            }
        }
        assert(all_ascii(b)) by {
            assert forall|i: int| 0 <= i < b.len() implies is_ascii_char(#[trigger] b[i]) by {
                assert(b[i] == s[i]);
            }
        }
        lemma_trim_ascii(a);
        lemma_trim_ascii(b);
        lemma_trim_end_ascii(trim_start(s));
    }
}

proof fn lemma_trim_end_ascii(s: Seq<char>)
    requires
        all_ascii(s),
    ensures
        all_ascii(trim_end(s)),
    decreases s.len(),
{
    if s.len() > 0 {
        let b = s.drop_last();
        assert(all_ascii(b)) by {
            assert forall|i: int| 0 <= i < b.len() implies is_ascii_char(#[trigger] b[i]) by {
                assert(b[i] == s[i]);
            }
        }
        lemma_trim_end_ascii(b);
    }
}

/// The pieces of an ASCII text are ASCII.
proof fn lemma_split_ascii(s: Seq<char>, sep: char)
    requires
        all_ascii(s),
    ensures
        forall|i: int| 0 <= i < split(s, sep).len() ==> all_ascii(#[trigger] split(s, sep)[i]),
    decreases s.len(),
{
    lemma_last_of(s, sep);
    let k = last_of(s, sep);
    if k >= 0 {
        let head = s.take(k);
        let tail = s.skip(k + 1);
        assert(all_ascii(head)) by {
            assert forall|i: int| 0 <= i < head.len() implies is_ascii_char(#[trigger] head[i]) by {
                assert(head[i] == s[i]);
            }
        }
        assert(all_ascii(tail)) by {
            assert forall|i: int| 0 <= i < tail.len() implies is_ascii_char(#[trigger] tail[i]) by {
                assert(tail[i] == s[k + 1 + i]);
            }
        }
        lemma_split_ascii(head, sep);
        assert forall|i: int| 0 <= i < split(s, sep).len() implies all_ascii(
            #[trigger] split(s, sep)[i],
        ) by {
            if i < split(s, sep).len() - 1 {
                assert(split(s, sep)[i] == split(head, sep)[i]);
            }
        }
    }
}

/// The path a route line is read with is ASCII when the line is.
proof fn lemma_route_parts_ascii(t: Seq<char>)
    requires
        all_ascii(t),
    ensures
        all_ascii(spec_route_parts(t).1),
{
    lemma_embedded_method_known(t, 0);
    let idx = first_whitespace(t);
    if idx < t.len() {
        let rest = t.skip(idx as int);
        assert(all_ascii(rest)) by {
            assert forall|i: int| 0 <= i < rest.len() implies is_ascii_char(#[trigger] rest[i]) by {
                assert(rest[i] == t[idx + i]);
            }
        }
        lemma_trim_ascii(rest);
    }
}

/// Every normalized segment comes from some non-empty piece.
proof fn lemma_pieces_origin(pieces: Seq<Seq<char>>, done: Seq<Seq<char>>)
    requires
        spec_normalize_pieces(pieces) == Ok::<Seq<Seq<char>>, SegmentFault>(done),
    ensures
        forall|i: int|
            0 <= i < done.len() ==> exists|j: int|
                0 <= j < pieces.len() && (#[trigger] pieces[j]).len() > 0 && spec_normalize_segment(
                    pieces[j],
                ) == Ok::<Seq<char>, SegmentFault>(#[trigger] done[i]),
    decreases pieces.len(),
{
    if pieces.len() > 0 {
        let front = pieces.drop_last();
        let prev = match spec_normalize_pieces(front) {
            Ok(d) => d,
            Err(_) => Seq::empty(),
        };
        lemma_pieces_origin(front, prev);
        assert forall|i: int| 0 <= i < done.len() implies exists|j: int|
            0 <= j < pieces.len() && (#[trigger] pieces[j]).len() > 0 && spec_normalize_segment(
                pieces[j],
            ) == Ok::<Seq<char>, SegmentFault>(#[trigger] done[i]) by {
            if i < prev.len() {
                assert(done[i] == prev[i]);
                let j = choose|j: int|
                    0 <= j < front.len() && (#[trigger] front[j]).len() > 0
                        && spec_normalize_segment(front[j]) == Ok::<Seq<char>, SegmentFault>(
                        prev[i],
                    );
                assert(pieces[j] == front[j]);
            } else {
                assert(pieces[pieces.len() - 1] == pieces.last());
            }
        }
    }
}

/// A normalized ASCII segment is non-empty, holds no `/`, and normalizes to itself.

/// The path of a route normalized from ASCII text is stable.
/// Normalizing pieces keeps one segment per non-empty piece.
proof fn lemma_pieces_count(pieces: Seq<Seq<char>>, done: Seq<Seq<char>>)
    requires
        spec_normalize_pieces(pieces) == Ok::<Seq<Seq<char>>, SegmentFault>(done),
    ensures
        done.len() == non_empty(pieces).len(),
    decreases pieces.len(),
{
    if pieces.len() > 0 {
        let front = pieces.drop_last();
        let prev = match spec_normalize_pieces(front) {
            Ok(d) => d,
            Err(_) => Seq::empty(),
        };
        lemma_pieces_count(front, prev);
    }
}



/// The segments of a path normalized from ASCII text: one per non-empty
/// piece of the input, each non-empty, free of `/` and stable.
proof fn lemma_ascii_path_pieces(p: Seq<char>, q: Seq<char>) -> (ns: Seq<Seq<char>>)
    requires
        all_ascii(p),
        spec_normalize_path(p) == Ok::<Seq<char>, SegmentFault>(q),
    ensures
        ns.len() == non_empty(split(p, '/')).len(),
        forall|i: int|
            0 <= i < ns.len() ==> stable_segment(#[trigger] ns[i]) && !ns[i].contains('/'),
        ns.len() == 0 ==> q == seq!['/'],
        ns.len() > 0 ==> q == seq!['/'] + join(ns, '/') && split(q, '/') == seq![Seq::<char>::empty()]
            + ns,
        !p.contains('\n') ==> forall|i: int| 0 <= i < ns.len() ==> !(#[trigger] ns[i]).contains('\n'),
{
    let pieces = split(p, '/');
    lemma_split_ascii(p, '/');
    lemma_split_pieces(p, '/');
    let ns = match spec_normalize_pieces(pieces) {
        Ok(d) => d,
        Err(_) => Seq::empty(),
    };
    lemma_pieces_origin(pieces, ns);
    lemma_pieces_count(pieces, ns);
    assert forall|i: int| 0 <= i < ns.len() implies stable_segment(#[trigger] ns[i]) && !ns[i].contains('/') by {
        let j = choose|j: int|
            0 <= j < pieces.len() && (#[trigger] pieces[j]).len() > 0 && spec_normalize_segment(
                pieces[j],
            ) == Ok::<Seq<char>, SegmentFault>(ns[i]);
        law_ascii_segment_idempotent(pieces[j], ns[i]);
    }
    if !p.contains('\n') {
        lemma_split_free(p, '/', '\n');
        assert forall|i: int| 0 <= i < ns.len() implies !(#[trigger] ns[i]).contains('\n') by {
            let j = choose|j: int|
                0 <= j < pieces.len() && (#[trigger] pieces[j]).len() > 0 && spec_normalize_segment(
                    pieces[j],
                ) == Ok::<Seq<char>, SegmentFault>(ns[i]);
            lemma_ascii_segment_newline_free(pieces[j], ns[i]);
        }
    }
    if ns.len() > 0 {
        let e = Seq::<char>::empty();
        let all = seq![e] + ns;
        lemma_join_prepend(e, ns, '/');
        assert(e.push('/') =~= seq!['/']);
        assert(q == join(all, '/'));
        assert forall|i: int| 0 <= i < all.len() implies !(#[trigger] all[i]).contains('/') by {
            if i > 0 {
                assert(all[i] == ns[i - 1]);
            } else if all[0].contains('/') {
                let j = choose|j: int| 0 <= j < all[0].len() && all[0][j] == '/';
            }
        }
        lemma_split_join(all, '/');
    }
    ns
}

/// The path of a route normalized from ASCII text is stable.
proof fn lemma_ascii_path_stable(p: Seq<char>, q: Seq<char>)
    requires
        all_ascii(p),
        spec_normalize_path(p) == Ok::<Seq<char>, SegmentFault>(q),
    ensures
        stable_path(q),
{
    let ns = lemma_ascii_path_pieces(p, q);
    if ns.len() > 0 {
        assert forall|i: int| 1 <= i < split(q, '/').len() implies stable_segment(
            #[trigger] split(q, '/')[i],
        ) by {
            assert(split(q, '/')[i] == ns[i - 1]);
        }
    }
}

// ---------------------------------------------------------------------
// Whole inputs
// ---------------------------------------------------------------------

/// The routes formatting writes out for the given lines, in order.
pub open spec fn written_routes(lines: Seq<Seq<char>>) -> Seq<Seq<char>>
    decreases lines.len(),
{
    if lines.len() == 0 {
        Seq::empty()
    } else {
        match spec_normalize_route(lines.last()) {
            Ok(Some(n)) => written_routes(lines.drop_last()).push(n),
            _ => written_routes(lines.drop_last()),
        }
    }
}

/// The formatted text is the routes written for the lines, in line order,
/// each ended by a newline: one route for every line that normalizes to one.
pub proof fn law_format_text_is_routes(lines: Seq<Seq<char>>, label: Seq<char>)
    ensures
        format_lines(lines, label).text == join(written_routes(lines).push(Seq::empty()), '\n'),
    decreases lines.len(),
{
    let e = Seq::<char>::empty();
    if lines.len() == 0 {
        assert(written_routes(lines).push(e) =~= seq![e]);
    } else {
        let front = lines.drop_last();
        law_format_text_is_routes(front, label);
        let rs = written_routes(front);
        match spec_normalize_route(lines.last()) {
            Ok(Some(n)) => {
                let with_n = rs.push(n);
                assert(with_n.push(e).drop_last() =~= with_n);
                assert(join(with_n.push(e), '\n') == join(with_n, '\n').push('\n') + e);
                assert(rs.push(e).drop_last() =~= rs);
                if rs.len() == 0 {
                    assert(with_n =~= seq![n]);
                    assert(join(rs.push(e), '\n') == e) by {
                        assert(rs.push(e) =~= seq![e]);
                    }
                    assert(join(with_n, '\n') == n);
                } else {
                    assert(with_n.drop_last() =~= rs);
                    assert(join(rs.push(e), '\n') == join(rs, '\n').push('\n') + e);
                }
                let st = format_lines(front, label);
                assert(format_lines(lines, label).text == note_route(
                    st,
                    n,
                    lines.len() as nat,
                    label,
                ).text + n.push('\n'));
                assert(join(with_n.push(e), '\n') =~= join(rs.push(e), '\n') + n.push('\n'));
            },
            _ => {},
        }
    }
}

/// Reading back routes written one per line gives the routes.
proof fn lemma_lines_of_routes(rs: Seq<Seq<char>>)
    requires
        forall|i: int| 0 <= i < rs.len() ==> (#[trigger] rs[i]).len() > 0 && !rs[i].contains('\n') && rs[i].last() != '\r',
    ensures
        text_lines(join(rs.push(Seq::empty()), '\n')) == rs,
{
    let e = Seq::<char>::empty();
    let all = rs.push(e);
    let s = join(all, '\n');
    assert forall|i: int| 0 <= i < all.len() implies !(#[trigger] all[i]).contains('\n') by {
        if i < rs.len() {
            assert(all[i] == rs[i]);
        } else if all[i].contains('\n') {
            let j = choose|j: int| 0 <= j < all[i].len() && all[i][j] == '\n';
        }
    }
    lemma_split_join(all, '\n');
    if rs.len() == 0 {
        assert(all =~= seq![e]);
        assert(s == e);
    } else {
        assert(all.drop_last() =~= rs);
        assert(s == join(rs, '\n').push('\n') + e);
        assert(s.last() == '\n');
        assert(rs.map_values(|p: Seq<char>| strip_cr(p)) =~= rs);
    }
}

/// Lines that are all fixed points are written back unchanged.
proof fn lemma_written_fixed_points(rs: Seq<Seq<char>>)
    requires
        forall|i: int| 0 <= i < rs.len() ==> spec_normalize_route(#[trigger] rs[i]) == Ok::<Option<Seq<char>>, SegmentFault>(Some(rs[i])),
    ensures
        written_routes(rs) == rs,
    decreases rs.len(),
{
    if rs.len() > 0 {
        let front = rs.drop_last();
        assert forall|i: int| 0 <= i < front.len() implies spec_normalize_route(#[trigger] front[i]) == Ok::<Option<Seq<char>>, SegmentFault>(Some(front[i])) by {
            assert(front[i] == rs[i]);
        }
        lemma_written_fixed_points(front);
        assert(spec_normalize_route(rs[rs.len() - 1]) == Ok::<Option<Seq<char>>, SegmentFault>(Some(rs.last())));
        assert(front.push(rs.last()) =~= rs);
    }
}

/// The collision keys of some routes, in order.
pub open spec fn route_keys(rs: Seq<Seq<char>>) -> Seq<Seq<char>> {
    rs.map_values(|r: Seq<char>| spec_collision_key(r))
}

/// Formatting remembers exactly the keys of the routes it wrote, and when
/// it reported nothing those keys are all different.
proof fn lemma_format_seen(lines: Seq<Seq<char>>, label: Seq<char>)
    ensures
        forall|k: Seq<char>|
            format_lines(lines, label).seen.dom().contains(k) <==> #[trigger] route_keys(
                written_routes(lines),
            ).contains(k),
        !format_lines(lines, label).had_error ==> distinct(route_keys(written_routes(lines))),
    decreases lines.len(),
{
    if lines.len() > 0 {
        let front = lines.drop_last();
        lemma_format_seen(front, label);
        let st = format_lines(front, label);
        let rs = written_routes(front);
        let ks = route_keys(rs);
        match spec_normalize_route(lines.last()) {
            Ok(Some(n)) => {
                let k = spec_collision_key(n);
                let ks2 = route_keys(rs.push(n));
                assert(ks2 =~= ks.push(k));
                assert forall|x: Seq<char>|
                    format_lines(lines, label).seen.dom().contains(x) <==> #[trigger] ks2.contains(x) by {
                    if ks2.contains(x) && x != k {
                        let j = choose|j: int| 0 <= j < ks2.len() && ks2[j] == x;
                        assert(ks[j] == x);
                    }
                    if ks.contains(x) {
                        let j = choose|j: int| 0 <= j < ks.len() && ks[j] == x;
                        assert(ks2[j] == x);
                    }
                    assert(ks2[ks.len() as int] == k);
                }
                if !format_lines(lines, label).had_error {
                    assert(!st.had_error);
                    assert(!st.seen.dom().contains(k));
                    assert(!ks.contains(k));
                    assert forall|i: int, j: int| 0 <= i < j < ks2.len() implies ks2[i] != ks2[j] by {
                        if j == ks.len() {
                            assert(ks2[i] == ks[i]);
                            assert(ks.contains(ks[i]));
                        } else {
                            assert(ks2[i] == ks[i] && ks2[j] == ks[j]);
                        }
                    }
                }
            },
            _ => {},
        }
    }
}

/// Checking routes that are each canonical and trimmed, with all-different
/// keys, reports nothing.
proof fn lemma_check_clean(rs: Seq<Seq<char>>)
    requires
        forall|i: int|
            0 <= i < rs.len() ==> spec_normalize_route(#[trigger] rs[i]) == Ok::<
                Option<Seq<char>>,
                SegmentFault,
            >(Some(rs[i])) && trim(rs[i]) == rs[i],
        distinct(route_keys(rs)),
    ensures
        !check_lines(rs).had_error,
        forall|k: Seq<char>|
            check_lines(rs).seen.dom().contains(k) <==> #[trigger] route_keys(rs).contains(k),
    decreases rs.len(),
{
    if rs.len() > 0 {
        let front = rs.drop_last();
        let ks = route_keys(front);
        let ks2 = route_keys(rs);
        assert(ks2 =~= ks.push(spec_collision_key(rs.last())));
        assert forall|i: int|
            0 <= i < front.len() implies spec_normalize_route(#[trigger] front[i]) == Ok::<
                Option<Seq<char>>,
                SegmentFault,
            >(Some(front[i])) && trim(front[i]) == front[i] by {
            assert(front[i] == rs[i]);
        }
        assert forall|i: int, j: int| 0 <= i < j < ks.len() implies ks[i] != ks[j] by {
            assert(ks[i] == ks2[i] && ks[j] == ks2[j]);
        }
        lemma_check_clean(front);
        let r = rs.last();
        let k = spec_collision_key(r);
        assert(spec_normalize_route(rs[rs.len() - 1]) == Ok::<Option<Seq<char>>, SegmentFault>(
            Some(r),
        ));
        assert(trim(rs[rs.len() - 1]) == r);
        assert(!ks.contains(k)) by {
            if ks.contains(k) {
                let j = choose|j: int| 0 <= j < ks.len() && ks[j] == k;
                assert(ks2[j] == ks2[ks.len() as int]);
            }
        }
        assert forall|x: Seq<char>| check_lines(rs).seen.dom().contains(x) <==> #[trigger] ks2.contains(
            x,
        ) by {
            if ks2.contains(x) && x != k {
                let j = choose|j: int| 0 <= j < ks2.len() && ks2[j] == x;
                assert(ks[j] == x);
            }
            if ks.contains(x) {
                let j = choose|j: int| 0 <= j < ks.len() && ks[j] == x;
                assert(ks2[j] == x);
            }
            assert(ks2[ks.len() as int] == k);
        }
    }
}

// ---------------------------------------------------------------------
// Errors
// ---------------------------------------------------------------------

/// A piece that normalizing a path lets through: empty, or a segment that normalizes.
pub open spec fn piece_ok(x: Seq<char>) -> bool {
    x.len() == 0 || spec_normalize_segment(x) is Ok
}

/// Normalizing pieces succeeds exactly when every piece is let through.
proof fn lemma_pieces_ok(ps: Seq<Seq<char>>)
    ensures
        spec_normalize_pieces(ps) is Ok <==> forall|j: int| 0 <= j < ps.len() ==> piece_ok(#[trigger] ps[j]),
    decreases ps.len(),
{
    if ps.len() > 0 {
        let front = ps.drop_last();
        lemma_pieces_ok(front);
        if forall|j: int| 0 <= j < ps.len() ==> piece_ok(#[trigger] ps[j]) {
            assert forall|j: int| 0 <= j < front.len() implies piece_ok(#[trigger] front[j]) by {
                assert(front[j] == ps[j]);
            }
            assert(piece_ok(ps[ps.len() - 1]));
        }
        if spec_normalize_pieces(ps) is Ok {
            assert forall|j: int| 0 <= j < ps.len() implies piece_ok(#[trigger] ps[j]) by {
                if j < front.len() {
                    assert(front[j] == ps[j]);
                    assert(piece_ok(front[j]));
                } else {
                    assert(ps[j] == ps.last());
                }
            }
        }
    }
}

/// Normalizing pieces fails with `e` exactly when `e` is the error of the
/// first piece that is not let through.
proof fn lemma_pieces_first_error(ps: Seq<Seq<char>>, e: SegmentFault)
    ensures
        spec_normalize_pieces(ps) == Err::<Seq<Seq<char>>, SegmentFault>(e) <==> exists|i: int|
            0 <= i < ps.len() && (#[trigger] ps[i]).len() > 0 && spec_normalize_segment(ps[i])
                == Err::<Seq<char>, SegmentFault>(e) && forall|j: int|
                0 <= j < i ==> piece_ok(#[trigger] ps[j]),
    decreases ps.len(),
{
    if ps.len() > 0 {
        let front = ps.drop_last();
        let n = ps.len() - 1;
        lemma_pieces_first_error(front, e);
        lemma_pieces_ok(front);
        if spec_normalize_pieces(ps) == Err::<Seq<Seq<char>>, SegmentFault>(e) {
            if spec_normalize_pieces(front) == Err::<Seq<Seq<char>>, SegmentFault>(e) {
                let i = choose|i: int|
                    0 <= i < front.len() && (#[trigger] front[i]).len() > 0 && spec_normalize_segment(
                        front[i],
                    ) == Err::<Seq<char>, SegmentFault>(e) && forall|j: int|
                        0 <= j < i ==> piece_ok(#[trigger] front[j]);
                assert(ps[i] == front[i]);
                assert forall|j: int| 0 <= j < i implies piece_ok(#[trigger] ps[j]) by {
                    assert(ps[j] == front[j]);
                }
            } else {
                assert(spec_normalize_pieces(front) is Ok);
                assert(ps[n] == ps.last());
                assert forall|j: int| 0 <= j < n implies piece_ok(#[trigger] ps[j]) by {
                    assert(ps[j] == front[j]);
                    assert(piece_ok(front[j]));
                }
            }
        }
        if exists|i: int|
            0 <= i < ps.len() && (#[trigger] ps[i]).len() > 0 && spec_normalize_segment(ps[i])
                == Err::<Seq<char>, SegmentFault>(e) && forall|j: int|
                0 <= j < i ==> piece_ok(#[trigger] ps[j]) {
            let i = choose|i: int|
                0 <= i < ps.len() && (#[trigger] ps[i]).len() > 0 && spec_normalize_segment(ps[i])
                    == Err::<Seq<char>, SegmentFault>(e) && forall|j: int|
                    0 <= j < i ==> piece_ok(#[trigger] ps[j]);
            if i < n {
                assert(front[i] == ps[i]);
                assert forall|j: int| 0 <= j < i implies piece_ok(#[trigger] front[j]) by {
                    assert(ps[j] == front[j]);
                }
            } else {
                assert forall|j: int| 0 <= j < front.len() implies piece_ok(#[trigger] front[j]) by {
                    assert(ps[j] == front[j]);
                }
                assert(ps.last() == ps[n]);
            }
        }
    }
}

/// Line `j` of `lines` is a route whose collision key is `k`.
pub open spec fn route_key_at(lines: Seq<Seq<char>>, j: int, k: Seq<char>) -> bool {
    spec_normalize_route(lines[j]) matches Ok(Some(m)) && spec_collision_key(m) == k
}

/// Some line before line `i` is a route whose collision key is `k`.
pub open spec fn key_before(lines: Seq<Seq<char>>, i: int, k: Seq<char>) -> bool {
    exists|j: int| 0 <= j < i && #[trigger] route_key_at(lines, j, k)
}

/// Formatting reports line `i`: it does not normalize, or its key was seen on an earlier line.
pub open spec fn format_reports_line(lines: Seq<Seq<char>>, i: int) -> bool {
    match spec_normalize_route(lines[i]) {
        Err(_) => true,
        Ok(Some(n)) => key_before(lines, i, spec_collision_key(n)),
        Ok(None) => false,
    }
}

/// Checking reports line `i`: as formatting does, or it is a route that
/// differs from its line by more than surrounding whitespace.
pub open spec fn check_reports_line(lines: Seq<Seq<char>>, i: int) -> bool {
    match spec_normalize_route(lines[i]) {
        Err(_) => true,
        Ok(Some(n)) => key_before(lines, i, spec_collision_key(n)) || trim(lines[i]) != n,
        Ok(None) => false,
    }
}

/// What a line reports does not depend on the lines after it.
proof fn lemma_reports_prefix(lines: Seq<Seq<char>>, i: int)
    requires
        0 <= i < lines.len() - 1,
    ensures
        format_reports_line(lines, i) == format_reports_line(lines.drop_last(), i),
        check_reports_line(lines, i) == check_reports_line(lines.drop_last(), i),
{
    let front = lines.drop_last();
    assert(front[i] == lines[i]);
    assert forall|k: Seq<char>| key_before(lines, i, k) == key_before(front, i, k) by {
        if key_before(lines, i, k) {
            let j = choose|j: int| 0 <= j < i && #[trigger] route_key_at(lines, j, k);
            assert(front[j] == lines[j]);
            assert(route_key_at(front, j, k));
        }
        if key_before(front, i, k) {
            let j = choose|j: int| 0 <= j < i && #[trigger] route_key_at(front, j, k);
            assert(front[j] == lines[j]);
            assert(route_key_at(lines, j, k));
        }
    }
}

/// The keys formatting and checking remember are those of the routes so far.
proof fn lemma_seen_keys(lines: Seq<Seq<char>>, label: Seq<char>)
    ensures
        forall|k: Seq<char>|
            #[trigger] format_lines(lines, label).seen.dom().contains(k) <==> key_before(
                lines,
                lines.len() as int,
                k,
            ),
        forall|k: Seq<char>|
            #[trigger] check_lines(lines).seen.dom().contains(k) <==> key_before(
                lines,
                lines.len() as int,
                k,
            ),
    decreases lines.len(),
{
    if lines.len() > 0 {
        let front = lines.drop_last();
        let n = lines.len() - 1;
        lemma_seen_keys(front, label);
        assert(lines[n] == lines.last());
        let fs = format_lines(front, label);
        let cs = check_lines(front);
        assert(format_lines(lines, label) == format_step(fs, lines.last(), lines.len(), label));
        assert(check_lines(lines) == check_step(cs, lines.last(), lines.len()));
        assert forall|k: Seq<char>| key_before(lines, lines.len() as int, k) <==> (key_before(
            front,
            n,
            k,
        ) || route_key_at(lines, n, k)) by {
            if key_before(lines, lines.len() as int, k) {
                let j = choose|j: int| 0 <= j < lines.len() && #[trigger] route_key_at(lines, j, k);
                if j < n {
                    assert(front[j] == lines[j]);
                    assert(route_key_at(front, j, k));
                }
            }
            if key_before(front, n, k) {
                let j = choose|j: int| 0 <= j < n && #[trigger] route_key_at(front, j, k);
                assert(front[j] == lines[j]);
                assert(route_key_at(lines, j, k));
            }
        }
        assert forall|k: Seq<char>|
            #[trigger] format_lines(lines, label).seen.dom().contains(k) <==> key_before(
                lines,
                lines.len() as int,
                k,
            ) by {
            match spec_normalize_route(lines.last()) {
                Ok(Some(m)) => {
                    let st2 = note_route(fs, m, lines.len() as nat, label);
                    assert(format_lines(lines, label).seen == st2.seen);
                    assert(st2.seen.dom().contains(k) <==> (fs.seen.dom().contains(k) || k
                        == spec_collision_key(m)));
                },
                _ => {},
            }
        }
        assert forall|k: Seq<char>|
            #[trigger] check_lines(lines).seen.dom().contains(k) <==> key_before(
                lines,
                lines.len() as int,
                k,
            ) by {
            match spec_normalize_route(lines.last()) {
                Ok(Some(m)) => {
                    let st2 = note_route(cs, m, lines.len() as nat, Seq::empty());
                    assert(check_lines(lines).seen == st2.seen);
                    assert(st2.seen.dom().contains(k) <==> (cs.seen.dom().contains(k) || k
                        == spec_collision_key(m)));
                },
                _ => {},
            }
        }
    }
}

// ---------------------------------------------------------------------
// Newlines
// ---------------------------------------------------------------------

/// A part of a text without `c` is without `c`.
proof fn lemma_sub_free(s: Seq<char>, a: int, b: int, c: char)
    requires
        0 <= a <= b <= s.len(),
        !s.contains(c),
    ensures
        !s.subrange(a, b).contains(c),
{
    let t = s.subrange(a, b);
    if t.contains(c) {
        let j = choose|j: int| 0 <= j < t.len() && t[j] == c;
        assert(s[a + j] == c);
    }
}

/// Trimming keeps a part of the text.
proof fn lemma_trim_part(s: Seq<char>)
    ensures
        exists|a: int| 0 <= a <= s.len() && trim_start(s) == #[trigger] s.subrange(a, s.len() as int),
        exists|b: int| 0 <= b <= s.len() && trim_end(s) == #[trigger] s.subrange(0, b),
    decreases s.len(),
{
    if s.len() == 0 {
        assert(s.subrange(0, 0) =~= s);
    } else {
        lemma_trim_part(s.drop_first());
        lemma_trim_part(s.drop_last());
        let t = s.drop_first();
        let u = s.drop_last();
        if char_is_whitespace(s[0]) {
            let a = choose|a: int| 0 <= a <= t.len() && trim_start(t) == #[trigger] t.subrange(a, t.len() as int);
            assert(t.subrange(a, t.len() as int) =~= s.subrange(a + 1, s.len() as int));
        } else {
            assert(s.subrange(0, s.len() as int) =~= s);
        }
        if char_is_whitespace(s.last()) {
            let b = choose|b: int| 0 <= b <= u.len() && trim_end(u) == #[trigger] u.subrange(0, b);
            assert(u.subrange(0, b) =~= s.subrange(0, b));
        } else {
            assert(s.subrange(0, s.len() as int) =~= s);
        }
    }
}

proof fn lemma_trim_free(s: Seq<char>, c: char)
    requires
        !s.contains(c),
    ensures
        !trim_start(s).contains(c),
        !trim(s).contains(c),
{
    lemma_trim_part(s);
    let a = choose|a: int| 0 <= a <= s.len() && trim_start(s) == #[trigger] s.subrange(a, s.len() as int);
    lemma_sub_free(s, a, s.len() as int, c);
    let t = trim_start(s);
    lemma_trim_part(t);
    let b = choose|b: int| 0 <= b <= t.len() && trim_end(t) == #[trigger] t.subrange(0, b);
    lemma_sub_free(t, 0, b, c);
}

/// The pieces of a text without `c` are without `c`.
proof fn lemma_split_free(s: Seq<char>, sep: char, c: char)
    requires
        !s.contains(c),
    ensures
        forall|i: int| 0 <= i < split(s, sep).len() ==> !(#[trigger] split(s, sep)[i]).contains(c),
    decreases s.len(),
{
    lemma_last_of(s, sep);
    let k = last_of(s, sep);
    if k >= 0 {
        lemma_sub_free(s, 0, k, c);
        lemma_sub_free(s, k + 1, s.len() as int, c);
        assert(s.take(k) =~= s.subrange(0, k));
        assert(s.skip(k + 1) =~= s.subrange(k + 1, s.len() as int));
        lemma_split_free(s.take(k), sep, c);
        assert forall|i: int| 0 <= i < split(s, sep).len() implies !(#[trigger] split(s, sep)[i]).contains(c) by {
            if i < split(s, sep).len() - 1 {
                assert(split(s, sep)[i] == split(s.take(k), sep)[i]);
            }
        }
    }
}

/// Joining pieces without `c` with a separator other than `c` gives a text without `c`.
proof fn lemma_join_free(ps: Seq<Seq<char>>, sep: char, c: char)
    requires
        sep != c,
        forall|i: int| 0 <= i < ps.len() ==> !(#[trigger] ps[i]).contains(c),
    ensures
        !join(ps, sep).contains(c),
    decreases ps.len(),
{
    let j = join(ps, sep);
    if ps.len() == 1 {
        assert(!ps[0].contains(c));
    } else if ps.len() > 1 {
        let front = ps.drop_last();
        assert forall|i: int| 0 <= i < front.len() implies !(#[trigger] front[i]).contains(c) by {
            assert(front[i] == ps[i]);
        }
        lemma_join_free(front, sep, c);
        let jf = join(front, sep);
        assert(!ps[ps.len() - 1].contains(c));
        if j.contains(c) {
            let x = choose|x: int| 0 <= x < j.len() && j[x] == c;
            if x < jf.len() {
                assert(j[x] == jf[x]);
            } else if x > jf.len() {
                assert(j[x] == ps.last()[x - jf.len() - 1]);
            }
        }
    }
}

/// The path a route line is read with has no `c` when the line has none.
proof fn lemma_route_parts_free(t: Seq<char>, c: char, i: nat)
    requires
        !t.contains(c),
    ensures
        spec_embedded_from(t, i) matches Some(parts) ==> !parts.1.contains(c),
        i == 0 ==> !spec_route_parts(t).1.contains(c),
    decreases t.len() - i,
{
    if i < t.len() {
        lemma_route_parts_free(t, c, i + 1);
        let rest = t.skip(i + 1 as int);
        lemma_sub_free(t, i + 1 as int, t.len() as int, c);
        assert(rest =~= t.subrange(i + 1 as int, t.len() as int));
        lemma_first_of(rest, t[i as int]);
        let f = first_of(rest, t[i as int]);
        lemma_sub_free(rest, 0, f as int, c);
        assert(rest.take(f as int) =~= rest.subrange(0, f as int));
    }
    if i == 0 {
        let idx = first_whitespace(t);
        if idx < t.len() {
            lemma_sub_free(t, idx as int, t.len() as int, c);
            assert(t.skip(idx as int) =~= t.subrange(idx as int, t.len() as int));
            lemma_trim_free(t.skip(idx as int), c);
        }
    }
}

/// Normalizing an ASCII segment without a newline gives one without a newline.
proof fn lemma_ascii_segment_newline_free(seg: Seq<char>, x: Seq<char>)
    requires
        all_ascii(seg),
        !seg.contains('\n'),
        spec_normalize_segment(seg) == Ok::<Seq<char>, SegmentFault>(x),
    ensures
        !x.contains('\n'),
{
    if x.contains('\n') {
        let j = choose|j: int| 0 <= j < x.len() && x[j] == '\n';
        if seg == seq!['*'] {
            assert(x == seq!['*']);
        } else {
            match spec_param_name(seg) {
                Some(name) => {
                    assert(x == seq![':'] + name);
                    assert(is_param_char(name[j - 1]));
                },
                None => {
                    assert(x == seg.map_values(|c: char| ascii_lower(c)));
                    assert(is_ascii_char(seg[j]));
                    assert(seg[j] == '\n');
                    assert(seg.contains('\n'));
                },
            }
        }
    }
}

/// A route normalized from an ASCII line without a newline has no newline.
proof fn lemma_ascii_route_newline_free(line: Seq<char>, r: Seq<char>)
    requires
        all_ascii(line),
        !line.contains('\n'),
        spec_normalize_route(line) == Ok::<Option<Seq<char>>, SegmentFault>(Some(r)),
    ensures
        !r.contains('\n'),
{
    lemma_normalized_shape(line, r);
    lemma_trim_ascii(line);
    lemma_trim_free(line, '\n');
    let t = trim(line);
    lemma_route_parts_ascii(t);
    lemma_route_parts_free(t, '\n', 0);
    let p = spec_route_parts(t).1;
    let q = route_path(r);
    let m = route_method(r);
    lemma_known_method_letters(m);
    let ns = lemma_ascii_path_pieces(p, q);
    assert(!q.contains('\n')) by {
        if ns.len() > 0 {
            lemma_join_free(ns, '/', '\n');
            let j = join(ns, '/');
            if q.contains('\n') {
                let x = choose|x: int| 0 <= x < q.len() && q[x] == '\n';
                if x > 0 {
                    assert(q[x] == j[x - 1]);
                }
            }
        } else if q.contains('\n') {
            let x = choose|x: int| 0 <= x < q.len() && q[x] == '\n';
        }
    }
    if r.contains('\n') {
        let j = choose|j: int| 0 <= j < r.len() && r[j] == '\n';
        if j < m.len() {
            assert(r[j] == m[j]);
        } else if j > m.len() {
            assert(r[j] == q[j - m.len() - 1]);
        }
    }
}

/// The lines of an ASCII text are ASCII and hold no newline.
proof fn lemma_text_lines_clean(input: Seq<char>)
    requires
        all_ascii(input),
    ensures
        forall|i: int|
            0 <= i < text_lines(input).len() ==> all_ascii(#[trigger] text_lines(input)[i])
                && !text_lines(input)[i].contains('\n'),
{
    let ps = split(input, '\n');
    lemma_split_ascii(input, '\n');
    lemma_split_pieces(input, '\n');
    let ls = text_lines(input);
    assert forall|i: int| 0 <= i < ls.len() implies all_ascii(#[trigger] ls[i]) && !ls[i].contains('\n') by {
        let piece = ps[i];
        assert(all_ascii(piece) && !piece.contains('\n'));
        if ls[i] != piece {
            assert(ls[i] == strip_cr(piece));
            assert(ls[i] =~= piece.subrange(0, piece.len() - 1));
            lemma_sub_free(piece, 0, piece.len() - 1, '\n');
            assert forall|x: int| 0 <= x < ls[i].len() implies is_ascii_char(#[trigger] ls[i][x]) by {
                assert(ls[i][x] == piece[x]);
            }
        }
    }
}

/// Every route formatting writes comes from one of the lines.
proof fn lemma_written_origin(lines: Seq<Seq<char>>)
    ensures
        forall|i: int|
            0 <= i < written_routes(lines).len() ==> exists|j: int|
                0 <= j < lines.len() && spec_normalize_route(#[trigger] lines[j]) == Ok::<
                    Option<Seq<char>>,
                    SegmentFault,
                >(Some(#[trigger] written_routes(lines)[i])),
    decreases lines.len(),
{
    if lines.len() > 0 {
        let front = lines.drop_last();
        lemma_written_origin(front);
        let rs = written_routes(front);
        assert forall|i: int| 0 <= i < written_routes(lines).len() implies exists|j: int|
            0 <= j < lines.len() && spec_normalize_route(#[trigger] lines[j]) == Ok::<
                Option<Seq<char>>,
                SegmentFault,
            >(Some(#[trigger] written_routes(lines)[i])) by {
            if i < rs.len() {
                assert(written_routes(lines)[i] == rs[i]);
                let j = choose|j: int|
                    0 <= j < front.len() && spec_normalize_route(#[trigger] front[j]) == Ok::<
                        Option<Seq<char>>,
                        SegmentFault,
                    >(Some(rs[i]));
                assert(lines[j] == front[j]);
            } else {
                assert(lines[lines.len() - 1] == lines.last());
            }
        }
    }
}

// ---------------------------------------------------------------------
// Laws
// ---------------------------------------------------------------------

/// A route line already in canonical form normalizes to itself.
pub proof fn law_canonical_route_is_fixed(r: Seq<char>)
    requires
        is_canonical_route(r),
    ensures
        spec_normalize_route(r) == Ok::<Option<Seq<char>>, SegmentFault>(Some(r)),
{
    let m = route_method(r);
    let q = route_path(r);
    let k = first_of(r, ' ');
    lemma_first_of(r, ' ');
    lemma_known_method_letters(m);
    assert(r =~= m.push(' ') + q);
    assert(r[0] == m[0]);
    lemma_trim_noop(r);
    assert(!is_skipped_line(r));
    // The first whitespace is the space after the method.
    assert forall|j: int| 0 <= j < m.len() implies !char_is_whitespace(#[trigger] r[j]) by {
        assert(r[j] == m[j]);
    }
    lemma_first_whitespace_at(r, m.len() as int);
    assert(r.take(m.len() as int) =~= m);
    assert(r.skip(m.len() as int) =~= seq![' '] + q);
    assert(trim_start(seq![' '] + q) == trim_start(q)) by {
        assert((seq![' '] + q).drop_first() =~= q);
    }
    assert(trim_start(q) == q);
    assert(spec_split_method(r) == (m, q));
    lemma_stable_path(q);
}

/// Normalizing a normalized route gives it back, unless the route ends in
/// whitespace, holds a quoted path the embedded-route reader would pick
/// out, or has a static segment that lowercasing changes again.
pub proof fn law_normalize_route_idempotent(line: Seq<char>, r: Seq<char>)
    requires
        spec_normalize_route(line) == Ok::<Option<Seq<char>>, SegmentFault>(Some(r)),
        !char_is_whitespace(r.last()),
        spec_extract_embedded_route(r) is None,
        stable_path(route_path(r)),
    ensures
        spec_normalize_route(r) == Ok::<Option<Seq<char>>, SegmentFault>(Some(r)),
{
    lemma_normalized_shape(line, r);
    law_canonical_route_is_fixed(r);
}

/// Every normalized route names a known method and a path starting with `/`.
pub proof fn law_normalized_route_shape(line: Seq<char>, r: Seq<char>)
    requires
        spec_normalize_route(line) == Ok::<Option<Seq<char>>, SegmentFault>(Some(r)),
    ensures
        is_known_method(route_method(r)),
        r == route_method(r).push(' ') + route_path(r),
        route_path(r).len() > 0,
        route_path(r)[0] == '/',
{
    lemma_normalized_shape(line, r);
}


/// Two routes get the same collision key exactly when they have the same
/// method and the same number of path segments, and at each position both
/// segments are parameters or both are the same static text: parameter
/// names never matter, anything else always does.
pub proof fn law_collision_key_exact(a: Seq<char>, b: Seq<char>)
    ensures
        spec_collision_key(a) == spec_collision_key(b) <==> {
            &&& route_method(a) == route_method(b)
            &&& split(route_path(a), '/').len() == split(route_path(b), '/').len()
            &&& forall|i: int|
                0 <= i < split(route_path(a), '/').len() ==> same_shape(
                    #[trigger] split(route_path(a), '/')[i],
                    split(route_path(b), '/')[i],
                )
        },
{
    let sa = split(route_path(a), '/');
    let sb = split(route_path(b), '/');
    let ga = generic_segments(route_path(a));
    let gb = generic_segments(route_path(b));
    lemma_key_split(a);
    lemma_key_split(b);
    lemma_generic_pieces(route_path(a));
    lemma_generic_pieces(route_path(b));
    let same = route_method(a) == route_method(b) && sa.len() == sb.len() && forall|i: int|
        0 <= i < sa.len() ==> same_shape(#[trigger] sa[i], sb[i]);
    if spec_collision_key(a) == spec_collision_key(b) {
        assert(route_method(a) == route_method(b));
        assert(join(ga, '/') == join(gb, '/'));
        assert(ga == gb);
        assert forall|i: int| 0 <= i < sa.len() implies same_shape(#[trigger] sa[i], sb[i]) by {
            assert(ga[i] == generic_segment(sa[i]));
            assert(gb[i] == generic_segment(sb[i]));
            if is_param_segment(sa[i]) && !is_param_segment(sb[i]) {
                assert(sb[i] =~= seq![':']);
            }
            if !is_param_segment(sa[i]) && is_param_segment(sb[i]) {
                assert(sa[i] =~= seq![':']);
            }
        }
    }
    if same {
        assert forall|i: int| 0 <= i < ga.len() implies #[trigger] ga[i] == gb[i] by {
            assert(same_shape(sa[i], sb[i]));
            assert(ga[i] == generic_segment(sa[i]));
            assert(gb[i] == generic_segment(sb[i]));
        }
        assert(ga =~= gb);
        assert(spec_collision_key(a) =~= spec_collision_key(b));
    }
}


/// Paths with the same non-empty segments in the same order normalize
/// alike, however many slashes separate, lead or trail those segments.
pub proof fn law_path_ignores_extra_slashes(p1: Seq<char>, p2: Seq<char>)
    requires
        non_empty(split(p1, '/')) == non_empty(split(p2, '/')),
    ensures
        spec_normalize_path(p1) == spec_normalize_path(p2),
{
    lemma_pieces_non_empty(split(p1, '/'));
    lemma_pieces_non_empty(split(p2, '/'));
}

/// The three ways of writing a parameter, `:name`, `{name}` and `<name>`,
/// normalize to the same `:name`.
pub proof fn law_param_spellings_agree(name: Seq<char>)
    requires
        name.len() > 0,
        valid_param_name(name),
    ensures
        spec_normalize_segment(seq![':'] + name) == Ok::<Seq<char>, SegmentFault>(seq![':'] + name),
        spec_normalize_segment(seq!['{'] + name + seq!['}']) == Ok::<Seq<char>, SegmentFault>(
            seq![':'] + name,
        ),
        spec_normalize_segment(seq!['<'] + name + seq!['>']) == Ok::<Seq<char>, SegmentFault>(
            seq![':'] + name,
        ),
{
    let colon = seq![':'] + name;
    let brace = seq!['{'] + name + seq!['}'];
    let angle = seq!['<'] + name + seq!['>'];
    assert(colon.drop_first() =~= name);
    assert(colon != seq!['*']) by {
        assert(colon[0] == ':');
    }
    assert(brace[0] == '{' && brace.last() == '}');
    assert(brace.subrange(1, brace.len() - 1) =~= name);
    assert(brace != seq!['*']) by {
        assert(brace[0] == '{');
    }
    assert(angle[0] == '<' && angle.last() == '>');
    assert(angle.subrange(1, angle.len() - 1) =~= name);
    assert(angle != seq!['*']) by {
        assert(angle[0] == '<');
    }
}


/// A segment normalized from ASCII text normalizes to itself; it stays
/// ASCII, non-empty when the segment was, and free of `/` when the segment was.
pub proof fn law_ascii_segment_idempotent(seg: Seq<char>, x: Seq<char>)
    requires
        all_ascii(seg),
        spec_normalize_segment(seg) == Ok::<Seq<char>, SegmentFault>(x),
    ensures
        spec_normalize_segment(x) == Ok::<Seq<char>, SegmentFault>(x),
        all_ascii(x),
        seg.len() > 0 ==> x.len() > 0,
        !seg.contains('/') ==> !x.contains('/'),
{
    if seg == seq!['*'] {
        assert(x == seq!['*']);
        assert(all_ascii(x));
        if x.contains('/') {
            let j = choose|j: int| 0 <= j < x.len() && x[j] == '/';
        }
    } else {
        match spec_param_name(seg) {
            Some(name) => {
                assert(x == seq![':'] + name);
                law_param_spellings_agree(name);
                assert forall|i: int| 0 <= i < x.len() implies is_ascii_char(#[trigger] x[i]) by {
                    if i > 0 {
                        assert(is_param_char(name[i - 1]));
                    }
                }
                if x.contains('/') {
                    let j = choose|j: int| 0 <= j < x.len() && x[j] == '/';
                    assert(is_param_char(name[j - 1]));
                }
            },
            None => {
                let low = |c: char| ascii_lower(c);
                assert(x == seg.map_values(low));
                assert(x.len() == seg.len());
                // Lowering keeps ASCII, and touches none of `/ * : { } < >`.
                assert forall|i: int| 0 <= i < x.len() implies is_ascii_char(#[trigger] x[i]) && ascii_lower(
                    x[i],
                ) == x[i] && (x[i] == '/' <==> seg[i] == '/') && (x[i] == '*' <==> seg[i] == '*') && (
                x[i] == ':' <==> seg[i] == ':') && (x[i] == '{' <==> seg[i] == '{') && (x[i] == '}'
                    <==> seg[i] == '}') && (x[i] == '<' <==> seg[i] == '<') && (x[i] == '>'
                    <==> seg[i] == '>') by {
                    assert(x[i] == ascii_lower(seg[i]));
                    assert(is_ascii_char(seg[i]));
                }
                assert(x.map_values(low) =~= x);
                assert(x != seq!['*']) by {
                    if x == seq!['*'] {
                        assert(seg.len() == 1 && seg[0] == '*');
                        assert(seg =~= seq!['*']);
                    }
                }
                assert(spec_param_name(x) is None);
                if x.contains('/') && !seg.contains('/') {
                    let j = choose|j: int| 0 <= j < x.len() && x[j] == '/';
                    assert(seg[j] == '/');
                    assert(seg.contains('/'));
                }
            },
        }
    }
}

/// A path normalized from ASCII text starts with `/`, ends with `/` only
/// when it is just `/`, never has two `/` in a row, keeps one segment for
/// each non-empty segment of the input, and normalizes to itself.
pub proof fn law_ascii_path_normalized(p: Seq<char>, q: Seq<char>)
    requires
        all_ascii(p),
        spec_normalize_path(p) == Ok::<Seq<char>, SegmentFault>(q),
    ensures
        q.len() > 0,
        q[0] == '/',
        q == seq!['/'] || q.last() != '/',
        forall|i: int| 0 < i < q.len() ==> !(q[i - 1] == '/' && #[trigger] q[i] == '/'),
        non_empty(split(q, '/')).len() == non_empty(split(p, '/')).len(),
        spec_normalize_path(q) == Ok::<Seq<char>, SegmentFault>(q),
{
    let ns = lemma_ascii_path_pieces(p, q);
    lemma_ascii_path_stable(p, q);
    lemma_stable_path(q);
    let e = Seq::<char>::empty();
    if ns.len() == 0 {
        let ee = seq![e, e];
        assert(ee.drop_last() =~= seq![e]);
        assert(join(seq![e], '/') == e);
        assert(join(ee, '/') == join(ee.drop_last(), '/').push('/') + ee.last());
        assert(join(ee, '/') =~= q);
        assert forall|i: int| 0 <= i < ee.len() implies !(#[trigger] ee[i]).contains('/') by {}
        lemma_split_join(ee, '/');
        assert(ee.drop_first() =~= seq![e]);
        assert(seq![e].drop_last() =~= Seq::<Seq<char>>::empty());
        assert(non_empty(Seq::<Seq<char>>::empty()) == Seq::<Seq<char>>::empty());
        assert(seq![e].last().len() == 0);
        assert(non_empty(seq![e]) =~= Seq::<Seq<char>>::empty());
        assert(non_empty(ee) =~= Seq::<Seq<char>>::empty());
    } else {
        assert forall|i: int| 0 <= i < ns.len() implies (#[trigger] ns[i]).len() > 0 && !ns[i].contains('/') by {
            assert(stable_segment(ns[i]));
        }
        lemma_join_no_double_slash(ns);
        let j = join(ns, '/');
        assert(q.last() == j.last());
        assert forall|i: int| 0 < i < q.len() implies !(q[i - 1] == '/' && #[trigger] q[i] == '/') by {
            if i == 1 {
                assert(q[1] == j[0]);
            } else {
                assert(q[i - 1] == j[i - 2] && q[i] == j[i - 1]);
            }
        }
        let all = seq![e] + ns;
        assert forall|i: int| 1 <= i < all.len() implies (#[trigger] all[i]).len() > 0 by {
            assert(all[i] == ns[i - 1]);
        }
        lemma_non_empty_after_lead(all);
        assert(all.drop_first() =~= ns);
    }
}

/// On ASCII text, normalizing a normalized route gives it back, unless the
/// route ends in whitespace or holds a quoted path the embedded-route
/// reader would pick out.
pub proof fn law_ascii_route_idempotent(line: Seq<char>, r: Seq<char>)
    requires
        all_ascii(line),
        spec_normalize_route(line) == Ok::<Option<Seq<char>>, SegmentFault>(Some(r)),
        !char_is_whitespace(r.last()),
        spec_extract_embedded_route(r) is None,
    ensures
        spec_normalize_route(r) == Ok::<Option<Seq<char>>, SegmentFault>(Some(r)),
{
    lemma_normalized_shape(line, r);
    lemma_trim_ascii(line);
    lemma_route_parts_ascii(trim(line));
    lemma_ascii_path_stable(spec_route_parts(trim(line)).1, route_path(r));
    law_normalize_route_idempotent(line, r);
}


/// Formatting the formatter's own output writes the same text again, as
/// long as every route it wrote normalizes to itself and, read back line by
/// line, is one line (no newline inside, no carriage return at its end).
pub proof fn law_format_text_idempotent(input: Seq<char>, label: Seq<char>)
    requires
        forall|i: int|
            0 <= i < written_routes(text_lines(input)).len() ==> {
                let r = #[trigger] written_routes(text_lines(input))[i];
                &&& !r.contains('\n')
                &&& r.last() != '\r'
                &&& spec_normalize_route(r) == Ok::<Option<Seq<char>>, SegmentFault>(Some(r))
            },
    ensures
        format_lines(text_lines(format_lines(text_lines(input), label).text), label).text
            == format_lines(text_lines(input), label).text,
{
    let rs = written_routes(text_lines(input));
    law_format_text_is_routes(text_lines(input), label);
    assert forall|i: int| 0 <= i < rs.len() implies (#[trigger] rs[i]).len() > 0 && !rs[i].contains('\n') && rs[i].last() != '\r' by {
        law_normalized_route_shape(rs[i], rs[i]);
    }
    lemma_lines_of_routes(rs);
    lemma_written_fixed_points(rs);
    law_format_text_is_routes(rs, label);
}


/// When formatting reported nothing, checking the text it wrote reports
/// nothing either, as long as every route it wrote normalizes to itself,
/// holds no newline and does not end in whitespace.
pub proof fn law_check_accepts_formatted_text(input: Seq<char>, label: Seq<char>)
    requires
        !format_lines(text_lines(input), label).had_error,
        forall|i: int|
            0 <= i < written_routes(text_lines(input)).len() ==> {
                let r = #[trigger] written_routes(text_lines(input))[i];
                &&& !r.contains('\n')
                &&& !char_is_whitespace(r.last())
                &&& spec_normalize_route(r) == Ok::<Option<Seq<char>>, SegmentFault>(Some(r))
            },
    ensures
        !check_lines(text_lines(format_lines(text_lines(input), label).text)).had_error,
{
    let rs = written_routes(text_lines(input));
    law_format_text_is_routes(text_lines(input), label);
    lemma_format_seen(text_lines(input), label);
    assert forall|i: int| 0 <= i < rs.len() implies (#[trigger] rs[i]).len() > 0 && !rs[i].contains('\n') && rs[i].last() != '\r' && trim(rs[i]) == rs[i] by {
        law_normalized_route_shape(rs[i], rs[i]);
        let m = route_method(rs[i]);
        lemma_known_method_letters(m);
        assert(rs[i][0] == m[0]);
        lemma_trim_noop(rs[i]);
    }
    lemma_lines_of_routes(rs);
    lemma_check_clean(rs);
}


/// Normalizing a path fails with `e` exactly when `e` is the error of its
/// first non-empty segment that does not normalize.
pub proof fn law_normalize_path_first_error(p: Seq<char>, e: SegmentFault)
    ensures
        spec_normalize_path(p) == Err::<Seq<char>, SegmentFault>(e) <==> exists|i: int|
            0 <= i < split(p, '/').len() && (#[trigger] split(p, '/')[i]).len() > 0
                && spec_normalize_segment(split(p, '/')[i]) == Err::<Seq<char>, SegmentFault>(e)
                && forall|j: int| 0 <= j < i ==> piece_ok(#[trigger] split(p, '/')[j]),
{
    lemma_pieces_first_error(split(p, '/'), e);
}

/// A collision key is its own collision key.
pub proof fn law_collision_key_idempotent(r: Seq<char>)
    ensures
        spec_collision_key(spec_collision_key(r)) == spec_collision_key(r),
{
    let k = spec_collision_key(r);
    let m = route_method(r);
    let g = generic_segments(route_path(r));
    lemma_key_split(r);
    lemma_route_method_spaceless(r);
    lemma_generic_pieces(route_path(r));
    assert(route_method(k) == m);
    assert(route_path(k) == join(g, '/'));
    assert(generic_segments(join(g, '/')) =~= g) by {
        assert forall|i: int| 0 <= i < g.len() implies generic_segment(g[i]) == #[trigger] g[i] by {
            let piece = split(route_path(r), '/')[i];
            assert(g[i] == generic_segment(piece));
            if is_param_segment(piece) {
                assert(g[i] =~= seq![':']);
            }
        }
    }
}

/// Formatting reports an error exactly when some line does not normalize,
/// or is a route whose collision key an earlier line already had.
pub proof fn law_format_error_exact(lines: Seq<Seq<char>>, label: Seq<char>)
    ensures
        format_lines(lines, label).had_error <==> exists|i: int|
            0 <= i < lines.len() && #[trigger] format_reports_line(lines, i),
    decreases lines.len(),
{
    if lines.len() > 0 {
        let front = lines.drop_last();
        let n = lines.len() - 1;
        law_format_error_exact(front, label);
        lemma_seen_keys(front, label);
        assert(lines[n] == lines.last());
        assert(format_lines(lines, label) == format_step(format_lines(front, label), lines.last(), lines.len(), label));
        assert forall|k: Seq<char>| key_before(lines, n, k) == key_before(front, n, k) by {
            if key_before(lines, n, k) {
                let j = choose|j: int| 0 <= j < n && #[trigger] route_key_at(lines, j, k);
                assert(front[j] == lines[j]);
                assert(route_key_at(front, j, k));
            }
            if key_before(front, n, k) {
                let j = choose|j: int| 0 <= j < n && #[trigger] route_key_at(front, j, k);
                assert(front[j] == lines[j]);
                assert(route_key_at(lines, j, k));
            }
        }
        assert(format_reports_line(lines, n) <==> match spec_normalize_route(lines.last()) {
            Err(_) => true,
            Ok(Some(m)) => format_lines(front, label).seen.dom().contains(spec_collision_key(m)),
            Ok(None) => false,
        });
        assert forall|i: int| 0 <= i < n implies format_reports_line(lines, i) == #[trigger] format_reports_line(front, i) by {
            lemma_reports_prefix(lines, i);
        }
        if exists|i: int| 0 <= i < lines.len() && #[trigger] format_reports_line(lines, i) {
            let i = choose|i: int| 0 <= i < lines.len() && #[trigger] format_reports_line(lines, i);
            if i < n {
                assert(format_reports_line(front, i));
            }
        }
    }
}

/// Checking reports an error exactly when some line does not normalize, is
/// a route whose collision key an earlier line already had, or differs from
/// its normalized form by more than surrounding whitespace.
pub proof fn law_check_error_exact(lines: Seq<Seq<char>>)
    ensures
        check_lines(lines).had_error <==> exists|i: int|
            0 <= i < lines.len() && #[trigger] check_reports_line(lines, i),
    decreases lines.len(),
{
    if lines.len() > 0 {
        let front = lines.drop_last();
        let n = lines.len() - 1;
        law_check_error_exact(front);
        lemma_seen_keys(front, Seq::empty());
        assert(lines[n] == lines.last());
        assert(check_lines(lines) == check_step(check_lines(front), lines.last(), lines.len()));
        assert forall|k: Seq<char>| key_before(lines, n, k) == key_before(front, n, k) by {
            if key_before(lines, n, k) {
                let j = choose|j: int| 0 <= j < n && #[trigger] route_key_at(lines, j, k);
                assert(front[j] == lines[j]);
                assert(route_key_at(front, j, k));
            }
            if key_before(front, n, k) {
                let j = choose|j: int| 0 <= j < n && #[trigger] route_key_at(front, j, k);
                assert(front[j] == lines[j]);
                assert(route_key_at(lines, j, k));
            }
        }
        assert(check_reports_line(lines, n) <==> match spec_normalize_route(lines.last()) {
            Err(_) => true,
            Ok(Some(m)) => check_lines(front).seen.dom().contains(spec_collision_key(m)) || trim(lines.last()) != m,
            Ok(None) => false,
        });
        assert forall|i: int| 0 <= i < n implies check_reports_line(lines, i) == #[trigger] check_reports_line(front, i) by {
            lemma_reports_prefix(lines, i);
        }
        if exists|i: int| 0 <= i < lines.len() && #[trigger] check_reports_line(lines, i) {
            let i = choose|i: int| 0 <= i < lines.len() && #[trigger] check_reports_line(lines, i);
            if i < n {
                assert(check_reports_line(front, i));
            }
        }
    }
}


/// On ASCII text, formatting the formatter's output writes the same text
/// again, unless some route it wrote ends in whitespace or holds a quoted
/// path the embedded-route reader would pick out.
pub proof fn law_ascii_format_text_idempotent(input: Seq<char>, label: Seq<char>)
    requires
        all_ascii(input),
        forall|i: int|
            0 <= i < written_routes(text_lines(input)).len() ==> {
                let r = #[trigger] written_routes(text_lines(input))[i];
                &&& !char_is_whitespace(r.last())
                &&& spec_extract_embedded_route(r) is None
            },
    ensures
        format_lines(text_lines(format_lines(text_lines(input), label).text), label).text
            == format_lines(text_lines(input), label).text,
{
    let lines = text_lines(input);
    let rs = written_routes(lines);
    lemma_text_lines_clean(input);
    lemma_written_origin(lines);
    assert forall|i: int| 0 <= i < rs.len() implies {
        let r = #[trigger] rs[i];
        &&& !r.contains('\n')
        &&& r.last() != '\r'
        &&& spec_normalize_route(r) == Ok::<Option<Seq<char>>, SegmentFault>(Some(r))
    } by {
        let r = rs[i];
        let j = choose|j: int|
            0 <= j < lines.len() && spec_normalize_route(#[trigger] lines[j]) == Ok::<
                Option<Seq<char>>,
                SegmentFault,
            >(Some(r));
        assert(all_ascii(lines[j]) && !lines[j].contains('\n'));
        law_ascii_route_idempotent(lines[j], r);
        lemma_ascii_route_newline_free(lines[j], r);
    }
    law_format_text_idempotent(input, label);
}

// ---------------------------------------------------------------------
// Lines of a text, and files read one after another
// ---------------------------------------------------------------------

/// One more line break at the end of a text adds one empty piece.
proof fn lemma_split_push_newline(x: Seq<char>)
    ensures
        split(x.push('\n'), '\n') == split(x, '\n').push(Seq::<char>::empty()),
{
    let t = x.push('\n');
    lemma_split_last(t, '\n', t.len() as int);
    assert(t.take(t.len() - 1) =~= x);
    assert(t.skip(t.len() as int) =~= Seq::<char>::empty());
}

/// The last piece of a split is all that follows the last separator.
proof fn lemma_split_last_piece(x: Seq<char>)
    ensures
        split(x, '\n').last() == x.skip(last_of(x, '\n') + 1),
{
    lemma_last_of(x, '\n');
    if last_of(x, '\n') < 0 {
        assert(x.skip(0) =~= x);
    }
}

/// Splitting a text that follows a line-ended text: the pieces of the first
/// but its empty last one, then the pieces of the second.
proof fn lemma_split_after_newline(c: Seq<char>, y: Seq<char>)
    requires
        c.len() > 0,
        c.last() == '\n',
    ensures
        split(c + y, '\n') == split(c, '\n').drop_last() + split(y, '\n'),
    decreases y.len(),
{
    let t = c + y;
    lemma_last_of(y, '\n');
    let ky = last_of(y, '\n');
    lemma_last_of_at(c, '\n', c.len() - 1);
    assert(c.take(c.len() - 1) =~= c.drop_last());
    assert(c.skip(c.len() as int) =~= Seq::<char>::empty());
    if ky >= 0 {
        let k = c.len() + ky;
        assert forall|j: int| k < j < t.len() implies #[trigger] t[j] != '\n' by {
            assert(t[j] == y[j - c.len()]);
        }
        lemma_last_of_at(t, '\n', k);
        let head = y.take(ky);
        lemma_split_after_newline(c, head);
        assert(t.take(k) =~= c + head);
        assert(t.skip(k + 1) =~= y.skip(ky + 1));
        assert(split(t, '\n') == split(c + head, '\n').push(y.skip(ky + 1)));
        assert(split(y, '\n') == split(head, '\n').push(y.skip(ky + 1)));
        assert((split(c, '\n').drop_last() + split(head, '\n')).push(y.skip(ky + 1))
            =~= split(c, '\n').drop_last() + split(head, '\n').push(y.skip(ky + 1)));
    } else {
        let k = c.len() - 1;
        assert forall|j: int| k < j < t.len() implies #[trigger] t[j] != '\n' by {
            if j >= c.len() {
                assert(t[j] == y[j - c.len()]);
            }
        }
        lemma_last_of_at(t, '\n', k);
        assert(t.take(k) =~= c.drop_last());
        assert(t.skip(k + 1) =~= y);
        assert(split(c, '\n') == split(c.drop_last(), '\n').push(Seq::<char>::empty()));
        assert(split(c, '\n').drop_last() =~= split(c.drop_last(), '\n'));
        assert(split(y, '\n') == seq![y]);
        assert(split(c.drop_last(), '\n').push(y) =~= split(c.drop_last(), '\n') + seq![y]);
    }
}

/// No text is lost when a text is read as lines. No line holds a line
/// break; an empty text has no lines; the last line of a non-empty text that
/// does not end in a line break is all of the text after its last line
/// break; and a text without carriage returns is its lines joined with line
/// breaks, followed by the line break it ends with, if it ends in one.
pub proof fn law_text_lines_keep_text(s: Seq<char>)
    ensures
        forall|i: int|
            0 <= i < text_lines(s).len() ==> !(#[trigger] text_lines(s)[i]).contains('\n'),
        s.len() == 0 ==> text_lines(s).len() == 0,
        s.len() > 0 && s.last() != '\n' ==> {
            let last = text_lines(s).last();
            &&& text_lines(s).len() > 0
            &&& 0 < last.len() <= s.len()
            &&& s.skip(s.len() - last.len()) == last
            &&& (last.len() == s.len() || s[s.len() - last.len() - 1] == '\n')
        },
        !s.contains('\r') && s.len() > 0 && s.last() != '\n' ==> join(text_lines(s), '\n') == s,
        !s.contains('\r') && s.len() > 0 && s.last() == '\n' ==> join(text_lines(s), '\n').push('\n')
            == s,
{
    let ps = split(s, '\n');
    lemma_split_pieces(s, '\n');
    lemma_join_split(s, '\n');
    let ls = text_lines(s);
    assert forall|i: int| 0 <= i < ls.len() implies !(#[trigger] ls[i]).contains('\n') by {
        let piece = ps[i];
        assert(!piece.contains('\n'));
        if ls[i] != piece {
            assert(ls[i] =~= piece.subrange(0, piece.len() - 1));
            lemma_sub_free(piece, 0, piece.len() - 1, '\n');
        }
    }
    if s.len() > 0 && s.last() != '\n' {
        lemma_split_last_piece(s);
        lemma_last_of(s, '\n');
        let k = last_of(s, '\n');
        assert(k < s.len() - 1);
        assert(text_lines(s).last() == ps.last());
        assert(ps.last().len() == s.len() - k - 1);
        assert(s.skip(s.len() - ps.last().len()) =~= ps.last());
    }
    if !s.contains('\r') && s.len() > 0 {
        assert forall|i: int| 0 <= i < ps.len() implies strip_cr(#[trigger] ps[i]) == ps[i] by {
            lemma_split_free(s, '\n', '\r');
            if ps[i].len() > 0 && ps[i].last() == '\r' {
                assert(ps[i].contains('\r'));
            }
        }
        if s.last() != '\n' {
            assert(text_lines(s) =~= ps);
        } else {
            assert(text_lines(s) =~= ps.drop_last());
            lemma_split_last_piece(s);
            lemma_last_of(s, '\n');
            assert(ps.last() =~= Seq::<char>::empty());
            assert(ps =~= ps.drop_last().push(ps.last()));
            assert(join(ps, '\n') == join(ps.drop_last(), '\n').push('\n') + ps.last());
            assert(join(ps.drop_last(), '\n').push('\n') + Seq::<char>::empty()
                =~= join(ps.drop_last(), '\n').push('\n'));
        }
    }
}

/// A final line break adds no line: a non-empty text that ends neither in a
/// line break nor in a carriage return has the same lines as that text with
/// a line break after it, so formatting it writes the same routes, with the
/// same verdict and diagnostics, whether or not it ends in a newline.
pub proof fn law_final_newline_adds_no_line(s: Seq<char>, label: Seq<char>)
    requires
        s.len() > 0,
        s.last() != '\n',
        s.last() != '\r',
    ensures
        text_lines(s.push('\n')) == text_lines(s),
        format_lines(text_lines(s.push('\n')), label) == format_lines(text_lines(s), label),
{
    let t = s.push('\n');
    let ps = split(s, '\n');
    lemma_split_push_newline(s);
    lemma_split_pieces(s, '\n');
    lemma_split_last_piece(s);
    lemma_last_of(s, '\n');
    let k = last_of(s, '\n');
    assert(k < s.len() - 1);
    assert(ps.last().len() > 0 && ps.last().last() == s.last());
    assert(split(t, '\n').drop_last() =~= ps);
    let lt = text_lines(t);
    let ls = text_lines(s);
    assert(lt.len() == ls.len());
    assert forall|i: int| 0 <= i < lt.len() implies #[trigger] lt[i] == ls[i] by {
        if i < ps.len() - 1 {
            assert(lt[i] == strip_cr(ps[i]));
        } else {
            assert(lt[i] == strip_cr(ps.last()));
        }
    }
    assert(lt =~= ls);
}

/// Appending a file keeps the text read so far and the file's text, in
/// order, and ends them with a line break when the file is not empty: the
/// result is the text read so far, then the file, then one line break
/// exactly when the file is non-empty and does not already end in one.
pub proof fn law_append_file_keeps_text(combined: Seq<char>, contents: Seq<char>)
    ensures
        appended_file(combined, contents).take(combined.len() + contents.len() as int) == combined + contents,
        appended_file(combined, contents).len() == combined.len() + contents.len()
            || appended_file(combined, contents).len() == combined.len() + contents.len() + 1,
        contents.len() > 0 ==> appended_file(combined, contents).last() == '\n',
        contents.len() == 0 || contents.last() == '\n' ==> appended_file(combined, contents)
            == combined + contents,
{
    let a = appended_file(combined, contents);
    assert(a.take(combined.len() + contents.len() as int) =~= combined + contents);
}

/// Reading files one after another keeps each file's lines, in order: when
/// the text read so far is empty or ends in a line break, the lines of the
/// text after a file is appended are its lines followed by the file's own
/// lines (for a file that does not end in a bare carriage return).
pub proof fn law_append_file_lines(combined: Seq<char>, contents: Seq<char>)
    requires
        combined.len() == 0 || combined.last() == '\n',
        contents.len() == 0 || contents.last() != '\r',
    ensures
        text_lines(appended_file(combined, contents)) == text_lines(combined) + text_lines(contents),
{
    let c = combined;
    let x = contents;
    let a = appended_file(c, x);
    let y = if x.len() > 0 && x.last() != '\n' {
        x.push('\n')
    } else {
        x
    };
    assert(a =~= c + y);
    if x.len() > 0 && x.last() != '\n' {
        law_final_newline_adds_no_line(x, Seq::<char>::empty());
    }
    assert(text_lines(y) == text_lines(x));
    if c.len() == 0 {
        assert(a =~= y);
        assert(text_lines(c) + text_lines(x) =~= text_lines(x));
    } else if y.len() == 0 {
        assert(a =~= c);
        assert(text_lines(x) =~= Seq::<Seq<char>>::empty());
        assert(text_lines(c) + text_lines(x) =~= text_lines(c));
    } else {
        law_text_lines_concat(c, y);
    }
}

// ---------------------------------------------------------------------
// The method of a plain route line
// ---------------------------------------------------------------------

/// A line with no quote in it holds no embedded route.
proof fn lemma_no_quote_no_embedded(s: Seq<char>, i: nat)
    requires
        !s.contains('\''),
        !s.contains('"'),
    ensures
        spec_embedded_from(s, i) is None,
    decreases s.len() - i,
{
    if i < s.len() {
        let c = s[i as int];
        if c == '\'' || c == '"' {
            assert(s.contains(c));
        }
        lemma_no_quote_no_embedded(s, i + 1);
    }
}

/// A character that is neither an uppercase ASCII letter nor whitespace,
/// and is not in `p`, is not in `m + w + p`.
proof fn lemma_absent_from_line(m: Seq<char>, w: Seq<char>, p: Seq<char>, c: char)
    requires
        forall|j: int| 0 <= j < m.len() ==> 'A' <= #[trigger] m[j] && m[j] <= 'Z',
        forall|j: int| 0 <= j < w.len() ==> char_is_whitespace(#[trigger] w[j]),
        !('A' <= c && c <= 'Z'),
        !char_is_whitespace(c),
        !p.contains(c),
    ensures
        !(m + w + p).contains(c),
{
    let line = m + w + p;
    if line.contains(c) {
        let j = choose|j: int| 0 <= j < line.len() && line[j] == c;
        if j < m.len() {
            assert(line[j] == m[j]);
        } else if j < m.len() + w.len() {
            assert(line[j] == w[j - m.len()]);
        } else {
            assert(line[j] == p[j - m.len() - w.len()]);
            assert(p.contains(c));
        }
    }
}

/// A line made of a known method, any run of whitespace (spaces, a tab or
/// any other Unicode whitespace) and a path keeps its method: the method is
/// split off with the path after the whitespace, and, when the path holds no
/// quote and ends in no whitespace, the route is the method, one space and
/// the normalized path, or the path's error.
pub proof fn law_method_then_whitespace(m: Seq<char>, w: Seq<char>, p: Seq<char>)
    requires
        is_known_method(m),
        w.len() > 0,
        forall|i: int| 0 <= i < w.len() ==> char_is_whitespace(#[trigger] w[i]),
        p.len() > 0,
        !char_is_whitespace(p[0]),
    ensures
        spec_split_method(m + w + p) == (m, p),
        !char_is_whitespace(p.last()) && !p.contains('\'') && !p.contains('"') ==> spec_normalize_route(
            m + w + p,
        ) == match spec_normalize_path(p) {
            Ok(q) => Ok::<Option<Seq<char>>, SegmentFault>(Some(m.push(' ') + q)),
            Err(e) => Err(e),
        },
{
    let line = m + w + p;
    lemma_known_method_letters(m);
    assert forall|j: int| 0 <= j < m.len() implies !char_is_whitespace(#[trigger] line[j]) by {
        assert(line[j] == m[j]);
    }
    assert(line[m.len() as int] == w[0]);
    lemma_first_whitespace_at(line, m.len() as int);
    assert(line.take(m.len() as int) =~= m);
    let rest = line.skip(m.len() as int);
    assert(rest =~= w + p);
    assert forall|j: int| 0 <= j < w.len() implies char_is_whitespace(#[trigger] rest[j]) by {
        assert(rest[j] == w[j]);
    }
    assert(rest[w.len() as int] == p[0]);
    lemma_trim_start_at(rest, w.len() as int);
    assert(rest.skip(w.len() as int) =~= p);
    assert(spec_split_method(line) == (m, p));
    if !char_is_whitespace(p.last()) && !p.contains('\'') && !p.contains('"') {
        assert(line[0] == m[0]);
        lemma_trim_start_at(line, 0);
        assert(line.skip(0) =~= line);
        assert(line[line.len() - 1] == p.last());
        lemma_trim_end_at(line, line.len() as int);
        assert(line.take(line.len() as int) =~= line);
        assert(trim(line) == line);
        assert(!is_skipped_line(line));
        lemma_absent_from_line(m, w, p, '\'');
        lemma_absent_from_line(m, w, p, '"');
        lemma_no_quote_no_embedded(line, 0);
        assert(spec_route_parts(line) == (m, p));
    }
}

/// The first whitespace-separated token of a plain route line decides its
/// method. For an ASCII token followed by whitespace and the rest of the
/// line: when the token spells a known method `m` in any mix of case, the
/// method is `m` and the path is the rest after the whitespace; otherwise
/// the method is `GET` and the path is the whole line.
pub proof fn law_leading_token_method(t: Seq<char>, w: Seq<char>, p: Seq<char>, m: Seq<char>)
    requires
        forall|i: int| 0 <= i < t.len() ==> #[trigger] t[i] <= '\u{7f}' && !char_is_whitespace(t[i]),
        w.len() > 0,
        forall|i: int| 0 <= i < w.len() ==> char_is_whitespace(#[trigger] w[i]),
        p.len() == 0 || !char_is_whitespace(p[0]),
    ensures
        is_known_method(m) && t.len() == m.len() && (forall|i: int|
            0 <= i < t.len() ==> #[trigger] t[i] == m[i] || t[i] as int == m[i] as int + 32)
            ==> spec_split_method(t + w + p) == (m, p),
        ({
            let r = spec_split_method(t + w + p);
            ||| r == (get_method(), t + w + p)
            ||| is_known_method(r.0) && r.1 == p && t.len() == r.0.len() && forall|i: int|
                0 <= i < t.len() ==> #[trigger] t[i] == r.0[i] || t[i] as int == r.0[i] as int + 32
        }),
{
    let line = t + w + p;
    assert forall|j: int| 0 <= j < t.len() implies !char_is_whitespace(#[trigger] line[j]) by {
        assert(line[j] == t[j]);
    }
    assert(line[t.len() as int] == w[0]);
    lemma_first_whitespace_at(line, t.len() as int);
    assert(line.take(t.len() as int) =~= t);
    assert(all_ascii(t));
    let upper = t.map_values(|c: char| ascii_upper(c));
    assert(spec_split_method(line) == spec_split_method_with(line, upper));
    let rest = line.skip(t.len() as int);
    assert(rest =~= w + p);
    assert forall|j: int| 0 <= j < w.len() implies char_is_whitespace(#[trigger] rest[j]) by {
        assert(rest[j] == w[j]);
    }
    if p.len() > 0 {
        assert(rest[w.len() as int] == p[0]);
    }
    lemma_trim_start_at(rest, w.len() as int);
    assert(rest.skip(w.len() as int) =~= p);
    if is_known_method(m) && t.len() == m.len() && (forall|i: int|
        0 <= i < t.len() ==> #[trigger] t[i] == m[i] || t[i] as int == m[i] as int + 32) {
        lemma_known_method_letters(m);
        assert forall|i: int| 0 <= i < m.len() implies #[trigger] upper[i] == m[i] by {
            assert('A' <= m[i] && m[i] <= 'Z');
            if t[i] != m[i] {
                assert(t[i] as int == m[i] as int + 32);
            }
        }
        assert(upper =~= m);
    }
    if is_known_method(upper) {
        lemma_known_method_letters(upper);
        assert forall|i: int| 0 <= i < t.len() implies #[trigger] t[i] == upper[i] || t[i] as int
            == upper[i] as int + 32 by {
            assert(upper[i] == ascii_upper(t[i]));
            assert('A' <= upper[i] && upper[i] <= 'Z');
        }
    }
}

/// A plain route line with no whitespace in it is all path, read with `GET`.
pub proof fn law_no_whitespace_line_is_path(line: Seq<char>)
    requires
        forall|i: int| 0 <= i < line.len() ==> !char_is_whitespace(#[trigger] line[i]),
    ensures
        spec_split_method(line) == (get_method(), line),
{
    lemma_first_whitespace_at(line, line.len() as int);
}

// ---------------------------------------------------------------------
// Parameter segments
// ---------------------------------------------------------------------

/// A parameter segment normalizes exactly when its name is not empty and
/// every character of the name, the last one included, is an ASCII letter,
/// an ASCII digit or `_`. Then `:name` stays as it is, and `{name}` and
/// `<name>` become `:name`; otherwise an empty name is an empty-name error
/// and any other name an invalid-name error, each naming the segment.
pub proof fn law_param_segment_chars(seg: Seq<char>)
    ensures
        seg.len() > 0 && seg[0] == ':' ==> (spec_normalize_segment(seg) is Ok <==> (seg.len() >= 2
            && forall|i: int|
            1 <= i < seg.len() ==> {
                let c = #[trigger] seg[i];
                ||| 'a' <= c && c <= 'z'
                ||| 'A' <= c && c <= 'Z'
                ||| '0' <= c && c <= '9'
                ||| c == '_'
            })),
        seg.len() > 0 && seg[0] == ':' && spec_normalize_segment(seg) is Ok ==> spec_normalize_segment(
            seg,
        ) == Ok::<Seq<char>, SegmentFault>(seg),
        seg.len() >= 2 && ((seg[0] == '{' && seg.last() == '}') || (seg[0] == '<' && seg.last() == '>'))
            ==> (spec_normalize_segment(seg) is Ok <==> (seg.len() >= 3 && forall|i: int|
            1 <= i < seg.len() - 1 ==> {
                let c = #[trigger] seg[i];
                ||| 'a' <= c && c <= 'z'
                ||| 'A' <= c && c <= 'Z'
                ||| '0' <= c && c <= '9'
                ||| c == '_'
            })),
        seg.len() >= 2 && ((seg[0] == '{' && seg.last() == '}') || (seg[0] == '<' && seg.last() == '>'))
            && spec_normalize_segment(seg) is Ok ==> spec_normalize_segment(seg) == Ok::<
            Seq<char>,
            SegmentFault,
        >(seq![':'] + seg.subrange(1, seg.len() - 1)),
        seg == seq![':'] || seg == seq!['{', '}'] || seg == seq!['<', '>'] ==> spec_normalize_segment(seg)
            == Err::<Seq<char>, SegmentFault>(SegmentFault::EmptyParamName(seg)),
        (seg.len() >= 2 && seg[0] == ':') || (seg.len() >= 3 && ((seg[0] == '{' && seg.last() == '}')
            || (seg[0] == '<' && seg.last() == '>'))) ==> spec_normalize_segment(seg) is Ok
            || spec_normalize_segment(seg) == Err::<Seq<char>, SegmentFault>(
            SegmentFault::InvalidParamName(seg),
        ),
{
    if seg.len() > 0 && (seg[0] == ':' || seg[0] == '{' || seg[0] == '<') {
        assert(seq!['*'][0] == '*');
        assert(seg != seq!['*']);
    }
    if seg.len() > 0 && seg[0] == ':' {
        let name = seg.drop_first();
        assert(spec_param_name(seg) == Some(name));
        if name.len() > 0 && valid_param_name(name) {
            assert forall|i: int| 1 <= i < seg.len() implies is_param_char(#[trigger] seg[i]) by {
                assert(seg[i] == name[i - 1]);
            }
            assert(seq![':'] + name =~= seg);
        }
        if seg.len() >= 2 && forall|i: int| 1 <= i < seg.len() ==> is_param_char(#[trigger] seg[i]) {
            assert forall|i: int| 0 <= i < name.len() implies is_param_char(#[trigger] name[i]) by {
                assert(name[i] == seg[i + 1]);
            }
        }
    } else if seg.len() >= 2 && ((seg[0] == '{' && seg.last() == '}') || (seg[0] == '<' && seg.last()
        == '>')) {
        let name = seg.subrange(1, seg.len() - 1);
        assert(spec_param_name(seg) == Some(name));
        if name.len() > 0 && valid_param_name(name) {
            assert forall|i: int| 1 <= i < seg.len() - 1 implies is_param_char(#[trigger] seg[i]) by {
                assert(seg[i] == name[i - 1]);
            }
        }
        if seg.len() >= 3 && forall|i: int| 1 <= i < seg.len() - 1 ==> is_param_char(#[trigger] seg[i]) {
            assert forall|i: int| 0 <= i < name.len() implies is_param_char(#[trigger] name[i]) by {
                assert(name[i] == seg[i + 1]);
            }
        }
    }
}

// ---------------------------------------------------------------------
// Routes embedded in framework source
// ---------------------------------------------------------------------

/// The quote at `i` opens a quoted path in `s`: it is a single or double
/// quote, a `/` follows it, and a quote of the same kind comes later.
pub open spec fn opens_quoted_path(s: Seq<char>, i: int) -> bool {
    &&& 0 <= i
    &&& i + 1 < s.len()
    &&& (s[i] == '\'' || s[i] == '"')
    &&& s[i + 1] == '/'
    &&& exists|j: int| i + 1 < j < s.len() && s[j] == s[i]
}

/// `p` is the path quoted at `i` in `s`, read with method `m`: it starts
/// right after the opening quote, with `/`, holds no quote of the opening
/// kind, and the next character is that quote; `m` is the method named by
/// the text before the opening quote.
pub open spec fn quoted_path_at(s: Seq<char>, i: int, m: Seq<char>, p: Seq<char>) -> bool {
    &&& opens_quoted_path(s, i)
    &&& p.len() > 0
    &&& p[0] == '/'
    &&& i + 1 + p.len() < s.len()
    &&& p == s.subrange(i + 1, i + 1 + p.len())
    &&& s[i + 1 + p.len()] == s[i]
    &&& !p.contains(s[i])
    &&& m == spec_method_before(s.take(i))
}

proof fn lemma_embedded_from_exact(s: Seq<char>, i: nat)
    requires
        i <= s.len(),
    ensures
        spec_embedded_from(s, i) is None <==> forall|j: int|
            i <= j < s.len() ==> !#[trigger] opens_quoted_path(s, j),
        spec_embedded_from(s, i) matches Some(parts) ==> exists|k: int|
            #![trigger opens_quoted_path(s, k)]
            i <= k && quoted_path_at(s, k, parts.0, parts.1) && forall|j: int|
                i <= j < k ==> !#[trigger] opens_quoted_path(s, j),
    decreases s.len() - i,
{
    if i < s.len() {
        lemma_embedded_from_exact(s, i + 1);
        let c = s[i as int];
        let rest = s.skip(i + 1 as int);
        lemma_first_of(rest, c);
        let f = first_of(rest, c) as int;
        if (c == '\'' || c == '"') && rest.len() > 0 && rest[0] == '/' && f < rest.len() {
            let m = spec_method_before(s.take(i as int));
            let p = rest.take(f);
            assert(spec_embedded_from(s, i) == Some((m, p)));
            assert(rest[0] != c);
            assert(f >= 1);
            assert(s[i + 1 + f] == rest[f]);
            assert(opens_quoted_path(s, i as int));
            assert(p =~= s.subrange(i + 1 as int, i + 1 + f));
            if p.contains(c) {
                let x = choose|x: int| 0 <= x < p.len() && p[x] == c;
                assert(rest[x] == c);
            }
            assert(quoted_path_at(s, i as int, m, p));
        } else {
            assert(spec_embedded_from(s, i) == spec_embedded_from(s, i + 1));
            if opens_quoted_path(s, i as int) {
                let j = choose|j: int| i + 1 < j < s.len() && s[j] == s[i as int];
                assert(rest[j - i - 1] == c);
                assert(rest[0] == s[i + 1 as int]);
            }
            assert(!opens_quoted_path(s, i as int));
            if let Some(parts) = spec_embedded_from(s, i) {
                let k = choose|k: int|
                    #![trigger opens_quoted_path(s, k)]
                    i + 1 <= k && quoted_path_at(s, k, parts.0, parts.1) && forall|j: int|
                        i + 1 <= j < k ==> !#[trigger] opens_quoted_path(s, j);
                assert(quoted_path_at(s, k, parts.0, parts.1));
                assert forall|j: int| i <= j < k implies !#[trigger] opens_quoted_path(s, j) by {
                    if j > i {
                        assert(i + 1 <= j < k);
                    }
                }
            }
        }
    }
}

/// An embedded route is read exactly from the first quote that opens a
/// quoted path: there is none when no quote in the line is followed by `/`
/// and, later, by a quote of the same kind; otherwise the path runs from
/// that first such quote up to the next quote of the same kind, which it
/// does not contain, and the method is the one named just before the quote.
pub proof fn law_embedded_route_exact(line: Seq<char>)
    ensures
        spec_extract_embedded_route(line) is None <==> forall|i: int|
            0 <= i < line.len() ==> !#[trigger] opens_quoted_path(line, i),
        spec_extract_embedded_route(line) matches Some(parts) ==> exists|i: int|
            #![trigger opens_quoted_path(line, i)]
            0 <= i && quoted_path_at(line, i, parts.0, parts.1) && forall|j: int|
                0 <= j < i ==> !#[trigger] opens_quoted_path(line, j),
{
    lemma_embedded_from_exact(line, 0);
}

/// The method read before a quoted path is the word right before it. For a
/// prefix made of any text that does not end in an ASCII letter, a word of
/// ASCII letters, any run of `(` and any trailing whitespace: when the word
/// spells a known method `m` in any mix of case, the method is `m`; and the
/// method is always either `GET` or a known method that the word spells.
pub proof fn law_method_before_word(
    a: Seq<char>,
    word: Seq<char>,
    parens: Seq<char>,
    ws: Seq<char>,
    m: Seq<char>,
)
    requires
        a.len() == 0 || !(('a' <= a.last() && a.last() <= 'z') || ('A' <= a.last() && a.last() <= 'Z')),
        word.len() > 0,
        forall|i: int|
            0 <= i < word.len() ==> ('a' <= #[trigger] word[i] && word[i] <= 'z') || ('A' <= word[i]
                && word[i] <= 'Z'),
        forall|i: int| 0 <= i < parens.len() ==> #[trigger] parens[i] == '(',
        forall|i: int| 0 <= i < ws.len() ==> char_is_whitespace(#[trigger] ws[i]),
    ensures
        ({
            let r = spec_method_before(a + word + parens + ws);
            &&& is_known_method(m) && word.len() == m.len() && (forall|i: int|
                0 <= i < word.len() ==> #[trigger] word[i] == m[i] || word[i] as int == m[i] as int
                    + 32) ==> r == m
            &&& r == get_method() || (is_known_method(r) && word.len() == r.len() && forall|i: int|
                0 <= i < word.len() ==> #[trigger] word[i] == r[i] || word[i] as int == r[i] as int
                    + 32)
        }),
{
    let t3 = a + word + parens;
    let prefix = t3 + ws;
    let k = t3.len() as int;
    assert forall|j: int| k <= j < prefix.len() implies char_is_whitespace(#[trigger] prefix[j]) by {
        assert(prefix[j] == ws[j - k]);
    }
    if parens.len() > 0 {
        assert(prefix[k - 1] == parens.last());
    } else {
        assert(prefix[k - 1] == word.last());
    }
    lemma_trim_end_at(prefix, k);
    assert(prefix.take(k) =~= t3);
    let k2 = a.len() + word.len() as int;
    assert forall|j: int| k2 <= j < t3.len() implies #[trigger] t3[j] == '(' by {
        assert(t3[j] == parens[j - k2]);
    }
    assert(t3[k2 - 1] == word.last());
    lemma_trim_end_parens_at(t3, k2);
    let t = t3.take(k2);
    assert(t =~= a + word);
    assert forall|j: int| a.len() <= j < t.len() implies is_ascii_alpha(#[trigger] t[j]) by {
        assert(t[j] == word[j - a.len()]);
    }
    if a.len() > 0 {
        assert(t[a.len() - 1] == a.last());
    }
    lemma_alpha_suffix_start_at(t, a.len() as int);
    assert(t.skip(a.len() as int) =~= word);
    let upper = word.map_values(|c: char| ascii_upper(c));
    assert(spec_method_before(prefix) == (if is_known_method(upper) {
        upper
    } else {
        get_method()
    }));
    if is_known_method(m) && word.len() == m.len() && (forall|i: int|
        0 <= i < word.len() ==> #[trigger] word[i] == m[i] || word[i] as int == m[i] as int + 32) {
        lemma_known_method_letters(m);
        assert forall|i: int| 0 <= i < m.len() implies #[trigger] upper[i] == m[i] by {
            assert('A' <= m[i] && m[i] <= 'Z');
            if word[i] != m[i] {
                assert(word[i] as int == m[i] as int + 32);
            }
        }
        assert(upper =~= m);
    }
    assert forall|i: int| 0 <= i < word.len() implies #[trigger] word[i] == upper[i] || word[i] as int
        == upper[i] as int + 32 by {
        assert(upper[i] == ascii_upper(word[i]));
    }
}

/// The lines of a text that follows a line-ended text are the lines of the
/// first followed by the lines of the second.
pub proof fn law_text_lines_concat(c: Seq<char>, b: Seq<char>)
    requires
        c.len() > 0,
        c.last() == '\n',
    ensures
        text_lines(c + b) == text_lines(c) + text_lines(b),
{
    let t = c + b;
    lemma_split_after_newline(c, b);
    lemma_split_pieces(b, '\n');
    let pc = split(c, '\n');
    let pb = split(b, '\n');
    let pt = split(t, '\n');
    let lt = text_lines(t);
    let lc = text_lines(c);
    let lb = text_lines(b);
    if b.len() == 0 {
        assert(t =~= c);
        assert(lc + lb =~= lc);
    } else {
        assert(t.last() == b.last());
        assert(lt.len() == lc.len() + lb.len());
        assert forall|i: int| 0 <= i < lt.len() implies #[trigger] lt[i] == (lc + lb)[i] by {
            if i < lc.len() {
                assert(pt[i] == pc[i]);
            } else {
                assert(pt[i] == pb[i - lc.len()]);
                if b.last() != '\n' && i == lt.len() - 1 {
                    assert(lt[i] == pt.last());
                    assert(lb[i - lc.len()] == pb.last());
                }
            }
        }
        assert(lt =~= lc + lb);
    }
}

/// A carriage return right before a line break ends a line and is not part
/// of it; without one, the line is all that comes before the line break.
pub proof fn law_line_break_ends_line(a: Seq<char>)
    requires
        !a.contains('\n'),
    ensures
        text_lines(a.push('\r').push('\n')) == seq![a],
        a.len() == 0 || a.last() != '\r' ==> text_lines(a.push('\n')) == seq![a],
{
    let x = a.push('\r');
    assert(!x.contains('\n')) by {
        if x.contains('\n') {
            let j = choose|j: int| 0 <= j < x.len() && x[j] == '\n';
            assert(j < a.len());
            assert(a[j] == '\n');
        }
    }
    assert forall|j: int| -1 < j < x.len() implies #[trigger] x[j] != '\n' by {
        if j < a.len() {
            assert(x[j] == a[j]);
            if a[j] == '\n' {
                assert(a.contains('\n'));
            }
        }
    }
    lemma_last_of_at(x, '\n', -1);
    assert(split(x, '\n') == seq![x]);
    lemma_split_push_newline(x);
    assert(split(x.push('\n'), '\n') =~= seq![x, Seq::<char>::empty()]);
    assert(text_lines(x.push('\n')) =~= seq![strip_cr(x)]);
    assert(x.drop_last() =~= a);
    assert forall|j: int| -1 < j < a.len() implies #[trigger] a[j] != '\n' by {
        if a[j] == '\n' {
            assert(a.contains('\n'));
        }
    }
    lemma_last_of_at(a, '\n', -1);
    assert(split(a, '\n') == seq![a]);
    lemma_split_push_newline(a);
    assert(split(a.push('\n'), '\n') =~= seq![a, Seq::<char>::empty()]);
    assert(text_lines(a.push('\n')) =~= seq![strip_cr(a)]);
}

// ---------------------------------------------------------------------
// Command line and diagnostics
// ---------------------------------------------------------------------

/// The file paths of a command line are its arguments other than
/// `--check` and `--in-place`, in order, wherever the flags stand: the
/// paths of two runs of arguments put together are the paths of each, and
/// one argument is a path exactly when it is neither flag.
pub proof fn law_paths_are_non_flag_arguments(a: Seq<Seq<char>>, b: Seq<Seq<char>>, x: Seq<char>)
    ensures
        non_flags(a + b) == non_flags(a) + non_flags(b),
        non_flags(seq![x]) == (if x == "--check"@ || x == "--in-place"@ {
            Seq::<Seq<char>>::empty()
        } else {
            seq![x]
        }),
    decreases b.len(),
{
    let one = seq![x];
    assert(one.drop_last() =~= Seq::<Seq<char>>::empty());
    assert(one.last() == x);
    assert(non_flags(Seq::<Seq<char>>::empty()) == Seq::<Seq<char>>::empty());
    assert(Seq::<Seq<char>>::empty().push(x) =~= one);
    if b.len() == 0 {
        assert(a + b =~= a);
        assert(non_flags(a) + non_flags(b) =~= non_flags(a));
    } else {
        law_paths_are_non_flag_arguments(a, b.drop_last(), x);
        assert((a + b).drop_last() =~= a + b.drop_last());
        assert((a + b).last() == b.last());
        assert((non_flags(a) + non_flags(b.drop_last())).push(b.last()) =~= non_flags(a) + non_flags(
            b.drop_last(),
        ).push(b.last()));
    }
}

/// The number a run of decimal digits spells.
pub open spec fn digits_value(s: Seq<char>) -> int
    decreases s.len(),
{
    if s.len() == 0 {
        0
    } else {
        digits_value(s.drop_last()) * 10 + (s.last() as int - '0' as int)
    }
}

proof fn lemma_digit(d: nat)
    requires
        d < 10,
    ensures
        '0' <= digit(d) && digit(d) <= '9',
        digit(d) as int - '0' as int == d,
{
    let t = seq!['0', '1', '2', '3', '4', '5', '6', '7', '8', '9'];
    assert(digit(d) == t[d as int]);
    if d == 0 {
    } else if d == 1 {
    } else if d == 2 {
    } else if d == 3 {
    } else if d == 4 {
    } else if d == 5 {
    } else if d == 6 {
    } else if d == 7 {
    } else if d == 8 {
    } else {
    }
}

/// Line numbers in diagnostics are written in decimal: at least one digit,
/// only the digits `0` to `9`, no leading zero but for zero itself, and
/// the digits spell the number.
pub proof fn law_decimal_spells_number(n: nat)
    ensures
        decimal(n).len() > 0,
        forall|i: int| 0 <= i < decimal(n).len() ==> '0' <= #[trigger] decimal(n)[i] && decimal(n)[i] <= '9',
        decimal(n)[0] != '0' || n == 0,
        digits_value(decimal(n)) == n,
    decreases n,
{
    if n < 10 {
        lemma_digit(n);
        assert(decimal(n) == seq![digit(n)]);
        assert(decimal(n).drop_last() =~= Seq::<char>::empty());
        assert(digits_value(Seq::<char>::empty()) == 0);
    } else {
        let q = n / 10;
        let d = n % 10;
        law_decimal_spells_number(q);
        lemma_digit(d);
        let s = decimal(n);
        assert(s == decimal(q).push(digit(d)));
        assert(s.drop_last() =~= decimal(q));
        assert(s[0] == decimal(q)[0]);
        assert forall|i: int| 0 <= i < s.len() implies '0' <= #[trigger] s[i] && s[i] <= '9' by {
            if i < decimal(q).len() {
                assert(s[i] == decimal(q)[i]);
            }
        }
        assert(s.last() == digit(d));
        assert(digits_value(s) == digits_value(decimal(q)) * 10 + d);
        assert(q * 10 + d == n);
    }
}

// ---------------------------------------------------------------------
// Trimming
// ---------------------------------------------------------------------

proof fn lemma_trim_start_index(s: Seq<char>) -> (k: int)
    ensures
        0 <= k <= s.len(),
        trim_start(s) == s.skip(k),
        forall|j: int| 0 <= j < k ==> char_is_whitespace(#[trigger] s[j]),
        k == s.len() || !char_is_whitespace(s[k]),
    decreases s.len(),
{
    if s.len() > 0 && char_is_whitespace(s[0]) {
        let t = s.drop_first();
        let k1 = lemma_trim_start_index(t);
        assert(t.skip(k1) =~= s.skip(k1 + 1));
        assert forall|j: int| 0 <= j < k1 + 1 implies char_is_whitespace(#[trigger] s[j]) by {
            if j > 0 {
                assert(s[j] == t[j - 1]);
            }
        }
        if k1 < t.len() {
            assert(s[k1 + 1] == t[k1]);
        }
        k1 + 1
    } else {
        assert(s.skip(0) =~= s);
        0
    }
}

proof fn lemma_trim_end_index(s: Seq<char>) -> (k: int)
    ensures
        0 <= k <= s.len(),
        trim_end(s) == s.take(k),
        forall|j: int| k <= j < s.len() ==> char_is_whitespace(#[trigger] s[j]),
        k == 0 || !char_is_whitespace(s[k - 1]),
    decreases s.len(),
{
    if s.len() > 0 && char_is_whitespace(s.last()) {
        let t = s.drop_last();
        let k1 = lemma_trim_end_index(t);
        assert(t.take(k1) =~= s.take(k1));
        assert forall|j: int| k1 <= j < s.len() implies char_is_whitespace(#[trigger] s[j]) by {
            if j < t.len() {
                assert(s[j] == t[j]);
            }
        }
        if k1 > 0 {
            assert(s[k1 - 1] == t[k1 - 1]);
        }
        k1
    } else {
        assert(s.take(s.len() as int) =~= s);
        s.len() as int
    }
}

/// Trimming removes exactly the whitespace at both ends of a line: what is
/// left is a contiguous part of it, everything before and after that part
/// is whitespace, and the part neither starts nor ends with whitespace.
pub proof fn law_trim_strips_ends(s: Seq<char>)
    ensures
        exists|a: int, b: int|
            #![trigger s.subrange(a, b)]
            0 <= a <= b <= s.len() && trim(s) == s.subrange(a, b) && (forall|j: int|
                0 <= j < a ==> char_is_whitespace(#[trigger] s[j])) && (forall|j: int|
                b <= j < s.len() ==> char_is_whitespace(#[trigger] s[j])),
        trim(s).len() > 0 ==> !char_is_whitespace(trim(s)[0]) && !char_is_whitespace(trim(s).last()),
{
    let a = lemma_trim_start_index(s);
    let u = s.skip(a);
    let k = lemma_trim_end_index(u);
    let b = a + k;
    assert(trim(s) == u.take(k));
    assert(u.take(k) =~= s.subrange(a, b));
    assert forall|j: int| b <= j < s.len() implies char_is_whitespace(#[trigger] s[j]) by {
        assert(s[j] == u[j - a]);
    }
    if k > 0 {
        assert(trim(s)[0] == u[0]);
        assert(u[0] == s[a]);
        assert(trim(s).last() == u[k - 1]);
    }
}

// ---------------------------------------------------------------------
// Collisions name the first line
// ---------------------------------------------------------------------

/// A collision is reported against the first line with that shape:
/// formatting and checking remember, for each collision key, the number of
/// the first line whose route has it, and later lines with the same key
/// do not replace it.
pub proof fn law_first_line_remembered(lines: Seq<Seq<char>>, label: Seq<char>, j: int, k: Seq<char>)
    requires
        0 <= j < lines.len(),
        route_key_at(lines, j, k),
        !key_before(lines, j, k),
    ensures
        format_lines(lines, label).seen[k] == j + 1,
        check_lines(lines).seen[k] == j + 1,
    decreases lines.len(),
{
    let front = lines.drop_last();
    let n = lines.len() - 1;
    let fs = format_lines(front, label);
    let cs = check_lines(front);
    assert(lines[n] == lines.last());
    assert(format_lines(lines, label) == format_step(fs, lines.last(), lines.len(), label));
    assert(check_lines(lines) == check_step(cs, lines.last(), lines.len()));
    lemma_seen_keys(front, label);
    if j == n {
        if key_before(front, n, k) {
            let i = choose|i: int| 0 <= i < n && #[trigger] route_key_at(front, i, k);
            assert(front[i] == lines[i]);
            assert(route_key_at(lines, i, k));
        }
        assert(!fs.seen.dom().contains(k));
        assert(!cs.seen.dom().contains(k));
    } else {
        assert(front[j] == lines[j]);
        assert(route_key_at(front, j, k));
        if key_before(front, j, k) {
            let i = choose|i: int| 0 <= i < j && #[trigger] route_key_at(front, i, k);
            assert(front[i] == lines[i]);
            assert(route_key_at(lines, i, k));
        }
        law_first_line_remembered(front, label, j, k);
        assert(key_before(front, n, k)) by {
            assert(route_key_at(front, j, k));
        }
        assert(fs.seen.dom().contains(k));
        assert(cs.seen.dom().contains(k));
        match spec_normalize_route(lines.last()) {
            Ok(Some(m)) => {
                let key = spec_collision_key(m);
                if key != k {
                    assert(fs.seen.insert(key, lines.len() as nat)[k] == fs.seen[k]);
                    assert(cs.seen.insert(key, lines.len() as nat)[k] == cs.seen[k]);
                }
            },
            _ => {},
        }
    }
}

/// The first line whose route has collision key `k`.
pub open spec fn first_key_line(lines: Seq<Seq<char>>, k: Seq<char>) -> int {
    choose|j: int| 0 <= j < lines.len() && route_key_at(lines, j, k) && !key_before(lines, j, k)
}

/// Once some line has key `k`, there is exactly one first such line.
proof fn lemma_first_key_line(lines: Seq<Seq<char>>, i: int, k: Seq<char>)
    requires
        0 <= i < lines.len(),
        route_key_at(lines, i, k),
    ensures
        0 <= first_key_line(lines, k) <= i,
        route_key_at(lines, first_key_line(lines, k), k),
        !key_before(lines, first_key_line(lines, k), k),
        forall|j: int|
            0 <= j < lines.len() && #[trigger] route_key_at(lines, j, k) && !key_before(lines, j, k) ==> j
                == first_key_line(lines, k),
    decreases i,
{
    if key_before(lines, i, k) {
        let j = choose|j: int| 0 <= j < i && #[trigger] route_key_at(lines, j, k);
        lemma_first_key_line(lines, j, k);
    } else {
        assert(0 <= i < lines.len() && route_key_at(lines, i, k) && !key_before(lines, i, k));
    }
    let f = first_key_line(lines, k);
    assert forall|j: int|
        0 <= j < lines.len() && #[trigger] route_key_at(lines, j, k) && !key_before(lines, j, k) implies j
            == f by {
        if j < f {
            assert(key_before(lines, f, k));
        }
        if f < j {
            assert(route_key_at(lines, f, k));
            assert(key_before(lines, j, k));
        }
    }
    if f > i {
        assert(key_before(lines, f, k));
    }
}

/// The first line with a key is the same in a longer input.
proof fn lemma_first_key_line_prefix(lines: Seq<Seq<char>>, i: int, k: Seq<char>)
    requires
        0 <= i < lines.len() - 1,
        route_key_at(lines, i, k),
    ensures
        first_key_line(lines, k) == first_key_line(lines.drop_last(), k),
{
    let front = lines.drop_last();
    assert(front[i] == lines[i]);
    lemma_first_key_line(front, i, k);
    let f = first_key_line(front, k);
    assert(front[f] == lines[f]);
    assert(route_key_at(lines, f, k));
    if key_before(lines, f, k) {
        let j = choose|j: int| 0 <= j < f && #[trigger] route_key_at(lines, j, k);
        assert(front[j] == lines[j]);
        assert(route_key_at(front, j, k));
    }
    lemma_first_key_line(lines, i, k);
}

/// The lines formatting reports, in input order.
pub open spec fn format_reported(lines: Seq<Seq<char>>) -> Seq<int>
    decreases lines.len(),
{
    if lines.len() == 0 {
        Seq::empty()
    } else if format_reports_line(lines, lines.len() - 1) {
        format_reported(lines.drop_last()).push(lines.len() - 1)
    } else {
        format_reported(lines.drop_last())
    }
}

/// What formatting says of reported line `i`: why it does not normalize,
/// or the first line it collides with.
pub open spec fn format_message(lines: Seq<Seq<char>>, i: int) -> Seq<char> {
    match spec_normalize_route(lines[i]) {
        Err(e) => fault_message(e),
        Ok(Some(m)) => collision_message((first_key_line(lines, spec_collision_key(m)) + 1) as nat),
        Ok(None) => Seq::empty(),
    }
}

proof fn lemma_format_reported_range(lines: Seq<Seq<char>>)
    ensures
        forall|d: int|
            0 <= d < format_reported(lines).len() ==> 0 <= #[trigger] format_reported(lines)[d]
                < lines.len() && format_reports_line(lines, format_reported(lines)[d]),
    decreases lines.len(),
{
    if lines.len() > 0 {
        let front = lines.drop_last();
        lemma_format_reported_range(front);
        assert forall|d: int|
            0 <= d < format_reported(lines).len() implies 0 <= #[trigger] format_reported(lines)[d]
                < lines.len() && format_reports_line(lines, format_reported(lines)[d]) by {
            if d < format_reported(front).len() {
                let i = format_reported(front)[d];
                assert(format_reported(lines)[d] == i);
                lemma_reports_prefix(lines, i);
            }
        }
    }
}

/// Whether an earlier line has a key does not depend on the lines after.
proof fn lemma_key_before_prefix(lines: Seq<Seq<char>>, n: int, k: Seq<char>)
    requires
        0 <= n < lines.len(),
        n == lines.len() - 1,
    ensures
        key_before(lines, n, k) == key_before(lines.drop_last(), n, k),
{
    let front = lines.drop_last();
    if key_before(lines, n, k) {
        let j = choose|j: int| 0 <= j < n && #[trigger] route_key_at(lines, j, k);
        assert(front[j] == lines[j]);
        assert(route_key_at(front, j, k));
    }
    if key_before(front, n, k) {
        let j = choose|j: int| 0 <= j < n && #[trigger] route_key_at(front, j, k);
        assert(front[j] == lines[j]);
        assert(route_key_at(lines, j, k));
    }
}

/// What formatting says of an earlier reported line does not depend on the
/// lines after.
proof fn lemma_format_messages_prefix(lines: Seq<Seq<char>>)
    requires
        lines.len() > 0,
    ensures
        forall|d: int|
            0 <= d < format_reported(lines.drop_last()).len() ==> #[trigger] format_message(
                lines.drop_last(),
                format_reported(lines.drop_last())[d],
            ) == format_message(lines, format_reported(lines.drop_last())[d]),
{
    let front = lines.drop_last();
    let r = format_reported(front);
    lemma_format_reported_range(front);
    assert forall|d: int| 0 <= d < r.len() implies #[trigger] format_message(front, r[d])
        == format_message(lines, r[d]) by {
        let i = r[d];
        assert(front[i] == lines[i]);
        assert(format_reports_line(front, i));
        match spec_normalize_route(lines[i]) {
            Ok(Some(m)) => {
                let key = spec_collision_key(m);
                let j = choose|j: int| 0 <= j < i && #[trigger] route_key_at(front, j, key);
                assert(front[j] == lines[j]);
                lemma_first_key_line_prefix(lines, j, key);
            },
            _ => {},
        }
    }
}

/// The last line adds its diagnostic exactly when it is reported.
proof fn lemma_format_last_diagnostic(lines: Seq<Seq<char>>, label: Seq<char>)
    requires
        lines.len() > 0,
    ensures
        ({
            let n = lines.len() - 1;
            let before = format_lines(lines.drop_last(), label).diagnostics;
            &&& format_reports_line(lines, n) ==> format_lines(lines, label).diagnostics == before.push(
                location(label, (n + 1) as nat, format_message(lines, n)),
            )
            &&& !format_reports_line(lines, n) ==> format_lines(lines, label).diagnostics == before
        }),
{
    let front = lines.drop_last();
    let n = lines.len() - 1;
    lemma_seen_keys(front, label);
    let fs = format_lines(front, label);
    assert(lines[n] == lines.last());
    assert(format_lines(lines, label) == format_step(fs, lines.last(), lines.len(), label));
    match spec_normalize_route(lines.last()) {
        Ok(Some(m)) => {
            let key = spec_collision_key(m);
            lemma_key_before_prefix(lines, n, key);
            if fs.seen.dom().contains(key) {
                let j = choose|j: int| 0 <= j < n && #[trigger] route_key_at(front, j, key);
                lemma_first_key_line(front, j, key);
                let f = first_key_line(front, key);
                law_first_line_remembered(front, label, f, key);
                assert(front[j] == lines[j]);
                assert(route_key_at(lines, j, key));
                lemma_first_key_line_prefix(lines, j, key);
            }
        },
        _ => {},
    }
}

/// A route line that collides, or fails to normalize, is answered:
/// formatting gives one diagnostic for each line it reports, in input
/// order, naming the line's number and saying why the line does not
/// normalize or which earlier line it collides with.
pub proof fn law_format_diagnostics_exact(lines: Seq<Seq<char>>, label: Seq<char>)
    ensures
        format_lines(lines, label).diagnostics == format_reported(lines).map_values(
            |i: int| location(label, (i + 1) as nat, format_message(lines, i)),
        ),
    decreases lines.len(),
{
    let ml = |i: int| location(label, (i + 1) as nat, format_message(lines, i));
    if lines.len() == 0 {
        assert(format_reported(lines).map_values(ml) =~= Seq::<Seq<char>>::empty());
    } else {
        let front = lines.drop_last();
        let n = lines.len() - 1;
        law_format_diagnostics_exact(front, label);
        lemma_format_messages_prefix(lines);
        lemma_format_last_diagnostic(lines, label);
        let r = format_reported(front);
        let mf = |i: int| location(label, (i + 1) as nat, format_message(front, i));
        assert(r.map_values(mf) =~= r.map_values(ml));
        if format_reports_line(lines, n) {
            assert(format_reported(lines) == r.push(n));
            assert(r.push(n).map_values(ml) =~= r.map_values(ml).push(ml(n)));
        } else {
            assert(format_reported(lines) == r);
        }
    }
}

/// What checking says of line `i`, in order: why it does not normalize;
/// or, for a route, the first line it collides with, if any, and then the
/// form it should have, if the line differs from that form by more than
/// surrounding whitespace.
pub open spec fn check_answers_line(lines: Seq<Seq<char>>, i: int) -> Seq<Seq<char>> {
    let no = (i + 1) as nat;
    let none = Seq::<char>::empty();
    match spec_normalize_route(lines[i]) {
        Err(e) => seq![location(none, no, fault_message(e))],
        Ok(Some(m)) => {
            let key = spec_collision_key(m);
            let collides = if key_before(lines, i, key) {
                seq![location(none, no, collision_message((first_key_line(lines, key) + 1) as nat))]
            } else {
                Seq::empty()
            };
            if trim(lines[i]) == m {
                collides
            } else {
                collides.push(location(none, no, not_normalized_message(m)))
            }
        },
        Ok(None) => Seq::empty(),
    }
}

/// What checking says of the lines, line by line in input order.
pub open spec fn check_answers(lines: Seq<Seq<char>>) -> Seq<Seq<char>>
    decreases lines.len(),
{
    if lines.len() == 0 {
        Seq::empty()
    } else {
        check_answers(lines.drop_last()) + check_answers_line(lines, lines.len() - 1)
    }
}

/// The last line adds what checking says of it.
proof fn lemma_check_last_diagnostics(lines: Seq<Seq<char>>)
    requires
        lines.len() > 0,
    ensures
        check_lines(lines).diagnostics == check_lines(lines.drop_last()).diagnostics
            + check_answers_line(lines, lines.len() - 1),
{
    let front = lines.drop_last();
    let n = lines.len() - 1;
    let none = Seq::<char>::empty();
    lemma_seen_keys(front, none);
    let cs = check_lines(front);
    assert(lines[n] == lines.last());
    assert(check_lines(lines) == check_step(cs, lines.last(), lines.len()));
    match spec_normalize_route(lines.last()) {
        Ok(Some(m)) => {
            let key = spec_collision_key(m);
            lemma_key_before_prefix(lines, n, key);
            let st2 = note_route(cs, m, lines.len() as nat, none);
            if cs.seen.dom().contains(key) {
                let j = choose|j: int| 0 <= j < n && #[trigger] route_key_at(front, j, key);
                lemma_first_key_line(front, j, key);
                let f = first_key_line(front, key);
                law_first_line_remembered(front, none, f, key);
                assert(front[j] == lines[j]);
                assert(route_key_at(lines, j, key));
                lemma_first_key_line_prefix(lines, j, key);
                let c = location(none, lines.len() as nat, collision_message((f + 1) as nat));
                assert(st2.diagnostics == cs.diagnostics.push(c));
                if trim(lines.last()) == m {
                    assert(cs.diagnostics.push(c) =~= cs.diagnostics + seq![c]);
                } else {
                    let x = location(none, lines.len() as nat, not_normalized_message(m));
                    assert(cs.diagnostics.push(c).push(x) =~= cs.diagnostics + seq![c].push(x));
                }
            } else {
                assert(st2.diagnostics == cs.diagnostics);
                if trim(lines.last()) == m {
                    assert(cs.diagnostics =~= cs.diagnostics + Seq::<Seq<char>>::empty());
                } else {
                    let x = location(none, lines.len() as nat, not_normalized_message(m));
                    assert(cs.diagnostics.push(x) =~= cs.diagnostics + Seq::<Seq<char>>::empty().push(x));
                }
            }
        },
        Ok(None) => {
            assert(cs.diagnostics =~= cs.diagnostics + Seq::<Seq<char>>::empty());
        },
        Err(e) => {
            let x = location(none, lines.len() as nat, fault_message(e));
            assert(cs.diagnostics.push(x) =~= cs.diagnostics + seq![x]);
        },
    }
}

/// Checking answers every line it objects to, in input order: a line that
/// does not normalize gets why; a route that collides gets the first line
/// it collides with; a route that differs from its normal form by more
/// than surrounding whitespace gets that form; and nothing else is said.
pub proof fn law_check_diagnostics_exact(lines: Seq<Seq<char>>)
    ensures
        check_lines(lines).diagnostics == check_answers(lines),
    decreases lines.len(),
{
    if lines.len() > 0 {
        law_check_diagnostics_exact(lines.drop_last());
        lemma_check_last_diagnostics(lines);
    }
}

} // verus!
