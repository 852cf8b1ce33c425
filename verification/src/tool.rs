//! The route formatter's own logic around `normalize_route`: its command
//! line, the text of its diagnostics, collision tracking across the lines
//! of one input, and what formatting or checking a whole input produces.
//! Reading files and printing stay with the caller.

use vstd::prelude::*;
use crate::chars::{
    chars_eq, from_chars, lemma_split_pieces, push_str, slice_chars, split, split_chars, to_chars,
    trim, trim_str, views,
};
use crate::route::{
    collision_key, fault_message, normalize_route, spec_collision_key, spec_normalize_route,
};

verus! {

/// The character sequences a vector of strings holds.
pub open spec fn string_views(v: Seq<String>) -> Seq<Seq<char>> {
    v.map_values(|s: String| s@)
}

// ---------------------------------------------------------------------
// Command line
// ---------------------------------------------------------------------

/// What the command line asks for.
pub struct Args {
    pub check: bool,
    pub in_place: bool,
    pub paths: Vec<String>,
}

pub open spec fn is_flag(arg: Seq<char>) -> bool {
    arg == "--check"@ || arg == "--in-place"@
}

/// The arguments that are not flags, in order.
pub open spec fn non_flags(args: Seq<Seq<char>>) -> Seq<Seq<char>>
    decreases args.len(),
{
    if args.len() == 0 {
        args
    } else if is_flag(args.last()) {
        non_flags(args.drop_last())
    } else {
        non_flags(args.drop_last()).push(args.last())
    }
}

/// Whether two strings hold the same characters.
fn str_eq(a: &str, b: &str) -> (r: bool)
    ensures
        r == (a@ == b@),
{
    let ac = to_chars(a);
    let bc = to_chars(b);
    chars_eq(ac.as_slice(), bc.as_slice())
}

/// `--check` and `--in-place` are flags, wherever they stand; every other
/// argument is a file path.
pub fn parse_args(raw: &[String]) -> (r: Args)
    ensures
        r.check == exists|i: int| 0 <= i < raw@.len() && (#[trigger] raw@[i])@ == "--check"@,
        r.in_place == exists|i: int| 0 <= i < raw@.len() && (#[trigger] raw@[i])@ == "--in-place"@,
        string_views(r.paths@) == non_flags(string_views(raw@)),
{
    let mut check = false;
    let mut in_place = false;
    let mut paths: Vec<String> = Vec::new();
    proof {
        reveal_strlit("--check");
        reveal_strlit("--in-place");
        assert("--check"@ != "--in-place"@) by {
            assert("--check"@.len() != "--in-place"@.len());
        }
    }
    let n = raw.len();
    for i in 0..n
        invariant
            n == raw@.len(),
            "--check"@ != "--in-place"@,
            check == exists|j: int| 0 <= j < i && (#[trigger] raw@[j])@ == "--check"@,
            in_place == exists|j: int| 0 <= j < i && (#[trigger] raw@[j])@ == "--in-place"@,
            string_views(paths@) == non_flags(string_views(raw@).take(i as int)),
    {
        let ghost all = string_views(raw@);
        assert(all.take(i + 1).drop_last() =~= all.take(i as int));
        assert(all.take(i + 1).last() == raw@[i as int]@);
        let arg = &raw[i];
        if str_eq(arg.as_str(), "--check") {
            check = true;
        } else if str_eq(arg.as_str(), "--in-place") {
            in_place = true;
        } else {
            let ghost prev = string_views(paths@);
            paths.push(arg.clone());
            assert(string_views(paths@) =~= prev.push(raw@[i as int]@));
        }
    }
    assert(string_views(raw@).take(n as int) =~= string_views(raw@));
    Args { check, in_place, paths }
}

// ---------------------------------------------------------------------
// Diagnostics
// ---------------------------------------------------------------------

pub open spec fn digit(d: nat) -> char {
    seq!['0', '1', '2', '3', '4', '5', '6', '7', '8', '9'][d as int]
}

/// The decimal digits of `n`.
pub open spec fn decimal(n: nat) -> Seq<char>
    decreases n,
{
    if n < 10 {
        seq![digit(n)]
    } else {
        decimal(n / 10).push(digit(n % 10))
    }
}

fn digit_char(d: usize) -> (c: char)
    requires
        d < 10,
    ensures
        c == digit(d as nat),
{
    let table = vec!['0', '1', '2', '3', '4', '5', '6', '7', '8', '9'];
    assert(table@ =~= seq!['0', '1', '2', '3', '4', '5', '6', '7', '8', '9']);
    table[d]
}

fn decimal_chars(n: usize) -> (r: Vec<char>)
    ensures
        r@ == decimal(n as nat),
    decreases n,
{
    if n < 10 {
        let r = vec![digit_char(n)];
        assert(r@ =~= decimal(n as nat));
        r
    } else {
        let mut r = decimal_chars(n / 10);
        r.push(digit_char(n % 10));
        r
    }
}

/// A diagnostic line: `routefmt: line N: msg`, or, with a file label,
/// `routefmt: label: line N: msg`.
pub open spec fn location(label: Seq<char>, line_no: nat, msg: Seq<char>) -> Seq<char> {
    if label.len() == 0 {
        "routefmt: line "@ + decimal(line_no) + ": "@ + msg
    } else {
        "routefmt: "@ + label + ": line "@ + decimal(line_no) + ": "@ + msg
    }
}

/// Formats a diagnostic for line `line_no`, prefixed with `label` when it is a file path.
pub fn format_location(label: &str, line_no: usize, msg: &str) -> (r: String)
    ensures
        r@ == location(label@, line_no as nat, msg@),
{
    let digits = from_chars(decimal_chars(line_no).as_slice());
    let mut out = String::new();
    if to_chars(label).len() == 0 {
        push_str(&mut out, "routefmt: line ");
    } else {
        push_str(&mut out, "routefmt: ");
        push_str(&mut out, label);
        push_str(&mut out, ": line ");
    }
    push_str(&mut out, digits.as_str());
    push_str(&mut out, ": ");
    push_str(&mut out, msg);
    out
}

pub open spec fn collision_message(first_line: nat) -> Seq<char> {
    "route collides with line "@ + decimal(first_line) + " after normalization"@
}

pub open spec fn not_normalized_message(expected: Seq<char>) -> Seq<char> {
    "not normalized, expected '"@ + expected + "'"@
}

/// A line counts as already normalized when it differs from what
/// `normalize_route` produced only by surrounding whitespace.
pub fn is_normalized(original_line: &str, normalized: &str) -> (r: bool)
    ensures
        r == (trim(original_line@) == normalized@),
{
    str_eq(trim_str(original_line), normalized)
}

// ---------------------------------------------------------------------
// Lines of an input
// ---------------------------------------------------------------------

pub open spec fn strip_cr(line: Seq<char>) -> Seq<char> {
    if line.len() > 0 && line.last() == '\r' {
        line.drop_last()
    } else {
        line
    }
}

/// The lines of `s` as `str::lines` yields them: split at `\n`, a `\r`
/// right before a `\n` dropped, and no empty last line after a final `\n`.
pub open spec fn text_lines(s: Seq<char>) -> Seq<Seq<char>> {
    let pieces = split(s, '\n');
    if s.len() == 0 {
        Seq::empty()
    } else if s.last() == '\n' {
        pieces.drop_last().map_values(|p: Seq<char>| strip_cr(p))
    } else {
        pieces.drop_last().map_values(|p: Seq<char>| strip_cr(p)).push(pieces.last())
    }
}

fn strip_cr_chars(line: &Vec<char>) -> (r: Vec<char>)
    ensures
        r@ == strip_cr(line@),
{
    let n = line.len();
    if n > 0 && line[n - 1] == '\r' {
        slice_chars(line.as_slice(), 0, n - 1)
    } else {
        slice_chars(line.as_slice(), 0, n)
    }
}

/// The lines of `s`, each as its characters.
fn text_lines_chars(s: &str) -> (r: Vec<Vec<char>>)
    ensures
        views(r@) == text_lines(s@),
{
    let sc = to_chars(s);
    let pieces = split_chars(sc.as_slice(), '\n');
    proof {
        lemma_split_pieces(s@, '\n');
    }
    let mut out: Vec<Vec<char>> = Vec::new();
    if sc.len() == 0 {
        return out;
    }
    let m = pieces.len() - 1;
    let ghost ps = views(pieces@);
    for i in 0..m
        invariant
            m + 1 == pieces@.len(),
            ps == views(pieces@),
            ps == split(s@, '\n'),
            out@.len() == i,
            views(out@) == ps.take(i as int).map_values(|p: Seq<char>| strip_cr(p)),
    {
        let ghost prev = views(out@);
        out.push(strip_cr_chars(&pieces[i]));
        proof {
            let target = ps.take(i + 1).map_values(|p: Seq<char>| strip_cr(p));
            assert forall|j: int| 0 <= j < i + 1 implies views(out@)[j] == #[trigger] target[j] by {
                if j < i {
                    assert(views(out@)[j] == prev[j]);
                }
            }
            assert(views(out@) =~= target);
        }
    }
    assert(ps.take(m as int) =~= ps.drop_last());
    if sc[sc.len() - 1] != '\n' {
        let ghost prev = views(out@);
        let last = slice_chars(pieces[m].as_slice(), 0, pieces[m].len());
        out.push(last);
        assert(pieces@[m as int]@.subrange(0, pieces@[m as int]@.len() as int) =~= pieces@[m as int]@);
        assert(views(out@) =~= prev.push(ps.last()));
    }
    out
}

// ---------------------------------------------------------------------
// Collision tracking
// ---------------------------------------------------------------------

/// The collision keys seen so far, each with the line it first appeared on.
pub struct CollisionTable {
    keys: Vec<String>,
    lines: Vec<usize>,
}

pub open spec fn table_map(keys: Seq<Seq<char>>, lines: Seq<usize>) -> Map<Seq<char>, nat>
    decreases keys.len(),
{
    if keys.len() == 0 {
        Map::empty()
    } else {
        table_map(keys.drop_last(), lines.drop_last()).insert(
            keys.last(),
            lines[keys.len() - 1] as nat,
        )
    }
}

pub open spec fn distinct(keys: Seq<Seq<char>>) -> bool {
    forall|i: int, j: int| 0 <= i < j < keys.len() ==> keys[i] != keys[j]
}

proof fn lemma_table_map(keys: Seq<Seq<char>>, lines: Seq<usize>, k: Seq<char>)
    requires
        keys.len() == lines.len(),
        distinct(keys),
    ensures
        table_map(keys, lines).dom().contains(k) <==> exists|j: int|
            0 <= j < keys.len() && keys[j] == k,
        forall|j: int|
            0 <= j < keys.len() && keys[j] == k ==> table_map(keys, lines)[k] == lines[j] as nat,
    decreases keys.len(),
{
    if keys.len() > 0 {
        let kd = keys.drop_last();
        let ld = lines.drop_last();
        lemma_table_map(kd, ld, k);
        assert forall|j: int| 0 <= j < keys.len() && keys[j] == k implies table_map(keys, lines)[k]
            == lines[j] as nat by {
            if j < keys.len() - 1 {
                assert(kd[j] == k);
                assert(keys[j] != keys[keys.len() - 1]);
            }
        }
        if table_map(keys, lines).dom().contains(k) {
            if k != keys.last() {
                let j = choose|j: int| 0 <= j < kd.len() && kd[j] == k;
                assert(keys[j] == k);
            }
        }
        if exists|j: int| 0 <= j < keys.len() && keys[j] == k {
            let j = choose|j: int| 0 <= j < keys.len() && keys[j] == k;
            if j < keys.len() - 1 {
                assert(kd[j] == k);
            }
        }
    }
}

impl CollisionTable {
    /// The table's keys are distinct and each has its line.
    pub closed spec fn wf(&self) -> bool {
        &&& self.keys@.len() == self.lines@.len()
        &&& distinct(string_views(self.keys@))
    }

    /// The keys seen, each with the line it first appeared on.
    pub closed spec fn seen(&self) -> Map<Seq<char>, nat> {
        table_map(string_views(self.keys@), self.lines@)
    }

    /// An empty table.
    pub fn new() -> (r: CollisionTable)
        ensures
            r.wf(),
            r.seen() == Map::<Seq<char>, nat>::empty(),
    {
        let r = CollisionTable { keys: Vec::new(), lines: Vec::new() };
        assert(string_views(r.keys@) =~= Seq::<Seq<char>>::empty());
        r
    }

    /// The line on which `key` first appeared, if it did.
    pub fn get(&self, key: &str) -> (r: Option<usize>)
        requires
            self.wf(),
        ensures
            match r {
                Some(line) => self.seen().dom().contains(key@) && self.seen()[key@] == line as nat,
                None => !self.seen().dom().contains(key@),
            },
    {
        let ghost ks = string_views(self.keys@);
        proof {
            lemma_table_map(ks, self.lines@, key@);
        }
        let n = self.keys.len();
        for i in 0..n
            invariant
                n == self.keys@.len(),
                n == self.lines@.len(),
                ks == string_views(self.keys@),
                forall|j: int| 0 <= j < i ==> ks[j] != key@,
                forall|j: int|
                    0 <= j < ks.len() && ks[j] == key@ ==> self.seen().dom().contains(key@)
                        && self.seen()[key@] == self.lines@[j] as nat,
        {
            if str_eq(self.keys[i].as_str(), key) {
                assert(ks[i as int] == key@);
                return Some(self.lines[i]);
            }
        }
        None
    }

    /// Records `key` as first seen on `line`.
    fn insert(&mut self, key: String, line: usize)
        requires
            old(self).wf(),
            !old(self).seen().dom().contains(key@),
        ensures
            final(self).wf(),
            final(self).seen() == old(self).seen().insert(key@, line as nat),
    {
        let ghost ks = string_views(self.keys@);
        proof {
            lemma_table_map(ks, self.lines@, key@);
        }
        self.keys.push(key);
        self.lines.push(line);
        let ghost ks2 = string_views(self.keys@);
        assert(ks2 =~= ks.push(key@));
        assert(ks2.drop_last() =~= ks);
        assert(self.lines@.drop_last() =~= old(self).lines@);
        assert forall|i: int, j: int| 0 <= i < j < ks2.len() implies ks2[i] != ks2[j] by {
            if j == ks2.len() - 1 {
                assert(ks2[i] == ks[i]);
            }
        }
    }
}

/// Records `normalized`'s collision key as first seen on `line_no`; if that
/// key was seen before, adds a diagnostic naming the first line instead
/// and returns true.
pub fn record_collision(
    seen: &mut CollisionTable,
    normalized: &str,
    line_no: usize,
    label: &str,
    diagnostics: &mut Vec<String>,
) -> (collided: bool)
    requires
        old(seen).wf(),
    ensures
        final(seen).wf(),
        collided == old(seen).seen().dom().contains(spec_collision_key(normalized@)),
        collided ==> final(seen).seen() == old(seen).seen(),
        collided ==> string_views(final(diagnostics)@) == string_views(old(diagnostics)@).push(
            location(
                label@,
                line_no as nat,
                collision_message(old(seen).seen()[spec_collision_key(normalized@)]),
            ),
        ),
        !collided ==> final(seen).seen() == old(seen).seen().insert(
            spec_collision_key(normalized@),
            line_no as nat,
        ),
        !collided ==> final(diagnostics)@ == old(diagnostics)@,
{
    let key = collision_key(normalized);
    match seen.get(key.as_str()) {
        Some(first_line) => {
            let digits = from_chars(decimal_chars(first_line).as_slice());
            let mut msg = String::new();
            push_str(&mut msg, "route collides with line ");
            push_str(&mut msg, digits.as_str());
            push_str(&mut msg, " after normalization");
            let ghost prev = string_views(diagnostics@);
            diagnostics.push(format_location(label, line_no, msg.as_str()));
            assert(string_views(diagnostics@) =~= prev.push(
                location(label@, line_no as nat, collision_message(first_line as nat)),
            ));
            true
        },
        None => {
            seen.insert(key, line_no);
            false
        },
    }
}


// ---------------------------------------------------------------------
// Formatting and checking a whole input
// ---------------------------------------------------------------------

/// Where formatting or checking stands after some lines: the output so
/// far, whether anything was reported, the diagnostics, and the collision
/// keys seen with their first lines.
pub struct Progress {
    pub text: Seq<char>,
    pub had_error: bool,
    pub diagnostics: Seq<Seq<char>>,
    pub seen: Map<Seq<char>, nat>,
}

pub open spec fn fresh_progress() -> Progress {
    Progress {
        text: Seq::empty(),
        had_error: false,
        diagnostics: Seq::empty(),
        seen: Map::empty(),
    }
}

/// A diagnostic added, and the error noted.
pub open spec fn report(st: Progress, diagnostic: Seq<char>) -> Progress {
    Progress {
        text: st.text,
        had_error: true,
        diagnostics: st.diagnostics.push(diagnostic),
        seen: st.seen,
    }
}

/// The normalized route `n` on line `line_no`: a collision is reported
/// against the line its key was first seen on, a new key is remembered.
pub open spec fn note_route(st: Progress, n: Seq<char>, line_no: nat, label: Seq<char>) -> Progress {
    let key = spec_collision_key(n);
    if st.seen.dom().contains(key) {
        report(st, location(label, line_no, collision_message(st.seen[key])))
    } else {
        Progress {
            text: st.text,
            had_error: st.had_error,
            diagnostics: st.diagnostics,
            seen: st.seen.insert(key, line_no),
        }
    }
}

/// One line of formatting: a route is checked for collisions and written
/// out, a blank or comment line is dropped, an error is reported.
pub open spec fn format_step(st: Progress, line: Seq<char>, line_no: nat, label: Seq<char>) -> Progress {
    match spec_normalize_route(line) {
        Ok(Some(n)) => {
            let st2 = note_route(st, n, line_no, label);
            Progress {
                text: st2.text + n.push('\n'),
                had_error: st2.had_error,
                diagnostics: st2.diagnostics,
                seen: st2.seen,
            }
        },
        Ok(None) => st,
        Err(e) => report(st, location(label, line_no, fault_message(e))),
    }
}

/// Formatting the given lines, numbered from 1.
pub open spec fn format_lines(lines: Seq<Seq<char>>, label: Seq<char>) -> Progress
    decreases lines.len(),
{
    if lines.len() == 0 {
        fresh_progress()
    } else {
        format_step(format_lines(lines.drop_last(), label), lines.last(), lines.len(), label)
    }
}

/// One line of checking: as formatting, but nothing is written, and a
/// route that differs from its line by more than surrounding whitespace is
/// reported as not normalized.
pub open spec fn check_step(st: Progress, line: Seq<char>, line_no: nat) -> Progress {
    match spec_normalize_route(line) {
        Ok(Some(n)) => {
            let st2 = note_route(st, n, line_no, Seq::empty());
            if trim(line) == n {
                st2
            } else {
                report(st2, location(Seq::empty(), line_no, not_normalized_message(n)))
            }
        },
        Ok(None) => st,
        Err(e) => report(st, location(Seq::empty(), line_no, fault_message(e))),
    }
}

/// Checking the given lines, numbered from 1.
pub open spec fn check_lines(lines: Seq<Seq<char>>) -> Progress
    decreases lines.len(),
{
    if lines.len() == 0 {
        fresh_progress()
    } else {
        check_step(check_lines(lines.drop_last()), lines.last(), lines.len())
    }
}

/// What formatting an input produced.
pub struct Formatted {
    /// Every route of the input, normalized, one per line.
    pub text: String,
    /// Whether any line failed to normalize or collided with an earlier one.
    pub had_error: bool,
    /// The diagnostics, in input order.
    pub diagnostics: Vec<String>,
}

/// Normalizes every line of `input`, collecting the rewritten text instead
/// of writing it anywhere.  `label` prefixes diagnostics with a file path;
/// pass "" when there is no single file to point at.
pub fn format_text(input: &str, label: &str) -> (r: Formatted)
    ensures
        r.text@ == format_lines(text_lines(input@), label@).text,
        r.had_error == format_lines(text_lines(input@), label@).had_error,
        string_views(r.diagnostics@) == format_lines(text_lines(input@), label@).diagnostics,
{
    let lines = text_lines_chars(input);
    let ghost ls = views(lines@);
    let mut out = String::new();
    let mut had_error = false;
    let mut seen = CollisionTable::new();
    let mut diagnostics: Vec<String> = Vec::new();
    let n = lines.len();
    assert(ls.take(0) =~= Seq::<Seq<char>>::empty());
    assert(string_views(diagnostics@) =~= Seq::<Seq<char>>::empty());
    for i in 0..n
        invariant
            n == lines@.len(),
            ls == views(lines@),
            ls == text_lines(input@),
            seen.wf(),
            out@ == format_lines(ls.take(i as int), label@).text,
            had_error == format_lines(ls.take(i as int), label@).had_error,
            string_views(diagnostics@) == format_lines(ls.take(i as int), label@).diagnostics,
            seen.seen() == format_lines(ls.take(i as int), label@).seen,
    {
        assert(ls.take(i + 1).drop_last() =~= ls.take(i as int));
        assert(ls.take(i + 1).last() == lines@[i as int]@);
        let line = from_chars(lines[i].as_slice());
        let line_no = i + 1;
        match normalize_route(line.as_str()) {
            Ok(Some(normalized)) => {
                if record_collision(&mut seen, normalized.as_str(), line_no, label, &mut diagnostics) {
                    had_error = true;
                }
                push_str(&mut out, normalized.as_str());
                out.push('\n');
            },
            Ok(None) => {},
            Err(e) => {
                let ghost prev = string_views(diagnostics@);
                let msg = e.message();
                diagnostics.push(format_location(label, line_no, msg.as_str()));
                assert(string_views(diagnostics@) =~= prev.push(
                    location(label@, line_no as nat, fault_message(e@)),
                ));
                had_error = true;
            },
        }
    }
    assert(ls.take(n as int) =~= ls);
    Formatted { text: out, had_error, diagnostics }
}

/// What checking an input found.
pub struct Checked {
    /// Whether any line failed to normalize, collided, or was not normalized.
    pub had_error: bool,
    /// The diagnostics, in input order.
    pub diagnostics: Vec<String>,
}

/// The same checks as formatting, but nothing is rewritten: it reports
/// whether the input is already canonical.
pub fn run_check(input: &str) -> (r: Checked)
    ensures
        r.had_error == check_lines(text_lines(input@)).had_error,
        string_views(r.diagnostics@) == check_lines(text_lines(input@)).diagnostics,
{
    let lines = text_lines_chars(input);
    let ghost ls = views(lines@);
    let mut had_error = false;
    let mut seen = CollisionTable::new();
    let mut diagnostics: Vec<String> = Vec::new();
    let n = lines.len();
    assert(ls.take(0) =~= Seq::<Seq<char>>::empty());
    assert(string_views(diagnostics@) =~= Seq::<Seq<char>>::empty());
    for i in 0..n
        invariant
            n == lines@.len(),
            ls == views(lines@),
            ls == text_lines(input@),
            seen.wf(),
            had_error == check_lines(ls.take(i as int)).had_error,
            string_views(diagnostics@) == check_lines(ls.take(i as int)).diagnostics,
            seen.seen() == check_lines(ls.take(i as int)).seen,
    {
        assert(ls.take(i + 1).drop_last() =~= ls.take(i as int));
        assert(ls.take(i + 1).last() == lines@[i as int]@);
        let line = from_chars(lines[i].as_slice());
        let line_no = i + 1;
        match normalize_route(line.as_str()) {
            Ok(Some(normalized)) => {
                if record_collision(&mut seen, normalized.as_str(), line_no, "", &mut diagnostics) {
                    had_error = true;
                }
                proof {
                    reveal_strlit("");
                }
                if !is_normalized(line.as_str(), normalized.as_str()) {
                    let ghost prev = string_views(diagnostics@);
                    let mut msg = String::new();
                    push_str(&mut msg, "not normalized, expected '");
                    push_str(&mut msg, normalized.as_str());
                    push_str(&mut msg, "'");
                    diagnostics.push(format_location("", line_no, msg.as_str()));
                    assert(string_views(diagnostics@) =~= prev.push(
                        location(Seq::empty(), line_no as nat, not_normalized_message(normalized@)),
                    ));
                    had_error = true;
                }
            },
            Ok(None) => {},
            Err(e) => {
                proof {
                    reveal_strlit("");
                }
                let ghost prev = string_views(diagnostics@);
                let msg = e.message();
                diagnostics.push(format_location("", line_no, msg.as_str()));
                assert(string_views(diagnostics@) =~= prev.push(
                    location(Seq::empty(), line_no as nat, fault_message(e@)),
                ));
                had_error = true;
            },
        }
    }
    assert(ls.take(n as int) =~= ls);
    Checked { had_error, diagnostics }
}


// ---------------------------------------------------------------------
// Files
// ---------------------------------------------------------------------

/// What rewriting one file in place comes to: its formatted contents, and
/// whether the file has to be written, which is only when they differ.
pub struct InPlace {
    pub formatted: Formatted,
    pub rewrite: bool,
}

/// Formats a file's `contents`, labelling diagnostics with `label`, and
/// decides whether the file has to be written back.
pub fn plan_in_place(contents: &str, label: &str) -> (r: InPlace)
    ensures
        r.formatted.text@ == format_lines(text_lines(contents@), label@).text,
        r.formatted.had_error == format_lines(text_lines(contents@), label@).had_error,
        string_views(r.formatted.diagnostics@) == format_lines(text_lines(contents@), label@).diagnostics,
        r.rewrite == (r.formatted.text@ != contents@),
{
    let formatted = format_text(contents, label);
    let rewrite = !str_eq(formatted.text.as_str(), contents);
    InPlace { formatted, rewrite }
}

/// The text of several files read one after another, as if `cat`-ed
/// together: each file's contents follow, ended by a newline when they are
/// non-empty and do not end in one; an empty file adds nothing.
pub open spec fn appended_file(combined: Seq<char>, contents: Seq<char>) -> Seq<char> {
    if contents.len() > 0 && contents.last() != '\n' {
        (combined + contents).push('\n')
    } else {
        combined + contents
    }
}

/// Appends one file's `contents` to the text read so far, ending them with
/// a newline when they are non-empty and do not end in one.
pub fn append_file(combined: &mut String, contents: &str)
    ensures
        final(combined)@ == appended_file(old(combined)@, contents@),
{
    let cc = to_chars(contents);
    let n = cc.len();
    push_str(combined, contents);
    if n > 0 && cc[n - 1] != '\n' {
        combined.push('\n');
    }
}

} // verus!
