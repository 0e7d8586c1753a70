use vstd::prelude::*;
use crate::picker::Match;
use crate::hints::codes_view;
use itertools::Itertools;

verus! {

/// A class of characters that a detector reads runs of.
#[derive(Debug, Clone, Copy, PartialEq, Eq, Structural)]
pub enum Class {
    /// `0` to `9`.
    Digit,
    /// `0` to `9` and `a` to `f`.
    Hex,
    /// Letters and digits of ASCII, and `/ . _ - ~`.
    PathChar,
}

/// `c` belongs to `class`.
pub open spec fn in_class(class: Class, c: char) -> bool {
    match class {
        Class::Digit => '0' <= c <= '9',
        Class::Hex => ('0' <= c <= '9') || ('a' <= c <= 'f'),
        Class::PathChar => ('0' <= c <= '9') || ('a' <= c <= 'z') || ('A' <= c <= 'Z') || c == '/'
            || c == '.' || c == '_' || c == '-' || c == '~',
    }
}

fn is_in_class(class: Class, c: char) -> (r: bool)
    ensures
        r == in_class(class, c),
{
    match class {
        Class::Digit => '0' <= c && c <= '9',
        Class::Hex => ('0' <= c && c <= '9') || ('a' <= c && c <= 'f'),
        Class::PathChar => ('0' <= c && c <= '9') || ('a' <= c && c <= 'z') || ('A' <= c && c
            <= 'Z') || c == '/' || c == '.' || c == '_' || c == '-' || c == '~',
    }
}

/// The length of the longest run of `class` characters of `s` from `i`.
pub open spec fn run(s: Seq<char>, i: int, class: Class) -> nat
    decreases s.len() - i,
{
    if 0 <= i < s.len() && in_class(class, s[i]) {
        1 + run(s, i + 1, class)
    } else {
        0
    }
}

/// A group of one to three digits at `i`, not followed by a fourth: its length, else 0.
pub open spec fn octet(s: Seq<char>, i: int) -> nat {
    let r = run(s, i, Class::Digit);
    if 1 <= r <= 3 {
        r
    } else {
        0
    }
}

/// A dot then a group of digits at `i`: its length, else 0.
pub open spec fn dotted(s: Seq<char>, i: int) -> nat {
    if 0 <= i < s.len() && s[i] == '.' && octet(s, i + 1) > 0 {
        1 + octet(s, i + 1)
    } else {
        0
    }
}

/// An IPv4 address at `i` (four groups of one to three digits joined by
/// dots): its length, else 0.
pub open spec fn ipv4_len(s: Seq<char>, i: int) -> nat {
    let a = octet(s, i);
    let b = dotted(s, i + a);
    let c = dotted(s, i + a + b);
    let d = dotted(s, i + a + b + c);
    if a > 0 && b > 0 && c > 0 && d > 0 {
        a + b + c + d
    } else {
        0
    }
}

/// A hexadecimal hash at `i` (a run of at least seven lowercase hex digits):
/// its length, else 0.
pub open spec fn hash_len(s: Seq<char>, i: int) -> nat {
    let r = run(s, i, Class::Hex);
    if r >= 7 {
        r
    } else {
        0
    }
}

/// A file path at `i` (a run of path characters that starts with `/` or `~/`,
/// at least two long): its length, else 0.
pub open spec fn path_len(s: Seq<char>, i: int) -> nat {
    let r = run(s, i, Class::PathChar);
    if 0 <= i < s.len() && r >= 2 && (s[i] == '/' || (s[i] == '~' && s[i + 1] == '/')) {
        r
    } else {
        0
    }
}

/// The length of the match that starts at `i`, else 0: an IPv4 address
/// before a hash before a path.
pub open spec fn detect(s: Seq<char>, i: int) -> nat {
    if ipv4_len(s, i) > 0 {
        ipv4_len(s, i)
    } else if hash_len(s, i) > 0 {
        hash_len(s, i)
    } else {
        path_len(s, i)
    }
}

/// A run never reaches past the end of the text.
pub proof fn lemma_run_bound(s: Seq<char>, i: int, class: Class)
    requires
        0 <= i,
    ensures
        i + run(s, i, class) <= if i <= s.len() { s.len() as int } else { i },
        i >= s.len() ==> run(s, i, class) == 0,
    decreases s.len() - i,
{
    if 0 <= i < s.len() && in_class(class, s[i]) {
        lemma_run_bound(s, i + 1, class);
    }
}

/// A match never reaches past the end of the text.
pub proof fn lemma_detect_bound(s: Seq<char>, i: int)
    requires
        0 <= i < s.len(),
    ensures
        i + detect(s, i) <= s.len(),
{
    lemma_run_bound(s, i, Class::Digit);
    lemma_run_bound(s, i, Class::Hex);
    lemma_run_bound(s, i, Class::PathChar);
    let a = octet(s, i);
    let b = dotted(s, i + a);
    let c = dotted(s, i + a + b);
    let d = dotted(s, i + a + b + c);
    lemma_run_bound(s, i + a + 1, Class::Digit);
    lemma_run_bound(s, i + a + b + 1, Class::Digit);
    lemma_run_bound(s, i + a + b + c + 1, Class::Digit);
}

/// The matches of `s` from `i` on, as (column, text): leftmost first; where
/// none starts, the scan moves one character on; after a match, it goes on
/// where the match ends.
pub open spec fn scan_from(s: Seq<char>, i: int) -> Seq<(int, Seq<char>)>
    decreases s.len() - i,
{
    if i < 0 || i >= s.len() {
        seq![]
    } else {
        let d = detect(s, i);
        if d > 0 {
            proof {
                lemma_detect_bound(s, i);
            }
            seq![(i, s.subrange(i, i + d))] + scan_from(s, i + d)
        } else {
            scan_from(s, i + 1)
        }
    }
}

fn run_exec(s: &Vec<char>, i: usize, class: Class) -> (r: usize)
    requires
        i <= s@.len(),
    ensures
        r == run(s@, i as int, class),
{
    let mut k: usize = i;
    while k < s.len() && is_in_class(class, s[k])
        invariant
            i <= k <= s@.len(),
            run(s@, i as int, class) == (k - i) + run(s@, k as int, class),
        decreases s@.len() - k,
    {
        k = k + 1;
    }
    k - i
}

proof fn lemma_group_bounds(s: Seq<char>, i: int)
    requires
        0 <= i <= s.len(),
    ensures
        i + octet(s, i) <= s.len(),
        i + dotted(s, i) <= s.len(),
{
    lemma_run_bound(s, i, Class::Digit);
    lemma_run_bound(s, i + 1, Class::Digit);
}

fn octet_exec(s: &Vec<char>, i: usize) -> (r: usize)
    requires
        i <= s@.len(),
    ensures
        r == octet(s@, i as int),
{
    let r = run_exec(s, i, Class::Digit);
    if 1 <= r && r <= 3 {
        r
    } else {
        0
    }
}

fn dotted_exec(s: &Vec<char>, i: usize) -> (r: usize)
    requires
        i <= s@.len(),
    ensures
        r == dotted(s@, i as int),
{
    if i < s.len() && s[i] == '.' {
        let o = octet_exec(s, i + 1);
        if o > 0 {
            proof {
                lemma_group_bounds(s@, i + 1);
            }
            return 1 + o;
        }
    }
    0
}

fn ipv4_exec(s: &Vec<char>, i: usize) -> (r: usize)
    requires
        i <= s@.len(),
    ensures
        r == ipv4_len(s@, i as int),
{
    proof {
        lemma_group_bounds(s@, i as int);
    }
    let n = s.len();
    let a = octet_exec(s, i);
    if a == 0 || i + a >= n {
        return 0;
    }
    proof {
        lemma_group_bounds(s@, i + a);
    }
    let b = dotted_exec(s, i + a);
    if b == 0 {
        return 0;
    }
    proof {
        lemma_group_bounds(s@, i + a + b);
    }
    let c = dotted_exec(s, i + a + b);
    if c == 0 {
        return 0;
    }
    proof {
        lemma_group_bounds(s@, i + a + b + c);
    }
    let d = dotted_exec(s, i + a + b + c);
    if d == 0 {
        return 0;
    }
    a + b + c + d
}

fn detect_exec(s: &Vec<char>, i: usize) -> (r: usize)
    requires
        i < s@.len(),
    ensures
        r == detect(s@, i as int),
{
    let v = ipv4_exec(s, i);
    if v > 0 {
        return v;
    }
    let h = run_exec(s, i, Class::Hex);
    if h >= 7 {
        return h;
    }
    let n = s.len();
    let p = run_exec(s, i, Class::PathChar);
    proof {
        lemma_run_bound(s@, i as int, Class::PathChar);
    }
    if p >= 2 && (s[i] == '/' || (s[i] == '~' && i + 1 < n && s[i + 1] == '/')) {
        return p;
    }
    0
}

fn copy_range(s: &Vec<char>, from: usize, to: usize) -> (r: Vec<char>)
    requires
        from <= to <= s@.len(),
    ensures
        r@ == s@.subrange(from as int, to as int),
{
    let mut r: Vec<char> = Vec::new();
    let mut k: usize = from;
    while k < to
        invariant
            from <= k <= to <= s@.len(),
            r@ == s@.subrange(from as int, k as int),
        decreases to - k,
    {
        r.push(s[k]);
        k = k + 1;
        proof {
            assert(r@ =~= s@.subrange(from as int, k as int));
        }
    }
    r
}

/// The matches on row `row`, in the order `scan_from` gives.
pub open spec fn row_matches(s: Seq<char>, row: int) -> Seq<(int, int, Seq<char>)> {
    scan_from(s, 0).map_values(|m: (int, Seq<char>)| (row, m.0, m.1))
}

/// The matches of all `rows`: row by row, each row from left to right.
pub open spec fn all_matches(rows: Seq<Seq<char>>, k: nat) -> Seq<(int, int, Seq<char>)>
    decreases k,
{
    if k == 0 {
        seq![]
    } else {
        all_matches(rows, (k - 1) as nat) + row_matches(rows[k - 1], k - 1)
    }
}

/// Where a match stands and what it reads.
pub open spec fn located(m: Match) -> (int, int, Seq<char>) {
    (m.line as int, m.column as int, m.text@)
}

/// Appends the matches of row `row`, as `row_matches` lists them, all without a hint.
fn scan_row(s: &Vec<char>, row: usize, out: &mut Vec<Match>)
    ensures
        final(out)@.map_values(|m: Match| located(m)) == old(out)@.map_values(|m: Match| located(m))
            + row_matches(s@, row as int),
        forall|j: int| 0 <= j < old(out)@.len() ==> #[trigger] final(out)@[j] == old(out)@[j],
        forall|j: int| old(out)@.len() <= j < final(out)@.len() ==> (#[trigger] final(out)@[j]).hint is None,
{
    let ghost start = out@;
    let mut i: usize = 0;
    while i < s.len()
        invariant
            i <= s@.len(),
            out@.map_values(|m: Match| located(m)) + scan_from(s@, i as int).map_values(
                |m: (int, Seq<char>)| (row as int, m.0, m.1),
            ) == start.map_values(|m: Match| located(m)) + row_matches(s@, row as int),
            out@.len() >= start.len(),
            forall|j: int| 0 <= j < start.len() ==> #[trigger] out@[j] == start[j],
            forall|j: int| start.len() <= j < out@.len() ==> (#[trigger] out@[j]).hint is None,
        decreases s@.len() - i,
    {
        let d = detect_exec(s, i);
        let ghost before = out@;
        if d > 0 {
            proof {
                lemma_detect_bound(s@, i as int);
            }
            let text = copy_range(s, i, i + d);
            out.push(Match { line: row, column: i, text, hint: None });
            proof {
                let f = |m: Match| located(m);
                let g = |m: (int, Seq<char>)| (row as int, m.0, m.1);
                assert(out@.map_values(f) =~= before.map_values(f).push((row as int, i as int, s@.subrange(i as int, i + d))));
                assert(scan_from(s@, i as int).map_values(g) =~= seq![(row as int, i as int, s@.subrange(i as int, i + d))] + scan_from(s@, i + d).map_values(g));
                assert(out@.map_values(f) + scan_from(s@, i + d).map_values(g) =~= before.map_values(f) + scan_from(s@, i as int).map_values(g));
            }
            i = i + d;
        } else {
            i = i + 1;
        }
    }
    proof {
        let g = |m: (int, Seq<char>)| (row as int, m.0, m.1);
        assert(scan_from(s@, i as int).map_values(g) =~= seq![]);
        assert(out@.map_values(|m: Match| located(m)) + scan_from(s@, i as int).map_values(g) =~= out@.map_values(|m: Match| located(m)));
    }
}

/// The matches of every row, row by row, all without a hint.
pub fn scan_rows(rows: &Vec<Vec<char>>) -> (r: Vec<Match>)
    ensures
        r@.map_values(|m: Match| located(m)) == all_matches(codes_view(rows@), rows@.len()),
        forall|j: int| 0 <= j < r@.len() ==> (#[trigger] r@[j]).hint is None,
{
    let mut out: Vec<Match> = Vec::new();
    let mut k: usize = 0;
    while k < rows.len()
        invariant
            k <= rows@.len(),
            out@.map_values(|m: Match| located(m)) == all_matches(codes_view(rows@), k as nat),
            forall|j: int| 0 <= j < out@.len() ==> (#[trigger] out@[j]).hint is None,
        decreases rows@.len() - k,
    {
        let ghost before = out@;
        scan_row(&rows[k], k, &mut out);
        proof {
            assert(codes_view(rows@)[k as int] == rows@[k as int]@);
            assert forall|j: int| 0 <= j < out@.len() implies (#[trigger] out@[j]).hint is None by {
                if j < before.len() {
                    assert(out@[j] == before[j]);
                }
            }
        }
        k = k + 1;
    }
    out
}

/// `s` cut at each line feed, which is dropped; a text without one is a
/// single line, and a trailing line feed leaves an empty last line.
pub open spec fn split_lines(s: Seq<char>) -> Seq<Seq<char>>
    decreases s.len(),
{
    if s.len() == 0 {
        seq![seq![]]
    } else {
        let p = split_lines(s.drop_last());
        if s.last() == '\n' {
            p.push(seq![])
        } else {
            p.update(p.len() - 1, p.last().push(s.last()))
        }
    }
}

proof fn lemma_split_lines_nonempty(s: Seq<char>)
    ensures
        split_lines(s).len() >= 1,
    decreases s.len(),
{
    if s.len() > 0 {
        lemma_split_lines_nonempty(s.drop_last());
    }
}

/// The characters of `s`.
fn chars_of(s: &str) -> (r: Vec<char>)
    ensures
        r@ == s@,
{
    let n = s.unicode_len();
    let mut r: Vec<char> = Vec::new();
    let mut i: usize = 0;
    while i < n
        invariant
            n == s@.len(),
            i <= n,
            r@ == s@.take(i as int),
        decreases n - i,
    {
        r.push(s.get_char(i));
        i = i + 1;
        proof {
            assert(r@ =~= s@.take(i as int));
        }
    }
    proof {
        assert(r@ =~= s@);
    }
    r
}

/// The `i`-th piece of `s` cut into pieces of `size` characters.
pub open spec fn piece(s: Seq<char>, size: nat, i: int) -> Seq<char> {
    let end = if (i + 1) * size <= s.len() {
        (i + 1) * size
    } else {
        s.len() as int
    };
    s.subrange(i * size, end)
}

/// How many pieces of `size` characters `s` is cut into, the last one possibly shorter.
pub open spec fn piece_count(s: Seq<char>, size: nat) -> nat {
    ((s.len() + size - 1) / size as int) as nat
}

/// Relies on itertools' `chunks` over `str::chars`: consecutive pieces of
/// `size` characters, the last one shorter when they do not divide evenly,
/// none for an empty text; it panics on a size of zero.
#[verifier::external_body]
fn chunk_chars(source: &str, size: usize) -> (r: Vec<String>)
    requires
        size > 0,
    ensures
        r@.len() == piece_count(source@, size as nat),
        forall|i: int| 0 <= i < r@.len() ==> (#[trigger] r@[i])@ == piece(source@, size as nat, i),
{
    source.chars().chunks(size).into_iter().map(|chunk| chunk.collect::<String>()).collect::<Vec<_>>()
}

/// `source` cut into pieces of `sub_size` characters, the last one shorter
/// when they do not divide evenly.
pub fn sub_strings(source: &str, sub_size: usize) -> (r: Vec<String>)
    requires
        sub_size > 0,
    ensures
        r@.len() == piece_count(source@, sub_size as nat),
        forall|i: int| 0 <= i < r@.len() ==> (#[trigger] r@[i])@ == piece(source@, sub_size as nat, i),
{
    chunk_chars(source, sub_size)
}

/// The pieces of `s` of `size` characters, in order.
pub open spec fn pieces_of(s: Seq<char>, size: nat) -> Seq<Seq<char>> {
    Seq::new(piece_count(s, size), |i: int| piece(s, size, i))
}

/// The screen rows of one line: its pieces of `width` characters, or a
/// single empty row for an empty line.
pub open spec fn line_rows(line: Seq<char>, width: nat) -> Seq<Seq<char>> {
    if line.len() == 0 {
        seq![seq![]]
    } else {
        pieces_of(line, width)
    }
}

/// The screen rows of `lines`, line after line.
pub open spec fn screen_rows(lines: Seq<Seq<char>>, width: nat) -> Seq<Seq<char>>
    decreases lines.len(),
{
    if lines.len() == 0 {
        seq![]
    } else {
        screen_rows(lines.drop_last(), width) + line_rows(lines.last(), width)
    }
}

/// The text of each string.
pub open spec fn strings_view(v: Seq<String>) -> Seq<Seq<char>> {
    v.map_values(|s: String| s@)
}

/// Appends the screen rows of `line` to `out`.
fn push_rows(line: &str, width: usize, out: &mut Vec<Vec<char>>)
    requires
        width > 0,
    ensures
        codes_view(final(out)@) == codes_view(old(out)@) + line_rows(line@, width as nat),
{
    let ghost start = codes_view(out@);
    if line.unicode_len() == 0 {
        let ghost before = out@;
        let empty: Vec<char> = Vec::new();
        out.push(empty);
        proof {
            crate::hints::lemma_codes_view_push(before, empty);
            assert(codes_view(out@) =~= start + line_rows(line@, width as nat));
        }
        return;
    }
    let pieces = sub_strings(line, width);
    let mut k: usize = 0;
    while k < pieces.len()
        invariant
            width > 0,
            k <= pieces@.len(),
            strings_view(pieces@) == pieces_of(line@, width as nat),
            codes_view(out@) == start + strings_view(pieces@).take(k as int),
        decreases pieces@.len() - k,
    {
        let chars = chars_of(pieces[k].as_str());
        let ghost before = out@;
        out.push(chars);
        proof {
            crate::hints::lemma_codes_view_push(before, chars);
            assert(strings_view(pieces@)[k as int] == chars@);
            assert(codes_view(out@) =~= start + strings_view(pieces@).take(k + 1));
        }
        k = k + 1;
    }
    proof {
        assert(strings_view(pieces@).take(k as int) =~= strings_view(pieces@));
    }
}

/// The logical rows of a captured text: cut at its line feeds, each line then
/// cut into pieces of the display width (an empty line is one empty row).
pub fn wrap_lines(text: &str, width: usize) -> (r: Vec<Vec<char>>)
    requires
        width > 0,
    ensures
        codes_view(r@) == screen_rows(split_lines(text@), width as nat),
{
    let chars = chars_of(text);
    let mut out: Vec<Vec<char>> = Vec::new();
    let ghost mut done: Seq<Seq<char>> = seq![];
    let mut start: usize = 0;
    let mut i: usize = 0;
    proof {
        assert(text@.take(0) =~= seq![]);
        assert(text@.subrange(0, 0) =~= seq![]);
    }
    while i < chars.len()
        invariant
            width > 0,
            chars@ == text@,
            start <= i <= text@.len(),
            split_lines(text@.take(i as int)) == done.push(text@.subrange(start as int, i as int)),
            codes_view(out@) == screen_rows(done, width as nat),
        decreases text@.len() - i,
    {
        let ghost prev = split_lines(text@.take(i as int));
        proof {
            assert(text@.take(i + 1).drop_last() =~= text@.take(i as int));
            lemma_split_lines_nonempty(text@.take(i as int));
        }
        if chars[i] == '\n' {
            let line = text.substring_char(start, i);
            push_rows(line, width, &mut out);
            proof {
                let l = text@.subrange(start as int, i as int);
                assert(done.push(l).drop_last() =~= done);
                done = done.push(l);
                assert(split_lines(text@.take(i + 1)) =~= prev.push(seq![]));
                assert(text@.subrange(i + 1, i + 1) =~= seq![]);
                assert(prev.push(seq![]) =~= done.push(text@.subrange(i + 1, i + 1)));
            }
            start = i + 1;
        } else {
            proof {
                assert(text@.subrange(start as int, i + 1) =~= text@.subrange(start as int, i as int).push(
                    text@[i as int],
                ));
                assert(split_lines(text@.take(i + 1)) =~= done.push(text@.subrange(start as int, i + 1)));
            }
        }
        i = i + 1;
    }
    let line = text.substring_char(start, i);
    push_rows(line, width, &mut out);
    proof {
        let l = text@.subrange(start as int, i as int);
        assert(text@.take(i as int) =~= text@);
        assert(done.push(l).drop_last() =~= done);
    }
    out
}

} // verus!
