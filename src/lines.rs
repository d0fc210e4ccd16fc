//! The line structure, columns and graphemes of UTF-8 text, as spec functions
//! over its bytes, with the facts about them that the coordinate code needs.

use vstd::prelude::*;
use vstd::utf8::*;

use crate::rope::prev_grapheme_of;

verus! {

broadcast use vstd::seq::group_seq_axioms;

/// Number of `\n` bytes among the first `n` bytes.
pub open spec fn newlines_before(b: Seq<u8>, n: int) -> nat
    decreases n,
{
    if n <= 0 || n > b.len() {
        0
    } else {
        newlines_before(b, n - 1) + if b[n - 1] == 10 {
            1nat
        } else {
            0nat
        }
    }
}

/// The offset just past the first `\n` at or after `i`, or the length.
pub open spec fn next_line_start(b: Seq<u8>, i: int) -> int
    decreases b.len() - i,
{
    if i >= b.len() {
        b.len() as int
    } else if b[i] == 10 {
        i + 1
    } else {
        next_line_start(b, i + 1)
    }
}

/// Start offset of line `line`: just past its `line`-th newline.
pub open spec fn line_start(b: Seq<u8>, line: nat) -> nat
    decreases line,
{
    if line == 0 {
        0
    } else {
        let p = line_start(b, (line - 1) as nat) as int;
        if p < 0 { 0 } else { next_line_start(b, p) as nat }
    }
}

/// The number of the last line.
pub open spec fn last_line_of(b: Seq<u8>) -> nat {
    newlines_before(b, b.len() as int)
}

/// Start offset of `line`, lines past the last but one clamped to one past it.
pub open spec fn line_offset(b: Seq<u8>, line: nat) -> nat {
    if line <= last_line_of(b) + 1 {
        line_start(b, line)
    } else {
        line_start(b, last_line_of(b) + 1)
    }
}

/// `offset` clamped to the length.
pub open spec fn clamp(b: Seq<u8>, offset: int) -> int {
    if offset <= b.len() {
        offset
    } else {
        b.len() as int
    }
}

/// The end of a line's text `[s, e)` once a trailing `\r\n` or `\n` is taken off.
pub open spec fn trimmed_end(b: Seq<u8>, s: int, e: int) -> int {
    if e - s >= 2 && b[e - 2] == 13 && b[e - 1] == 10 {
        e - 2
    } else if e - s >= 1 && b[e - 1] == 10 {
        e - 1
    } else {
        e
    }
}

/// Up to `count` steps back over grapheme clusters from `offset`, stopping
/// before a step that would land below `limit` or when none is left.
pub open spec fn grapheme_steps(b: Seq<u8>, offset: usize, count: nat, limit: usize) -> usize
    decreases count,
{
    if count == 0 {
        offset
    } else {
        match prev_grapheme_of(b, offset) {
            None => offset,
            Some(p) => if p < limit {
                offset
            } else {
                grapheme_steps(b, p, (count - 1) as nat, limit)
            },
        }
    }
}

/// End of `line`: after its last character when `caret`, else before it.
pub open spec fn line_end(b: Seq<u8>, line: nat, caret: bool) -> int {
    let s = line_offset(b, line) as int;
    let t = trimmed_end(b, s, line_offset(b, line + 1) as int);
    if !caret && t > s {
        grapheme_steps(b, t as usize, 1, 0) as int
    } else {
        t
    }
}

/// Length in bytes of the last grapheme cluster of `line`, its terminator
/// left out; zero for an empty line.
pub open spec fn last_grapheme_len(b: Seq<u8>, line: nat) -> int {
    let s = line_offset(b, line) as int;
    let t = trimmed_end(b, s, line_offset(b, line + 1) as int);
    if t > s {
        match prev_grapheme_of(b, t as usize) {
            Some(p) => t - p,
            None => 0,
        }
    } else {
        0
    }
}

/// A blank byte: a control character or space, line terminators excepted.
pub open spec fn is_blank(x: u8) -> bool {
    x <= 0x20 && x != 10 && x != 13
}

/// The first offset at or after `i` whose byte is not blank, or the length.
pub open spec fn first_non_blank_from(b: Seq<u8>, i: int) -> int
    decreases b.len() - i,
{
    if i >= b.len() || i < 0 {
        b.len() as int
    } else if is_blank(b[i]) {
        first_non_blank_from(b, i + 1)
    } else {
        i
    }
}

/// Width in bytes of the character whose encoding starts with `x`.
pub open spec fn lead_width(x: u8) -> int {
    if x <= 0x7f {
        1
    } else if 0xc0 <= x <= 0xdf {
        2
    } else if 0xe0 <= x <= 0xef {
        3
    } else {
        4
    }
}

/// Width in UTF-16 code units of the character whose encoding starts with `x`.
pub open spec fn lead_units(x: u8) -> int {
    if lead_width(x) == 4 {
        2
    } else {
        1
    }
}

/// Byte offset reached by walking the characters of `c` while they fit in
/// `col` bytes, stopping at a newline.
pub open spec fn col_walk(c: Seq<u8>, col: int) -> int
    decreases c.len(),
{
    if c.len() == 0 || c[0] == 10 || lead_width(c[0]) > col || lead_width(c[0]) > c.len() {
        0
    } else {
        lead_width(c[0]) + col_walk(c.subrange(lead_width(c[0]), c.len() as int), col - lead_width(c[0]))
    }
}

/// UTF-16 code units of the characters of `c` that start before byte `col`.
pub open spec fn units_before(c: Seq<u8>, col: int) -> int
    decreases c.len(),
{
    if c.len() == 0 || col <= 0 || lead_width(c[0]) > c.len() {
        0
    } else {
        lead_units(c[0]) + units_before(c.subrange(lead_width(c[0]), c.len() as int), col - lead_width(c[0]))
    }
}

/// Byte offset of the first character of `c` at which `units` UTF-16 code
/// units have been passed, or the length.
pub open spec fn bytes_for_units(c: Seq<u8>, units: int) -> int
    decreases c.len(),
{
    if c.len() == 0 || units <= 0 || lead_width(c[0]) > c.len() {
        0
    } else {
        lead_width(c[0]) + bytes_for_units(c.subrange(lead_width(c[0]), c.len() as int), units - lead_units(c[0]))
    }
}

pub proof fn lemma_newlines_le(b: Seq<u8>, n: int)
    ensures
        newlines_before(b, n) <= if n < 0 { 0 } else { n },
    decreases n,
{
    if n > 0 && n <= b.len() {
        lemma_newlines_le(b, n - 1);
    }
}

pub proof fn lemma_next_line_start_bounds(b: Seq<u8>, i: int)
    requires
        0 <= i <= b.len(),
    ensures
        i <= next_line_start(b, i) <= b.len(),
        i < b.len() ==> i < next_line_start(b, i),
        next_line_start(b, i) == b.len() || (i < next_line_start(b, i) && b[next_line_start(b, i) - 1] == 10),
    decreases b.len() - i,
{
    if i < b.len() && b[i] != 10 {
        lemma_next_line_start_bounds(b, i + 1);
    }
}

pub proof fn lemma_line_start_bounds(b: Seq<u8>, line: nat)
    ensures
        line_start(b, line) <= b.len(),
        line > 0 ==> line_start(b, (line - 1) as nat) <= line_start(b, line),
        line_start(b, line) == 0 || line_start(b, line) == b.len() || b[line_start(b, line) - 1] == 10,
    decreases line,
{
    if line > 0 {
        lemma_line_start_bounds(b, (line - 1) as nat);
        lemma_next_line_start_bounds(b, line_start(b, (line - 1) as nat) as int);
    }
}

pub proof fn lemma_line_offset_mono(b: Seq<u8>, line: nat)
    ensures
        line_offset(b, line) <= line_offset(b, line + 1) <= b.len(),
{
    lemma_line_start_bounds(b, line);
    lemma_line_start_bounds(b, line + 1);
    lemma_line_start_bounds(b, last_line_of(b) + 1);
}

/// In valid UTF-8 the offset after an ASCII byte is a character boundary.
pub proof fn lemma_ascii_next_boundary(b: Seq<u8>, j: int)
    requires
        valid_utf8(b),
        0 <= j < b.len(),
        b[j] <= 0x7f,
    ensures
        is_char_boundary(b, j + 1),
{
    broadcast use is_char_boundary_start_end_of_seq, is_char_boundary_iff_not_is_continuation_byte;

    assert(!is_continuation_byte(b[j]));
    assert(is_char_boundary(b, j));
    if j + 1 < b.len() {
        vstd::utf8::valid_utf8_split(b, j);
        let s = b.subrange(j, b.len() as int);
        assert(pop_first_scalar(s) =~= b.subrange(j + 1, b.len() as int));
        let t = b.subrange(j + 1, b.len() as int);
        assert(valid_utf8(t));
        assert(valid_first_scalar(t));
        assert(t[0] == b[j + 1]);
        assert(!is_continuation_byte(b[j + 1]));
    }
}

/// Every line start up to one past the last line is a character boundary.
pub proof fn lemma_line_start_boundary(b: Seq<u8>, line: nat)
    requires
        valid_utf8(b),
    ensures
        is_char_boundary(b, line_start(b, line) as int),
{
    broadcast use is_char_boundary_start_end_of_seq;

    lemma_line_start_bounds(b, line);
    let p = line_start(b, line) as int;
    if p != 0 && p != b.len() {
        lemma_ascii_next_boundary(b, p - 1);
    }
}

pub proof fn lemma_line_offset_boundary(b: Seq<u8>, line: nat)
    requires
        valid_utf8(b),
    ensures
        is_char_boundary(b, line_offset(b, line) as int),
{
    lemma_line_start_boundary(b, line);
    lemma_line_start_boundary(b, last_line_of(b) + 1);
}

/// No newline lies between a codepoint boundary and the next boundary after it
/// but one, so snapping back to a boundary keeps the line.
pub proof fn lemma_snap_keeps_newlines(b: Seq<u8>, p: int, o: int)
    requires
        valid_utf8(b),
        0 <= p <= o <= b.len(),
        forall|i: int| p < i <= o ==> !is_char_boundary(b, i),
    ensures
        newlines_before(b, p) == newlines_before(b, o),
    decreases o - p,
{
    broadcast use is_char_boundary_iff_not_is_continuation_byte;

    if p < o {
        lemma_snap_keeps_newlines(b, p, o - 1);
        if b[o - 1] == 10 {
            lemma_ascii_next_boundary(b, o - 1);
        }
    }
}

pub proof fn lemma_newlines_mono(b: Seq<u8>, m: int, n: int)
    requires
        0 <= m <= n <= b.len(),
    ensures
        newlines_before(b, m) <= newlines_before(b, n),
    decreases n - m,
{
    if m < n {
        lemma_newlines_mono(b, m, n - 1);
    }
}

/// The line start after `p` lies one newline further on, unless it is the end.
pub proof fn lemma_next_line_start_count(b: Seq<u8>, p: int)
    requires
        0 <= p < b.len(),
    ensures
        next_line_start(b, p) == b.len() || newlines_before(b, next_line_start(b, p)) == newlines_before(b, p) + 1,
    decreases b.len() - p,
{
    assert(newlines_before(b, p + 1) == newlines_before(b, p) + if b[p] == 10 {
        1nat
    } else {
        0nat
    });
    if b[p] != 10 {
        assert(next_line_start(b, p) == next_line_start(b, p + 1));
        if p + 1 < b.len() {
            lemma_next_line_start_count(b, p + 1);
        }
    }
}

/// Line `k` starts after exactly `k` newlines, unless it starts at the end.
pub proof fn lemma_line_start_count(b: Seq<u8>, k: nat)
    ensures
        line_start(b, k) == b.len() || newlines_before(b, line_start(b, k) as int) == k,
    decreases k,
{
    if k > 0 {
        lemma_line_start_count(b, (k - 1) as nat);
        lemma_line_start_bounds(b, (k - 1) as nat);
        let p = line_start(b, (k - 1) as nat) as int;
        if p < b.len() {
            lemma_next_line_start_count(b, p);
        }
    }
}

/// One past the last line starts at the end.
pub proof fn lemma_past_last_line(b: Seq<u8>)
    ensures
        line_start(b, last_line_of(b) + 1) == b.len(),
{
    let k = last_line_of(b) + 1;
    lemma_line_start_count(b, k);
    lemma_line_start_bounds(b, k);
    let q = line_start(b, k) as int;
    if q < b.len() {
        lemma_newlines_mono(b, q, b.len() as int);
    }
}

pub proof fn lemma_next_line_start_le(b: Seq<u8>, x: int, j: int)
    requires
        0 <= x <= j < b.len(),
        b[j] == 10,
    ensures
        next_line_start(b, x) <= j + 1,
    decreases j - x,
{
    if x < j && b[x] != 10 {
        lemma_next_line_start_le(b, x + 1, j);
    }
}

/// The line that holds `o` starts at or before it.
pub proof fn lemma_line_of_offset_start(b: Seq<u8>, o: int)
    requires
        0 <= o <= b.len(),
    ensures
        line_start(b, newlines_before(b, o)) <= o,
        newlines_before(b, o) <= last_line_of(b),
        line_offset(b, newlines_before(b, o)) == line_start(b, newlines_before(b, o)),
    decreases o,
{
    lemma_newlines_mono(b, o, b.len() as int);
    if o > 0 {
        lemma_line_of_offset_start(b, o - 1);
        let k = newlines_before(b, o - 1);
        if b[o - 1] == 10 {
            lemma_line_start_bounds(b, k);
            lemma_next_line_start_le(b, line_start(b, k) as int, o - 1);
            lemma_next_line_start_bounds(b, line_start(b, k) as int);
            assert(newlines_before(b, o) == k + 1);
            assert(line_start(b, (k + 1) as nat) == next_line_start(b, line_start(b, k) as int));
        } else {
            assert(newlines_before(b, o) == k);
        }
    }
}

/// Line number of offset `o`, clamped to the length.
pub open spec fn line_of(b: Seq<u8>, o: int) -> nat {
    newlines_before(b, clamp(b, o))
}

/// Byte column of offset `o`, clamped to the length, within its line.
pub open spec fn col_of(b: Seq<u8>, o: int) -> int {
    clamp(b, o) - line_offset(b, line_of(b, o))
}

/// The bytes of `line`, its terminator included.
pub open spec fn line_text(b: Seq<u8>, line: nat) -> Seq<u8> {
    b.subrange(line_offset(b, line) as int, line_offset(b, line + 1) as int)
}

/// The bytes from the start of `line` to the end of the text.
pub open spec fn rest_from_line(b: Seq<u8>, line: nat) -> Seq<u8> {
    b.subrange(line_offset(b, line) as int, b.len() as int)
}

/// A step over one character of valid UTF-8 stays inside the text and
/// leaves valid UTF-8 behind.
pub proof fn lemma_walk_step(c: Seq<u8>, i: int)
    requires
        0 <= i < c.len(),
        valid_utf8(c.subrange(i, c.len() as int)),
    ensures
        i + lead_width(c[i]) <= c.len(),
        valid_utf8(c.subrange(i + lead_width(c[i]), c.len() as int)),
        c.subrange(i, c.len() as int).subrange(lead_width(c[i]), c.len() - i) =~= c.subrange(
            i + lead_width(c[i]),
            c.len() as int,
        ),
{
    let sub = c.subrange(i, c.len() as int);
    assert(sub[0] == c[i]);
    assert(valid_first_scalar(sub));
    assert(length_of_first_scalar(sub) == lead_width(c[i]));
    assert(pop_first_scalar(sub) =~= c.subrange(i + lead_width(c[i]), c.len() as int));
}

/// A character boundary at or after a boundary `s` is one of the text from `s`.
pub proof fn lemma_boundary_in_suffix(b: Seq<u8>, s: int, x: int)
    requires
        valid_utf8(b),
        0 <= s <= x <= b.len(),
        is_char_boundary(b, s),
        is_char_boundary(b, x),
    ensures
        valid_utf8(b.subrange(s, b.len() as int)),
        is_char_boundary(b.subrange(s, b.len() as int), x - s),
{
    broadcast use is_char_boundary_start_end_of_seq, is_char_boundary_iff_not_is_continuation_byte;

    vstd::utf8::valid_utf8_split(b, s);
    let r = b.subrange(s, b.len() as int);
    if x < b.len() {
        assert(r[x - s] == b[x]);
        is_char_boundary_iff_not_is_continuation_byte(b, x);
        is_char_boundary_iff_not_is_continuation_byte(r, x - s);
    } else {
        is_char_boundary_start_end_of_seq(r);
    }
}

/// A character boundary up to a boundary `y` is one of the text up to `y`.
pub proof fn lemma_boundary_in_prefix(c: Seq<u8>, y: int, x: int)
    requires
        valid_utf8(c),
        0 <= x <= y <= c.len(),
        is_char_boundary(c, y),
        is_char_boundary(c, x),
    ensures
        valid_utf8(c.subrange(0, y)),
        is_char_boundary(c.subrange(0, y), x),
{
    broadcast use is_char_boundary_start_end_of_seq, is_char_boundary_iff_not_is_continuation_byte;

    vstd::utf8::valid_utf8_split(c, y);
    let p = c.subrange(0, y);
    if x < y {
        assert(p[x] == c[x]);
        is_char_boundary_iff_not_is_continuation_byte(c, x);
        is_char_boundary_iff_not_is_continuation_byte(p, x);
    } else {
        is_char_boundary_start_end_of_seq(p);
    }
}

/// Counting the UTF-16 units before a character boundary and walking that
/// many units forward lands on the boundary again.
pub proof fn lemma_units_round_trip(c: Seq<u8>, col: int)
    requires
        valid_utf8(c),
        0 <= col <= c.len(),
        is_char_boundary(c, col),
    ensures
        bytes_for_units(c, units_before(c, col)) == col,
        0 <= units_before(c, col) <= col,
    decreases c.len(),
{
    if col > 0 {
        let w = lead_width(c[0]);
        assert(valid_first_scalar(c));
        assert(length_of_first_scalar(c) == w);
        let rest = c.subrange(w, c.len() as int);
        assert(pop_first_scalar(c) =~= rest);
        assert(is_char_boundary(rest, col - w));
        lemma_units_round_trip(rest, col - w);
        assert(w <= c.len());
        let u = units_before(c, col);
        assert(u == lead_units(c[0]) + units_before(rest, col - w));
        assert(bytes_for_units(c, u) == w + bytes_for_units(rest, u - lead_units(c[0])));
    }
}

/// Walking the characters of a line up to a boundary before its newline
/// reaches that boundary.
pub proof fn lemma_col_walk_reaches(c: Seq<u8>, col: int)
    requires
        valid_utf8(c),
        0 <= col <= c.len(),
        is_char_boundary(c, col),
        forall|j: int| 0 <= j < col ==> c[j] != 10,
    ensures
        col_walk(c, col) == col,
    decreases c.len(),
{
    if col > 0 {
        let w = lead_width(c[0]);
        assert(valid_first_scalar(c));
        assert(length_of_first_scalar(c) == w);
        let rest = c.subrange(w, c.len() as int);
        assert(pop_first_scalar(c) =~= rest);
        assert(is_char_boundary(rest, col - w));
        assert forall|j: int| 0 <= j < col - w implies rest[j] != 10 by {
            assert(rest[j] == c[j + w]);
        }
        lemma_col_walk_reaches(rest, col - w);
        assert(w <= c.len());
        assert(col_walk(c, col) == w + col_walk(rest, col - w));
    }
}

pub proof fn lemma_next_line_start_ge(b: Seq<u8>, x: int, o: int)
    requires
        0 <= x <= o <= b.len(),
        forall|j: int| x <= j < o ==> b[j] != 10,
    ensures
        next_line_start(b, x) >= o,
    decreases o - x,
{
    lemma_next_line_start_bounds(b, x);
    if x < o {
        lemma_next_line_start_ge(b, x + 1, o);
    }
}

/// No newline lies between the start of the line of `o` and `o`, and the
/// line runs at least to `o`.
pub proof fn lemma_offset_within_line(b: Seq<u8>, o: int)
    requires
        0 <= o <= b.len(),
    ensures
        forall|j: int| line_offset(b, newlines_before(b, o)) <= j < o ==> b[j] != 10,
        o <= line_offset(b, newlines_before(b, o) + 1),
{
    let l = newlines_before(b, o);
    lemma_line_of_offset_start(b, o);
    lemma_line_start_count(b, l);
    lemma_line_start_bounds(b, l);
    let s = line_start(b, l) as int;
    assert forall|j: int| s <= j < o implies b[j] != 10 by {
        if b[j] == 10 {
            lemma_newlines_mono(b, s, j);
            lemma_newlines_mono(b, j + 1, o);
            assert(newlines_before(b, j + 1) == newlines_before(b, j) + 1);
        }
    }
    lemma_next_line_start_ge(b, s, o);
    assert(line_start(b, l + 1) == next_line_start(b, s));
    lemma_past_last_line(b);
}

/// A line ends at the end of the text or just after a newline of its own.
pub proof fn lemma_line_ends(b: Seq<u8>, line: nat)
    ensures
        line_offset(b, line + 1) == b.len() || (line_offset(b, line) < line_offset(b, line + 1)
            && b[line_offset(b, line + 1) - 1] == 10),
{
    lemma_past_last_line(b);
    if line <= last_line_of(b) {
        lemma_line_start_bounds(b, line);
        lemma_next_line_start_bounds(b, line_start(b, line) as int);
        assert(line_start(b, line + 1) == next_line_start(b, line_start(b, line) as int));
    }
}

/// Scanning blanks from a character boundary ends on one.
pub proof fn lemma_first_non_blank_boundary(b: Seq<u8>, i: int)
    requires
        valid_utf8(b),
        0 <= i <= b.len(),
        is_char_boundary(b, i),
    ensures
        i <= first_non_blank_from(b, i) <= b.len(),
        is_char_boundary(b, first_non_blank_from(b, i)),
    decreases b.len() - i,
{
    broadcast use is_char_boundary_start_end_of_seq;

    if i < b.len() && is_blank(b[i]) {
        lemma_ascii_next_boundary(b, i);
        lemma_first_non_blank_boundary(b, i + 1);
    }
}

} // verus!
