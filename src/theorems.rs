//! Facts that relate several operations, proved over the same spec functions
//! that the operations' contracts use.

use vstd::prelude::*;
use vstd::utf8::*;

use crate::char_indices::{char_indices_of, chunk_indices, flat, joined, lemma_flat_chunk_len, lemma_join_chunks};
use crate::lines::{
    bytes_for_units, clamp, col_of, col_walk, grapheme_steps, last_grapheme_len, last_line_of,
    lemma_boundary_in_prefix, lemma_boundary_in_suffix, lemma_col_walk_reaches, lemma_line_of_offset_start,
    lemma_line_offset_boundary, lemma_line_offset_mono, lemma_newlines_le, lemma_offset_within_line,
    lemma_past_last_line, lemma_units_round_trip, line_end, line_of, line_offset, line_text, newlines_before,
    rest_from_line, trimmed_end, units_before,
};
use crate::rope::prev_grapheme_of;
use crate::rope_text::RopeText;

verus! {

broadcast use vstd::seq::group_seq_axioms;

/// The texts of lines `0 .. n`, one after the other.
pub open spec fn lines_joined(b: Seq<u8>, n: nat) -> Seq<u8>
    decreases n,
{
    if n == 0 {
        seq![]
    } else {
        lines_joined(b, (n - 1) as nat) + line_text(b, (n - 1) as nat)
    }
}

/// In an empty document every line starts at 0, and ends there with either
/// caret.
pub proof fn empty_document_lines(b: Seq<u8>, line: nat, caret: bool)
    requires
        b.len() == 0,
    ensures
        line_offset(b, line) == 0,
        line_end(b, line, caret) == 0,
{
    lemma_line_offset_mono(b, line);
}

/// The contents of lines `0` to the last, put together, give back the
/// whole document.
pub proof fn lines_rebuild_document(b: Seq<u8>)
    ensures
        lines_joined(b, last_line_of(b) + 1) == b,
{
    lemma_lines_joined_prefix(b, last_line_of(b) + 1);
    lemma_past_last_line(b);
    assert(b.subrange(0, b.len() as int) =~= b);
}

proof fn lemma_lines_joined_prefix(b: Seq<u8>, n: nat)
    ensures
        lines_joined(b, n) =~= b.subrange(0, line_offset(b, n) as int),
    decreases n,
{
    if n > 0 {
        lemma_lines_joined_prefix(b, (n - 1) as nat);
        lemma_line_offset_mono(b, (n - 1) as nat);
    }
}

/// The end of a line with the caret after its last character lies past the
/// end with the caret before it by the length of the last grapheme cluster,
/// and by nothing on an empty line.
pub proof fn caret_gap_is_last_grapheme(b: Seq<u8>, line: nat)
    requires
        b.len() <= usize::MAX,
    ensures
        line_end(b, line, true) - line_end(b, line, false) == last_grapheme_len(b, line),
        trimmed_end(b, line_offset(b, line) as int, line_offset(b, line + 1) as int) == line_offset(b, line)
            ==> line_end(b, line, true) == line_end(b, line, false),
{
    let s = line_offset(b, line) as int;
    let t = trimmed_end(b, s, line_offset(b, line + 1) as int);
    lemma_line_offset_mono(b, line);
    if t > s {
        match prev_grapheme_of(b, t as usize) {
            Some(p) => {
                assert(grapheme_steps(b, p, 0, 0) == p);
                assert(grapheme_steps(b, t as usize, 1, 0) == p);
            },
            None => {
                assert(grapheme_steps(b, t as usize, 1, 0) == t as usize);
            },
        }
    }
}

/// Stepping back over no grapheme cluster leaves the (clamped) offset as it
/// is, whatever the limit.
pub proof fn zero_grapheme_steps(b: Seq<u8>, offset: usize, limit: usize)
    ensures
        grapheme_steps(b, clamp(b, offset as int) as usize, 0, limit) == clamp(b, offset as int),
        offset <= b.len() ==> grapheme_steps(b, clamp(b, offset as int) as usize, 0, limit) == offset,
{
}

/// Stepping back over `n` grapheme clusters and then over `m` more lands
/// where stepping back over `n + m` at once does.
pub proof fn grapheme_steps_compose(b: Seq<u8>, offset: usize, n: nat, m: nat, limit: usize)
    ensures
        grapheme_steps(b, grapheme_steps(b, offset, n, limit), m, limit) == grapheme_steps(b, offset, n + m, limit),
    decreases n,
{
    if n > 0 {
        match prev_grapheme_of(b, offset) {
            Some(p) => {
                if p >= limit {
                    grapheme_steps_compose(b, p, (n - 1) as nat, m, limit);
                    assert((n - 1) as nat + m == (n + m - 1) as nat);
                }
            },
            None => {},
        }
    }
}

/// Joining the char indices of the pieces of a text yields the char indices
/// of the text itself, however it is cut into pieces. The offsets are `usize`
/// values, so the text's encoding must fit that range.
pub proof fn join_ignores_chunking(chunks: Seq<Seq<char>>)
    requires
        encode_utf8(flat(chunks)).len() <= usize::MAX,
    ensures
        joined(chunk_indices(chunks), 0) == char_indices_of(flat(chunks)),
{
    assert forall|k: int| 0 <= k < chunks.len() implies encode_utf8(#[trigger] chunks[k]).len() <= usize::MAX by {
        lemma_flat_chunk_len(chunks, k);
    }
    lemma_join_chunks(chunks, 0);
    assert(joined(chunk_indices(chunks), 0) =~= char_indices_of(flat(chunks)));
}

/// Converting a character boundary of the text to a protocol position and
/// back gives the same offset, surrogate pairs included, as long as its line
/// and UTF-16 column fit the position's 32-bit fields.
pub proof fn position_round_trip(t: RopeText, o: usize)
    requires
        o <= t.bytes().len(),
        line_of(t.bytes(), o as int) <= u32::MAX,
        units_before(rest_from_line(t.bytes(), line_of(t.bytes(), o as int)), col_of(t.bytes(), o as int))
            <= u32::MAX,
        is_char_boundary(t.bytes(), o as int),
    ensures
        ({
            let b = t.bytes();
            let line = (line_of(b, o as int) as u32) as nat;
            let character = (units_before(rest_from_line(b, line_of(b, o as int)), col_of(b, o as int)) as u32) as int;
            line_offset(b, line) + col_walk(line_text(b, line), bytes_for_units(rest_from_line(b, line), character))
                == o
        }),
{
    let b = t.bytes();
    t.lemma_valid();
    let o = o as int;
    let l = newlines_before(b, o);
    lemma_line_of_offset_start(b, o);
    lemma_newlines_le(b, b.len() as int);
    let s = line_offset(b, l) as int;
    let col = o - s;
    lemma_line_offset_boundary(b, l);
    lemma_line_offset_boundary(b, l + 1);
    lemma_line_offset_mono(b, l);
    let rest = b.subrange(s, b.len() as int);
    lemma_boundary_in_suffix(b, s, o);
    lemma_units_round_trip(rest, col);
    let e = line_offset(b, l + 1) as int;
    lemma_offset_within_line(b, o);
    lemma_boundary_in_suffix(b, s, e);
    lemma_boundary_in_prefix(rest, e - s, col);
    let text = line_text(b, l);
    assert(text =~= rest.subrange(0, e - s));
    assert forall|j: int| 0 <= j < col implies text[j] != 10 by {
        assert(text[j] == b[s + j]);
    }
    lemma_col_walk_reaches(text, col);
}

} // verus!
