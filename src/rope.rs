//! The rope of `lapce_xi_rope`, seen through the text it holds.

use lapce_xi_rope::Rope;
use vstd::prelude::*;
use vstd::utf8::*;

use crate::char_indices::{flat, string_views};
use crate::lines::{line_start, newlines_before};

verus! {

/// An immutable snapshot of a document, held in a rope of `lapce_xi_rope`.
#[verifier::external_body]
pub struct TextRope {
    rope: Rope,
}

/// The characters that a rope holds.
pub uninterp spec fn rope_chars(r: TextRope) -> Seq<char>;

/// The offset at which the grapheme cluster before `offset` starts in the
/// UTF-8 text `text`, if there is one.
pub uninterp spec fn prev_grapheme_of(text: Seq<u8>, offset: usize) -> Option<usize>;

/// The UTF-8 bytes of a rope; all offsets are indices into these.
pub open spec fn rope_bytes(r: TextRope) -> Seq<u8> {
    encode_utf8(rope_chars(r))
}

impl TextRope {
    /// Relies on `Rope::from`: the rope holds exactly the characters of `s`.
    #[verifier::external_body]
    pub fn from_str(s: &str) -> (r: TextRope)
        ensures
            rope_chars(r) == s@,
    {
        TextRope { rope: Rope::from(s) }
    }
}

/// Relies on `Rope::len`: the length of the text in bytes.
#[verifier::external_body]
pub(crate) fn rope_len(r: &TextRope) -> (n: usize)
    ensures
        n == encode_utf8(rope_chars(*r)).len(),
{
    r.rope.len()
}

/// Relies on `Rope::offset_of_line`: the offset just past the `line`-th
/// newline, or the length when there are not that many; it panics above one
/// past the last line.
#[verifier::external_body]
pub(crate) fn rope_offset_of_line(r: &TextRope, line: usize) -> (o: usize)
    requires
        line <= newlines_before(rope_bytes(*r), rope_bytes(*r).len() as int) + 1,
    ensures
        o == line_start(rope_bytes(*r), line as nat),
{
    r.rope.offset_of_line(line)
}

/// Relies on `Rope::line_of_offset`: the number of newlines before `offset`;
/// it panics past the end and inside a character, where it slices a leaf.
#[verifier::external_body]
pub(crate) fn rope_line_of_offset(r: &TextRope, offset: usize) -> (l: usize)
    requires
        offset <= rope_bytes(*r).len(),
        is_char_boundary(rope_bytes(*r), offset as int),
    ensures
        l == newlines_before(rope_bytes(*r), offset as int),
{
    r.rope.line_of_offset(offset)
}

/// Relies on `Rope::at_or_prev_codepoint_boundary`: `offset` when it is a
/// codepoint boundary, else the boundary before it, which an offset inside a
/// character always has.
#[verifier::external_body]
pub(crate) fn rope_at_or_prev_codepoint_boundary(r: &TextRope, offset: usize) -> (b: Option<usize>)
    requires
        offset <= rope_bytes(*r).len(),
    ensures
        b is Some,
        b matches Some(p) ==> p <= offset && is_char_boundary(rope_bytes(*r), p as int) && (
        forall|i: int| p < i <= offset ==> !is_char_boundary(rope_bytes(*r), i)),
{
    r.rope.at_or_prev_codepoint_boundary(offset)
}

/// Relies on `Rope::slice_to_cow`: the text between two codepoint
/// boundaries, taken as an owned string.
#[verifier::external_body]
pub(crate) fn rope_slice(r: &TextRope, start: usize, end: usize) -> (s: String)
    requires
        start <= end <= rope_bytes(*r).len(),
        is_char_boundary(rope_bytes(*r), start as int),
        is_char_boundary(rope_bytes(*r), end as int),
    ensures
        encode_utf8(s@) == rope_bytes(*r).subrange(start as int, end as int),
{
    r.rope.slice_to_cow(start..end).into_owned()
}

/// Relies on `Rope::iter_chunks`: the text between two codepoint boundaries,
/// in the rope's own pieces and in order, each taken as an owned string.
#[verifier::external_body]
pub(crate) fn rope_chunks(r: &TextRope, start: usize, end: usize) -> (v: Vec<String>)
    requires
        start <= end <= rope_bytes(*r).len(),
        is_char_boundary(rope_bytes(*r), start as int),
        is_char_boundary(rope_bytes(*r), end as int),
    ensures
        encode_utf8(flat(string_views(v@))) == rope_bytes(*r).subrange(start as int, end as int),
{
    r.rope.iter_chunks(start..end).map(String::from).collect()
}

/// Relies on `Rope::prev_grapheme_offset`: the start of the grapheme cluster
/// before `offset`, which lies before `offset`; none at the start.
#[verifier::external_body]
pub(crate) fn rope_prev_grapheme(r: &TextRope, offset: usize) -> (p: Option<usize>)
    requires
        offset <= rope_bytes(*r).len(),
    ensures
        p == prev_grapheme_of(rope_bytes(*r), offset),
        p matches Some(q) ==> q < offset,
{
    r.rope.prev_grapheme_offset(offset)
}

} // verus!
