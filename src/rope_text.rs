//! A read-only view of a rope that translates between offsets, lines,
//! columns and protocol positions.

use std::ops::Range;

use vstd::prelude::*;
use vstd::utf8::*;

use crate::char_indices::{
    char_indices_of, chunk_indices, flat, joined, lemma_char_index_bounds, lemma_flat_chunk_len,
    lemma_join_chunks, str_char_indices, string_views, utf8_len, CharIndicesJoin,
};
use crate::encoding::{lead_byte_width, offset_utf16_to_utf8, offset_utf8_to_utf16};
use crate::lines::{
    bytes_for_units, clamp, col_of, col_walk, first_non_blank_from, grapheme_steps, is_blank, last_line_of,
    lemma_first_non_blank_boundary, lemma_line_ends, lemma_line_of_offset_start, lemma_line_offset_boundary,
    lemma_line_offset_mono, lemma_newlines_le, lemma_past_last_line, lemma_snap_keeps_newlines, lemma_walk_step,
    line_end, line_of, line_offset, line_start, line_text, newlines_before, rest_from_line, units_before,
};
use crate::rope::{
    rope_at_or_prev_codepoint_boundary, rope_bytes, rope_chars, rope_chunks, rope_len, rope_line_of_offset,
    rope_offset_of_line, rope_prev_grapheme, rope_slice, TextRope,
};

verus! {

/// A position as the language server protocol counts it: a line, and a
/// column in UTF-16 code units.
#[derive(Clone, Copy, Debug, PartialEq, Eq, Structural)]
pub struct Position {
    pub line: u32,
    pub character: u32,
}

impl Position {
    pub fn new(line: u32, character: u32) -> (r: Position)
        ensures
            r.line == line,
            r.character == character,
    {
        Position { line, character }
    }
}

/// A wrapper around a rope that provides utility functions atop it.
pub struct RopeText<'a> {
    text: &'a TextRope,
}

impl<'a> RopeText<'a> {
    /// The bytes of the text viewed.
    pub closed spec fn bytes(&self) -> Seq<u8> {
        rope_bytes(*self.text)
    }

    /// The text fits with room to spare for one past its last line.
    pub open spec fn wf(&self) -> bool {
        self.bytes().len() < usize::MAX
    }

    pub fn new(text: &'a TextRope) -> (r: Self)
        ensures
            r.bytes() == rope_bytes(*text),
    {
        RopeText { text }
    }

    /// The text viewed is valid UTF-8.
    pub proof fn lemma_valid(&self)
        ensures
            valid_utf8(self.bytes()),
    {
        vstd::utf8::encode_utf8_valid_utf8(rope_chars(*self.text));
    }

    pub fn len(&self) -> (n: usize)
        ensures
            n == self.bytes().len(),
    {
        rope_len(self.text)
    }

    pub fn is_empty(&self) -> (r: bool)
        ensures
            r == (self.bytes().len() == 0),
    {
        self.len() == 0
    }

    /// The last line of the held rope
    pub fn last_line(&self) -> (l: usize)
        ensures
            l == last_line_of(self.bytes()),
    {
        self.line_of_offset(self.len())
    }

    /// Get the offset into the rope of the start of the given line.
    /// If the line it out of bounds, then the last offset (the len) is returned.
    pub fn offset_of_line(&self, line: usize) -> (o: usize)
        requires
            self.wf(),
        ensures
            o == line_offset(self.bytes(), line as nat),
            o <= self.bytes().len(),
    {
        let last_line = self.last_line();
        proof {
            lemma_newlines_le(self.bytes(), self.bytes().len() as int);
            lemma_line_offset_mono(self.bytes(), line as nat);
        }
        let line = if line < last_line + 1 {
            line
        } else {
            last_line + 1
        };
        rope_offset_of_line(self.text, line)
    }

    /// The start of the line after `line`, clamped like `offset_of_line`.
    fn offset_of_next_line(&self, line: usize) -> (o: usize)
        requires
            self.wf(),
        ensures
            o == line_offset(self.bytes(), line as nat + 1),
            line_offset(self.bytes(), line as nat) <= o <= self.bytes().len(),
    {
        let last_line = self.last_line();
        proof {
            lemma_line_offset_mono(self.bytes(), line as nat);
            lemma_newlines_le(self.bytes(), self.bytes().len() as int);
        }
        if line <= last_line {
            self.offset_of_line(line + 1)
        } else {
            self.offset_of_line(line)
        }
    }

    pub fn offset_line_end(&self, offset: usize, caret: bool) -> (r: usize)
        requires
            self.wf(),
        ensures
            r == line_end(self.bytes(), newlines_before(self.bytes(), clamp(self.bytes(), offset as int)), caret),
    {
        let line = self.line_of_offset(offset);
        self.line_end_offset(line, caret)
    }

    /// Converts a UTF8 offset to a UTF16 LSP position
    pub fn offset_to_position(&self, offset: usize) -> (r: Position)
        requires
            self.wf(),
        ensures
            r.line == line_of(self.bytes(), offset as int) as u32,
            r.character == units_before(
                rest_from_line(self.bytes(), line_of(self.bytes(), offset as int)),
                col_of(self.bytes(), offset as int),
            ) as u32,
    {
        let (line, col) = self.offset_to_line_col(offset);
        let rest = self.rest_from_line(line);
        let utf16_col = offset_utf8_to_utf16(rest.as_str().as_bytes(), col);
        Position { line: line as u32, character: utf16_col as u32 }
    }

    pub fn offset_of_position(&self, pos: &Position) -> (r: usize)
        requires
            self.wf(),
        ensures
            r == line_offset(self.bytes(), pos.line as nat) + col_walk(
                line_text(self.bytes(), pos.line as nat),
                bytes_for_units(rest_from_line(self.bytes(), pos.line as nat), pos.character as int),
            ),
    {
        let (line, column) = self.position_to_line_col(pos);
        self.offset_of_line_col(line, column)
    }

    pub fn position_to_line_col(&self, pos: &Position) -> (r: (usize, usize))
        requires
            self.wf(),
        ensures
            r.0 == pos.line,
            r.1 == bytes_for_units(rest_from_line(self.bytes(), pos.line as nat), pos.character as int),
    {
        let line = pos.line as usize;
        let rest = self.rest_from_line(line);
        let column = offset_utf16_to_utf8(rest.as_str().as_bytes(), pos.character as usize);
        (line, column)
    }

    /// The text from the start of `line` to the end.
    fn rest_from_line(&self, line: usize) -> (s: String)
        requires
            self.wf(),
        ensures
            encode_utf8(s@) == rest_from_line(self.bytes(), line as nat),
            valid_utf8(encode_utf8(s@)),
    {
        let line_offset = self.offset_of_line(line);
        let len = self.len();
        proof {
            self.lemma_valid();
            lemma_line_offset_boundary(self.bytes(), line as nat);
            is_char_boundary_start_end_of_seq(self.bytes());
        }
        let s = rope_slice(self.text, line_offset, len);
        proof {
            vstd::utf8::encode_utf8_valid_utf8(s@);
        }
        s
    }

    pub fn offset_to_line_col(&self, offset: usize) -> (r: (usize, usize))
        requires
            self.wf(),
        ensures
            r.0 == line_of(self.bytes(), offset as int),
            r.1 == col_of(self.bytes(), offset as int),
    {
        let len = self.len();
        let offset = if offset <= len {
            offset
        } else {
            len
        };
        let line = self.line_of_offset(offset);
        let line_start = self.offset_of_line(line);
        proof {
            lemma_line_of_offset_start(self.bytes(), offset as int);
        }
        if offset == line_start {
            return (line, 0);
        }
        let col = offset - line_start;
        (line, col)
    }

    pub fn offset_of_line_col(&self, line: usize, col: usize) -> (r: usize)
        requires
            self.wf(),
        ensures
            r == line_offset(self.bytes(), line as nat) + col_walk(line_text(self.bytes(), line as nat), col as int),
    {
        let offset = self.offset_of_line(line);
        let content = self.line_content(line);
        let bytes = content.as_str().as_bytes();
        let n = bytes.len();
        let mut pos: usize = 0;
        proof {
            vstd::utf8::encode_utf8_valid_utf8(content@);
            lemma_line_offset_mono(self.bytes(), line as nat);
            assert(bytes@.subrange(0, n as int) =~= bytes@);
        }
        while pos < n
            invariant
                pos <= n == bytes@.len(),
                bytes@ == line_text(self.bytes(), line as nat),
                offset == line_offset(self.bytes(), line as nat),
                offset + n <= self.bytes().len() < usize::MAX,
                valid_utf8(bytes@.subrange(pos as int, n as int)),
                col_walk(bytes@, col as int) == pos + col_walk(bytes@.subrange(pos as int, n as int), col - pos),
            decreases n - pos,
        {
            let c = bytes[pos];
            proof {
                lemma_walk_step(bytes@, pos as int);
                assert(bytes@.subrange(pos as int, n as int)[0] == c);
            }
            if c == 10 {
                return offset + pos;
            }
            let char_len = lead_byte_width(c);
            if pos + char_len > col {
                return offset + pos;
            }
            pos = pos + char_len;
        }
        offset + pos
    }

    pub fn line_of_offset(&self, offset: usize) -> (l: usize)
        ensures
            l == newlines_before(self.bytes(), clamp(self.bytes(), offset as int)),
    {
        let len = self.len();
        let offset = if offset <= len {
            offset
        } else {
            len
        };
        let snapped = match rope_at_or_prev_codepoint_boundary(self.text, offset) {
            Some(p) => p,
            None => offset,
        };
        proof {
            self.lemma_valid();
            lemma_snap_keeps_newlines(self.bytes(), snapped as int, offset as int);
        }
        rope_line_of_offset(self.text, snapped)
    }

    /// Returns the content of the given line.
    /// Includes the line ending if it exists. (-> the last line won't have a line ending)
    /// Lines past the end of the document will return an empty string.
    pub fn line_content(&self, line: usize) -> (s: String)
        requires
            self.wf(),
        ensures
            encode_utf8(s@) == line_text(self.bytes(), line as nat),
    {
        let start = self.offset_of_line(line);
        let end = self.offset_of_next_line(line);
        proof {
            self.lemma_valid();
            lemma_line_offset_boundary(self.bytes(), line as nat);
            lemma_line_offset_boundary(self.bytes(), line as nat + 1);
        }
        rope_slice(self.text, start, end)
    }

    /// Get the offset of the end of the line. The caret decides whether it is after the last
    /// character, or before it.
    /// If the line is out of bounds, then the last offset (the len) is returned.
    pub fn line_end_offset(&self, line: usize, caret: bool) -> (r: usize)
        requires
            self.wf(),
        ensures
            r == line_end(self.bytes(), line as nat, caret),
            r <= line_end(self.bytes(), line as nat, true),
    {
        let ghost b = self.bytes();
        let ghost s = line_offset(b, line as nat) as int;
        let mut offset = self.offset_of_next_line(line);
        let content = self.line_content(line);
        let bytes = content.as_str().as_bytes();
        let n = bytes.len();
        assert(bytes@ =~= b.subrange(s, offset as int));
        let mut trimmed_len = n;
        if n >= 2 && bytes[n - 2] == 13 && bytes[n - 1] == 10 {
            offset = offset - 2;
            trimmed_len = n - 2;
        } else if n >= 1 && bytes[n - 1] == 10 {
            offset = offset - 1;
            trimmed_len = n - 1;
        }
        if !caret && trimmed_len > 0 {
            offset = self.prev_grapheme_offset(offset, 1, 0);
        }
        offset
    }

    pub fn line_end_col(&self, line: usize, caret: bool) -> (r: usize)
        requires
            self.wf(),
        ensures
            r == if line_end(self.bytes(), line as nat, caret) >= line_offset(self.bytes(), line as nat) {
                line_end(self.bytes(), line as nat, caret) - line_offset(self.bytes(), line as nat)
            } else {
                0
            },
    {
        let line_start = self.offset_of_line(line);
        let offset = self.line_end_offset(line, caret);
        if offset >= line_start {
            offset - line_start
        } else {
            0
        }
    }

    /// Get the offset of the previous grapheme cluster.
    pub fn prev_grapheme_offset(&self, offset: usize, count: usize, limit: usize) -> (r: usize)
        ensures
            r == grapheme_steps(self.bytes(), clamp(self.bytes(), offset as int) as usize, count as nat, limit),
            r <= clamp(self.bytes(), offset as int),
            clamp(self.bytes(), offset as int) < limit ==> r == clamp(self.bytes(), offset as int),
            clamp(self.bytes(), offset as int) >= limit ==> r >= limit,
    {
        let len = self.len();
        let start = if offset <= len {
            offset
        } else {
            len
        };
        let mut new_offset = start;
        let mut i: usize = 0;
        while i < count
            invariant
                i <= count,
                start == clamp(self.bytes(), offset as int),
                new_offset <= start,
                start < limit ==> new_offset == start,
                start >= limit ==> new_offset >= limit,
                new_offset <= len == self.bytes().len(),
                grapheme_steps(self.bytes(), start, count as nat, limit) == grapheme_steps(
                    self.bytes(),
                    new_offset,
                    (count - i) as nat,
                    limit,
                ),
            decreases count - i,
        {
            let ghost before = new_offset;
            let prev = rope_prev_grapheme(self.text, new_offset);
            assert(grapheme_steps(self.bytes(), before, (count - i) as nat, limit) == match prev {
                None => before,
                Some(p) => if p < limit {
                    before
                } else {
                    grapheme_steps(self.bytes(), p, (count - i - 1) as nat, limit)
                },
            });
            match prev {
                Some(prev_offset) => {
                    if prev_offset < limit {
                        return new_offset;
                    }
                    new_offset = prev_offset;
                },
                None => {
                    return new_offset;
                },
            }
            i = i + 1;
        }
        new_offset
    }

    /// Returns the offset of the first non-blank character on the given line.
    /// If the line is one past the last line, then the offset at the end of the rope is returned.
    /// If the line is further past that, then it defaults to the last line.
    pub fn first_non_blank_character_on_line(&self, line: usize) -> (r: usize)
        requires
            self.wf(),
        ensures
            r == first_non_blank_from(
                self.bytes(),
                line_offset(self.bytes(), if line > last_line_of(self.bytes()) + 1 {
                    last_line_of(self.bytes())
                } else {
                    line as nat
                }) as int,
            ),
    {
        let last_line = self.last_line();
        proof {
            lemma_newlines_le(self.bytes(), self.bytes().len() as int);
        }
        let line = if line > last_line + 1 {
            last_line
        } else {
            line
        };
        self.next_non_blank(line)
    }

    /// The offset of the first non-blank character at or after the start of
    /// `line`: blanks never run past a line terminator.
    fn next_non_blank(&self, line: usize) -> (r: usize)
        requires
            self.wf(),
        ensures
            r == first_non_blank_from(self.bytes(), line_offset(self.bytes(), line as nat) as int),
    {
        let ghost b = self.bytes();
        let start = self.offset_of_line(line);
        let end = self.offset_of_next_line(line);
        let content = self.line_content(line);
        let bytes = content.as_str().as_bytes();
        let n = bytes.len();
        assert(bytes@ =~= b.subrange(start as int, end as int));
        proof {
            lemma_past_last_line(b);
            lemma_line_ends(b, line as nat);
        }
        let mut i: usize = 0;
        while i < n && is_blank_byte(bytes[i])
            invariant
                0 <= i <= n,
                n == end - start,
                bytes@ == b.subrange(start as int, end as int),
                end <= b.len(),
                forall|k: int| 0 <= k < i ==> is_blank(#[trigger] bytes@[k]),
                first_non_blank_from(b, start as int) == first_non_blank_from(b, start + i),
            decreases n - i,
        {
            i = i + 1;
        }
        if i < n {
            assert(bytes@[i as int] == b[start + i]);
        } else if n > 0 {
            assert(bytes@[n - 1] == b[end - 1]);
        }
        start + i
    }

    pub fn indent_on_line(&self, line: usize) -> (s: String)
        requires
            self.wf(),
        ensures
            ({
                let l = if line > last_line_of(self.bytes()) + 1 {
                    last_line_of(self.bytes())
                } else {
                    line as nat
                };
                let start = line_offset(self.bytes(), l) as int;
                encode_utf8(s@) == self.bytes().subrange(start, first_non_blank_from(self.bytes(), start))
            }),
    {
        let last_line = self.last_line();
        proof {
            lemma_newlines_le(self.bytes(), self.bytes().len() as int);
        }
        let line = if line > last_line + 1 {
            last_line
        } else {
            line
        };
        let line_start_offset = self.offset_of_line(line);
        let word_boundary = self.next_non_blank(line);
        proof {
            self.lemma_valid();
            lemma_line_offset_boundary(self.bytes(), line as nat);
            lemma_first_non_blank_boundary(self.bytes(), line_start_offset as int);
        }
        rope_slice(self.text, line_start_offset, word_boundary)
    }

    /// Get the content of the rope as a string, both ends clamped to the length.
    pub fn slice_to_cow(&self, range: Range<usize>) -> (s: String)
        requires
            clamp(self.bytes(), range.start as int) <= clamp(self.bytes(), range.end as int) ==> is_char_boundary(
                self.bytes(),
                clamp(self.bytes(), range.start as int),
            ) && is_char_boundary(self.bytes(), clamp(self.bytes(), range.end as int)),
        ensures
            clamp(self.bytes(), range.start as int) <= clamp(self.bytes(), range.end as int) ==> encode_utf8(s@)
                == self.bytes().subrange(
                clamp(self.bytes(), range.start as int),
                clamp(self.bytes(), range.end as int),
            ),
            clamp(self.bytes(), range.start as int) > clamp(self.bytes(), range.end as int) ==> s@.len() == 0,
    {
        let len = self.len();
        let start = if range.start <= len {
            range.start
        } else {
            len
        };
        let end = if range.end <= len {
            range.end
        } else {
            len
        };
        if start > end {
            return String::new();
        }
        rope_slice(self.text, start, end)
    }

    /// Iterate over (utf8_offset, char) values in the given range, offsets
    /// counted from its start; the rope's pieces are read in place.
    pub fn char_indices_iter(&self, range: Range<usize>) -> (r: Vec<(usize, char)>)
        requires
            range.start <= range.end <= self.bytes().len(),
            is_char_boundary(self.bytes(), range.start as int),
            is_char_boundary(self.bytes(), range.end as int),
        ensures
            r@.len() == char_indices_of(decode_utf8(self.bytes().subrange(range.start as int, range.end as int))).len(),
            forall|i: int|
                0 <= i < r@.len() ==> (#[trigger] r@[i]).0 == char_indices_of(
                    decode_utf8(self.bytes().subrange(range.start as int, range.end as int)),
                )[i].0 && r@[i].1 == char_indices_of(
                    decode_utf8(self.bytes().subrange(range.start as int, range.end as int)),
                )[i].1,
    {
        let start = range.start;
        let end = range.end;
        let chunks = rope_chunks(self.text, start, end);
        let ghost cs = string_views(chunks@);
        let ghost full = char_indices_of(flat(cs));
        proof {
            vstd::utf8::encode_utf8_decode_utf8(flat(cs));
            assert forall|j: int| 0 <= j < cs.len() implies encode_utf8(#[trigger] cs[j]).len() <= usize::MAX by {
                lemma_flat_chunk_len(cs, j);
            }
            lemma_join_chunks(cs, 0);
        }
        let mut main: Vec<Vec<(usize, char)>> = Vec::new();
        let mut k: usize = 0;
        while k < chunks.len()
            invariant
                k <= chunks@.len() == cs.len(),
                cs == string_views(chunks@),
                encode_utf8(flat(cs)).len() == end - start,
                main@.len() == k,
                forall|j: int| 0 <= j < k ==> (#[trigger] main@[j])@ == chunk_indices(cs)[j],
            decreases chunks@.len() - k,
        {
            let items = str_char_indices(chunks[k].as_str());
            proof {
                let c = cs[k as int];
                lemma_flat_chunk_len(cs, k as int);
                assert forall|i: int| 0 <= i < c.len() implies items@[i] == chunk_indices(cs)[k as int][i] by {
                    lemma_char_index_bounds(c, i);
                }
                assert(items@ =~= chunk_indices(cs)[k as int]);
            }
            main.push(items);
            k = k + 1;
        }
        proof {
            assert(main@.map_values(|v: Vec<(usize, char)>| v@) =~= chunk_indices(cs));
            assert forall|i: int| 0 <= i < full.len() implies 0 <= (#[trigger] full[i]).0 && full[i].0 + utf8_len(
                flat(cs)[i],
            ) <= usize::MAX by {
                lemma_char_index_bounds(flat(cs), i);
            }
            assert(joined(chunk_indices(cs), 0) =~= full);
        }
        let mut join = CharIndicesJoin::new(main);
        let mut out: Vec<(usize, char)> = Vec::new();
        loop
            invariant
                join.wf(),
                out@.len() + join.view().len() == full.len(),
                join.view() =~= full.subrange(out@.len() as int, full.len() as int),
                forall|i: int| 0 <= i < out@.len() ==> (#[trigger] out@[i]).0 == full[i].0 && out@[i].1 == full[i].1,
            ensures
                out@.len() == full.len(),
                forall|i: int| 0 <= i < out@.len() ==> (#[trigger] out@[i]).0 == full[i].0 && out@[i].1 == full[i].1,
            decreases join.view().len(),
        {
            match join.next() {
                Some(item) => {
                    out.push(item);
                },
                None => {
                    break ;
                },
            }
        }
        out
    }

    /// The number of lines in the file
    pub fn num_lines(&self) -> (n: usize)
        requires
            self.wf(),
        ensures
            n == last_line_of(self.bytes()) + 1,
    {
        proof {
            lemma_newlines_le(self.bytes(), self.bytes().len() as int);
        }
        self.last_line() + 1
    }

    /// The length of the given line
    pub fn line_len(&self, line: usize) -> (n: usize)
        requires
            self.wf(),
        ensures
            n == line_offset(self.bytes(), line as nat + 1) - line_offset(self.bytes(), line as nat),
    {
        let end = self.offset_of_next_line(line);
        end - self.offset_of_line(line)
    }
}

/// A blank byte: a control character or space, line terminators excepted.
fn is_blank_byte(x: u8) -> (r: bool)
    ensures
        r == is_blank(x),
{
    x <= 0x20 && x != 10 && x != 13
}

} // verus!
