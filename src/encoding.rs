//! Conversion of columns between UTF-8 bytes and UTF-16 code units.

use vstd::prelude::*;
use vstd::utf8::*;

use crate::lines::{bytes_for_units, lead_width, lemma_walk_step, units_before};

verus! {

/// Width in bytes of the character whose UTF-8 encoding starts with `x`.
pub fn lead_byte_width(x: u8) -> (w: usize)
    ensures
        w == lead_width(x),
{
    if x <= 0x7f {
        1
    } else if 0xc0 <= x && x <= 0xdf {
        2
    } else if 0xe0 <= x && x <= 0xef {
        3
    } else {
        4
    }
}

/// The UTF-16 column of the byte column `offset` of `text`: the code units
/// of the characters that start before it.
pub fn offset_utf8_to_utf16(text: &[u8], offset: usize) -> (r: usize)
    requires
        valid_utf8(text@),
    ensures
        r == units_before(text@, offset as int),
{
    let n = text.len();
    let mut i: usize = 0;
    let mut units: usize = 0;
    assert(text@.subrange(0, n as int) =~= text@);
    while i < n && i < offset
        invariant
            i <= n == text@.len(),
            units <= i,
            valid_utf8(text@.subrange(i as int, n as int)),
            units_before(text@, offset as int) == units + units_before(
                text@.subrange(i as int, n as int),
                offset - i,
            ),
        decreases n - i,
    {
        let x = text[i];
        let w = lead_byte_width(x);
        proof {
            lemma_walk_step(text@, i as int);
            let sub = text@.subrange(i as int, n as int);
            assert(sub[0] == x);
        }
        units = units + if w == 4 {
            2
        } else {
            1
        };
        i = i + w;
    }
    units
}

/// The byte column of the UTF-16 column `offset` of `text`: the first
/// character boundary at which that many code units have been passed, or the
/// end of the text.
pub fn offset_utf16_to_utf8(text: &[u8], offset: usize) -> (r: usize)
    requires
        valid_utf8(text@),
    ensures
        r == bytes_for_units(text@, offset as int),
{
    let n = text.len();
    let mut i: usize = 0;
    let mut units: usize = 0;
    assert(text@.subrange(0, n as int) =~= text@);
    while i < n && units < offset
        invariant
            i <= n == text@.len(),
            units <= i,
            valid_utf8(text@.subrange(i as int, n as int)),
            bytes_for_units(text@, offset as int) == i + bytes_for_units(
                text@.subrange(i as int, n as int),
                offset - units,
            ),
        decreases n - i,
    {
        let x = text[i];
        let w = lead_byte_width(x);
        proof {
            lemma_walk_step(text@, i as int);
            let sub = text@.subrange(i as int, n as int);
            assert(sub[0] == x);
        }
        units = units + if w == 4 {
            2
        } else {
            1
        };
        i = i + w;
    }
    i
}

} // verus!
