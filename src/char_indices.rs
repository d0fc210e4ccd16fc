//! Joining per-chunk `(offset, char)` sequences into one, as if the chunks
//! were one long string.

use vstd::prelude::*;
use vstd::utf8::*;

verus! {

broadcast use vstd::seq::group_seq_axioms;

/// Length in bytes of the UTF-8 encoding of `c`.
pub open spec fn utf8_len(c: char) -> int {
    encode_scalar(c as u32).len() as int
}

/// Length in bytes of the UTF-8 encoding of `c`.
pub fn char_len_utf8(c: char) -> (n: usize)
    ensures
        n == utf8_len(c),
{
    proof {
        vstd::utf8::char_is_scalar(c);
    }
    let v = c as u32;
    if v <= 0x7f {
        1
    } else if v <= 0x7ff {
        2
    } else if v <= 0xffff {
        3
    } else {
        4
    }
}

/// Each character of `s` with the offset at which its encoding starts.
pub open spec fn char_indices_of(s: Seq<char>) -> Seq<(int, char)> {
    Seq::new(s.len(), |i: int| (encode_utf8(s.take(i)).len() as int, s[i]))
}

/// The characters of `chunks`, one after the other.
pub open spec fn flat(chunks: Seq<Seq<char>>) -> Seq<char>
    decreases chunks.len(),
{
    if chunks.len() == 0 {
        seq![]
    } else {
        chunks[0] + flat(chunks.drop_first())
    }
}

/// The characters of each string of `v`.
pub open spec fn string_views(v: Seq<String>) -> Seq<Seq<char>> {
    Seq::new(v.len(), |i: int| v[i]@)
}

/// The char indices of each of `chunks`, offsets relative to its own start.
pub open spec fn chunk_indices(chunks: Seq<Seq<char>>) -> Seq<Seq<(usize, char)>> {
    chunks.map_values(|c: Seq<char>| char_indices_of(c).map_values(|p: (int, char)| (p.0 as usize, p.1)))
}

/// Relies on `str::char_indices`: each character of `s` with the byte
/// offset at which its encoding starts.
#[verifier::external_body]
pub(crate) fn str_char_indices(s: &str) -> (r: Vec<(usize, char)>)
    ensures
        r@.len() == s@.len(),
        forall|i: int| 0 <= i < s@.len() ==> (#[trigger] r@[i]).0 == encode_utf8(s@.take(i)).len() && r@[i].1 == s@[i],
{
    s.char_indices().collect()
}

pub proof fn lemma_encode_concat(a: Seq<char>, b: Seq<char>)
    ensures
        encode_utf8(a + b) == encode_utf8(a) + encode_utf8(b),
    decreases a.len(),
{
    if a.len() == 0 {
        assert(a + b =~= b);
        assert(encode_utf8(a) + encode_utf8(b) =~= encode_utf8(b));
    } else {
        lemma_encode_concat(a.drop_first(), b);
        assert((a + b).drop_first() =~= a.drop_first() + b);
        assert((a + b)[0] == a[0]);
        assert(encode_utf8(a + b) =~= encode_utf8(a) + encode_utf8(b));
    }
}

/// Each character's offset, and the end of its encoding, lie inside the text.
pub proof fn lemma_char_index_bounds(s: Seq<char>, i: int)
    requires
        0 <= i < s.len(),
    ensures
        encode_utf8(s.take(i)).len() + utf8_len(s[i]) == encode_utf8(s.take(i + 1)).len(),
        encode_utf8(s.take(i + 1)).len() <= encode_utf8(s).len(),
{
    lemma_encode_concat(s.take(i), seq![s[i]]);
    assert(s.take(i) + seq![s[i]] =~= s.take(i + 1));
    assert(seq![s[i]].drop_first() =~= Seq::<char>::empty());
    assert(encode_utf8(Seq::<char>::empty()) =~= Seq::<u8>::empty());
    assert(encode_utf8(seq![s[i]]) =~= encode_scalar(s[i] as u32));
    lemma_encode_concat(s.take(i + 1), s.skip(i + 1));
    assert(s.take(i + 1) + s.skip(i + 1) =~= s);
}

/// The char indices of `a + b` are those of `a`, then those of `b` moved
/// past the encoding of `a`.
pub proof fn lemma_char_indices_concat(a: Seq<char>, b: Seq<char>)
    ensures
        char_indices_of(a + b) =~= char_indices_of(a) + Seq::new(
            b.len(),
            |i: int| (encode_utf8(a).len() + char_indices_of(b)[i].0, b[i]),
        ),
{
    assert forall|i: int| a.len() <= i < a.len() + b.len() implies encode_utf8((a + b).take(i)).len()
        == encode_utf8(a).len() + encode_utf8(b.take(i - a.len())).len() by {
        assert((a + b).take(i) =~= a + b.take(i - a.len()));
        lemma_encode_concat(a, b.take(i - a.len()));
    }
    assert forall|i: int| 0 <= i < a.len() implies (a + b).take(i) == a.take(i) by {
        assert((a + b).take(i) =~= a.take(i));
    }
}

/// No chunk's encoding is longer than that of all of them.
pub proof fn lemma_flat_chunk_len(chunks: Seq<Seq<char>>, k: int)
    requires
        0 <= k < chunks.len(),
    ensures
        encode_utf8(chunks[k]).len() <= encode_utf8(flat(chunks)).len(),
    decreases k,
{
    lemma_encode_concat(chunks[0], flat(chunks.drop_first()));
    if k > 0 {
        lemma_flat_chunk_len(chunks.drop_first(), k - 1);
    }
}

/// Joining the char indices of each chunk gives the char indices of the
/// whole, however the text is cut into chunks.
pub proof fn lemma_join_chunks(chunks: Seq<Seq<char>>, base: int)
    requires
        forall|k: int| 0 <= k < chunks.len() ==> encode_utf8(#[trigger] chunks[k]).len() <= usize::MAX,
    ensures
        joined(chunk_indices(chunks), base) =~= Seq::new(
            flat(chunks).len(),
            |i: int| (base + char_indices_of(flat(chunks))[i].0, flat(chunks)[i]),
        ),
    decreases chunks.len(),
{
    if chunks.len() > 0 {
        let c = chunks[0];
        let e = encode_utf8(c).len() as int;
        assert forall|k: int| 0 <= k < chunks.drop_first().len() implies encode_utf8(
            #[trigger] chunks.drop_first()[k],
        ).len() <= usize::MAX by {
            assert(chunks.drop_first()[k] == chunks[k + 1]);
        }
        lemma_join_chunks(chunks.drop_first(), base + e);
        assert(chunk_indices(chunks).drop_first() =~= chunk_indices(chunks.drop_first()));
        let first = chunk_indices(chunks)[0];
        assert forall|i: int| 0 <= i < c.len() implies 0 <= char_indices_of(c)[i].0 && char_indices_of(c)[i].0
            + utf8_len(c[i]) <= e by {
            lemma_char_index_bounds(c, i);
        }
        if c.len() > 0 {
            lemma_char_index_bounds(c, c.len() - 1);
            assert(c.take(c.len() as int) =~= c);
            assert(first.last() == (char_indices_of(c)[c.len() - 1].0 as usize, c[c.len() - 1]));
        }
        assert(shifted(first, base) =~= Seq::new(c.len(), |i: int| (base + char_indices_of(c)[i].0, c[i])));
        assert(end_base(first, base, base) == base + e);
        lemma_char_indices_concat(c, flat(chunks.drop_first()));
        assert(joined(chunk_indices(chunks), base) =~= Seq::new(
            flat(chunks).len(),
            |i: int| (base + char_indices_of(flat(chunks))[i].0, flat(chunks)[i]),
        ));
    } else {
        assert(flat(chunks) =~= Seq::<char>::empty());
    }
}

/// The items of `chunk` with `base` added to each offset.
pub open spec fn shifted(chunk: Seq<(usize, char)>, base: int) -> Seq<(int, char)> {
    Seq::new(chunk.len(), |i: int| (base + chunk[i].0, chunk[i].1))
}

/// The base for the chunk after `chunk`: just past its last character, or
/// `latest` when it has none.
pub open spec fn end_base(chunk: Seq<(usize, char)>, base: int, latest: int) -> int {
    if chunk.len() == 0 {
        latest
    } else {
        base + chunk.last().0 + utf8_len(chunk.last().1)
    }
}

/// The items of all `chunks`, each chunk's offsets shifted to follow on from
/// where the previous chunk's last character ended, starting at `base`.
pub open spec fn joined(chunks: Seq<Seq<(usize, char)>>, base: int) -> Seq<(int, char)>
    decreases chunks.len(),
{
    if chunks.len() == 0 {
        seq![]
    } else {
        shifted(chunks[0], base) + joined(chunks.drop_first(), end_base(chunks[0], base, base))
    }
}

/// Every offset of `items`, and the end of its character, fits in `usize`.
pub open spec fn fits(items: Seq<(int, char)>) -> bool {
    forall|i: int| 0 <= i < items.len() ==> 0 <= #[trigger] items[i].0 && items[i].0 + utf8_len(items[i].1) <= usize::MAX
}

/// Joins sequences of char indices `(usize, char)` into one
/// as if they were from a single long string
pub struct CharIndicesJoin {
    /// Our sequences of indices
    main_iter: Vec<Vec<(usize, char)>>,
    /// How many of them have been started
    taken: usize,
    /// The position in the current one
    pos: usize,
    /// The amount we should shift future offsets
    current_base: usize,
    /// The latest base, just past the last character handed out
    latest_base: usize,
}

impl CharIndicesJoin {
    pub closed spec fn chunks(&self) -> Seq<Seq<(usize, char)>> {
        self.main_iter@.map_values(|v: Vec<(usize, char)>| v@)
    }

    /// What is left of the current sequence.
    closed spec fn current_rest(&self) -> Seq<(usize, char)> {
        if self.taken == 0 {
            seq![]
        } else {
            self.chunks()[self.taken - 1].subrange(self.pos as int, self.chunks()[self.taken - 1].len() as int)
        }
    }

    /// The items still to come.
    pub closed spec fn view(&self) -> Seq<(int, char)> {
        shifted(self.current_rest(), self.current_base as int) + joined(
            self.chunks().subrange(self.taken as int, self.chunks().len() as int),
            end_base(self.current_rest(), self.current_base as int, self.latest_base as int),
        )
    }

    pub closed spec fn wf(&self) -> bool {
        &&& self.taken <= self.main_iter@.len()
        &&& self.taken == 0 ==> self.pos == 0 && self.current_base == self.latest_base
        &&& self.taken > 0 ==> {
            let cur = self.chunks()[self.taken - 1];
            &&& self.pos <= cur.len()
            &&& self.pos == 0 ==> self.latest_base == self.current_base
            &&& self.pos > 0 ==> self.latest_base == self.current_base + cur[self.pos - 1].0 + utf8_len(
                cur[self.pos - 1].1,
            )
        }
        &&& fits(self.view())
    }

    pub fn new(main_iter: Vec<Vec<(usize, char)>>) -> (r: CharIndicesJoin)
        requires
            fits(joined(main_iter@.map_values(|v: Vec<(usize, char)>| v@), 0)),
        ensures
            r.wf(),
            r.view() == joined(main_iter@.map_values(|v: Vec<(usize, char)>| v@), 0),
    {
        let r = CharIndicesJoin { main_iter, taken: 0, pos: 0, current_base: 0, latest_base: 0 };
        assert(r.chunks().subrange(0, r.chunks().len() as int) =~= r.chunks());
        assert(r.view() =~= joined(r.chunks(), 0));
        r
    }

    /// The next item, if any is left.
    pub fn next(&mut self) -> (r: Option<(usize, char)>)
        requires
            old(self).wf(),
        ensures
            final(self).wf(),
            old(self).view().len() == 0 ==> r is None && final(self).view().len() == 0,
            old(self).view().len() > 0 ==> r == Some(
                (old(self).view()[0].0 as usize, old(self).view()[0].1),
            ) && 0 <= old(self).view()[0].0 <= usize::MAX && final(self).view() == old(
                self,
            ).view().drop_first(),
    {
        loop
            invariant
                self.wf(),
                self.view() == old(self).view(),
            decreases self.main_iter@.len() - self.taken,
        {
            if self.taken > 0 && self.pos < self.main_iter[self.taken - 1].len() {
                let ghost before = self.view();
                let ghost cur = self.chunks()[self.taken - 1];
                let (next_offset, next_ch) = self.main_iter[self.taken - 1][self.pos];
                proof {
                    assert(cur[self.pos as int] == (next_offset, next_ch));
                    assert(before[0] == (self.current_base + next_offset, next_ch));
                    assert(fits(before));
                    assert(before[0].0 + utf8_len(before[0].1) <= usize::MAX);
                }
                let next_offset = self.current_base + next_offset;
                self.latest_base = next_offset + char_len_utf8(next_ch);
                self.pos = self.pos + 1;
                proof {
                    assert(shifted(self.current_rest(), self.current_base as int) =~= shifted(
                        cur.subrange(self.pos - 1, cur.len() as int),
                        self.current_base as int,
                    ).drop_first());
                    assert(self.view() =~= before.drop_first());
                }
                return Some((next_offset, next_ch));
            }
            if self.taken < self.main_iter.len() {
                let ghost rest = self.chunks().subrange(self.taken as int, self.chunks().len() as int);
                self.taken = self.taken + 1;
                self.pos = 0;
                self.current_base = self.latest_base;
                proof {
                    assert(rest.drop_first() =~= self.chunks().subrange(self.taken as int, self.chunks().len() as int));
                    assert(self.current_rest() =~= rest[0]);
                }
            } else {
                return None;
            }
        }
    }
}

} // verus!
