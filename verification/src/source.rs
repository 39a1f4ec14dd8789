//! A deterministic in-memory buffered readable source: a queue of non-empty
//! byte regions offered one at a time through `peek` and `consume`.
use vstd::prelude::*;

verus! {

/// The bytes of the regions from position `i` on, in order.
spec fn flatten_from(chunks: Seq<Vec<u8>>, i: int) -> Seq<u8>
    decreases chunks.len() - i,
{
    if i < 0 || i >= chunks.len() {
        Seq::empty()
    } else {
        chunks[i]@ + flatten_from(chunks, i + 1)
    }
}

/// The unconsumed bytes of a source whose cursor stands at region `idx`,
/// offset `off`.
spec fn remaining_at(chunks: Seq<Vec<u8>>, idx: int, off: int) -> Seq<u8> {
    if 0 <= idx < chunks.len() {
        chunks[idx]@.skip(off) + flatten_from(chunks, idx + 1)
    } else {
        Seq::empty()
    }
}

proof fn lemma_flatten_from_is_flatten(chunks: Seq<Vec<u8>>, i: int)
    requires
        0 <= i <= chunks.len(),
    ensures
        flatten_from(chunks, i) == chunks.map_values(|c: Vec<u8>| c@).skip(i).flatten(),
    decreases chunks.len() - i,
{
    let seqs = chunks.map_values(|c: Vec<u8>| c@);
    if i == chunks.len() {
        assert(seqs.skip(i) =~= Seq::<Seq<u8>>::empty());
        assert(Seq::<Seq<u8>>::empty().flatten() =~= Seq::<u8>::empty());
    } else {
        lemma_flatten_from_is_flatten(chunks, i + 1);
        assert(seqs.skip(i).drop_first() =~= seqs.skip(i + 1));
        assert(seqs.skip(i).first() == chunks[i]@);
    }
}

/// A buffered readable source over a fixed sequence of non-empty regions.
/// `peek` offers the unconsumed rest of the current region without advancing
/// the cursor; `consume` advances the cursor within the most recently peeked
/// region. A source with no regions left signals end of stream.
pub struct ChunkedSource {
    chunks: Vec<Vec<u8>>,
    idx: usize,
    off: usize,
}

impl ChunkedSource {
    /// The cursor stands inside a region or one past the last region, every
    /// unconsumed region is non-empty, and at least one unconsumed byte is
    /// left of the current region.
    pub closed spec fn wf(self) -> bool {
        &&& self.idx <= self.chunks@.len()
        &&& (self.idx < self.chunks@.len() ==> self.off < self.chunks@[self.idx as int]@.len())
        &&& (forall|i: int|
            self.idx <= i < self.chunks@.len() ==> #[trigger] self.chunks@[i]@.len() > 0)
    }

    /// The stream bytes not yet consumed, in order, across all regions.
    pub closed spec fn remaining(self) -> Seq<u8> {
        remaining_at(self.chunks@, self.idx as int, self.off as int)
    }

    /// How many bytes the next `peek` offers: the unconsumed rest of the
    /// current region, or zero at end of stream.
    pub closed spec fn region_len(self) -> int {
        if self.idx < self.chunks@.len() {
            self.chunks@[self.idx as int]@.len() - self.off
        } else {
            0
        }
    }

    /// A fresh source over the given regions, none consumed yet.
    pub fn new(chunks: Vec<Vec<u8>>) -> (src: ChunkedSource)
        requires
            forall|i: int| 0 <= i < chunks@.len() ==> #[trigger] chunks@[i]@.len() > 0,
        ensures
            src.wf(),
            src.remaining() == chunks@.map_values(|c: Vec<u8>| c@).flatten(),
    {
        let src = ChunkedSource { chunks, idx: 0, off: 0 };
        proof {
            lemma_flatten_from_is_flatten(src.chunks@, 0);
            let seqs = src.chunks@.map_values(|c: Vec<u8>| c@);
            assert(seqs.skip(0) =~= seqs);
            if src.chunks@.len() > 0 {
                assert(src.chunks@[0]@.skip(0) =~= src.chunks@[0]@);
                assert(src.remaining() =~= flatten_from(src.chunks@, 0));
            }
        }
        src
    }

    /// True exactly when the source has no byte left to offer.
    pub fn exhausted(&self) -> (r: bool)
        requires
            self.wf(),
        ensures
            r <==> self.remaining().len() == 0,
    {
        proof {
            if self.idx < self.chunks@.len() {
                assert(self.remaining().len() > 0);
            }
        }
        self.idx == self.chunks.len()
    }

    /// Offers the unconsumed rest of the current region, a non-empty prefix of
    /// the remaining stream, without advancing the cursor.
    pub fn peek(&self) -> (r: &[u8])
        requires
            self.wf(),
            self.remaining().len() > 0,
        ensures
            r@.len() == self.region_len(),
            1 <= r@.len() <= self.remaining().len(),
            r@ == self.remaining().take(r@.len() as int),
    {
        proof {
            if self.idx >= self.chunks@.len() {
                assert(self.remaining().len() == 0);
            }
        }
        let chunk: &Vec<u8> = &self.chunks[self.idx];
        let r = vstd::slice::slice_subrange(chunk.as_slice(), self.off, chunk.len());
        proof {
            assert(r@ =~= self.chunks@[self.idx as int]@.skip(self.off as int));
            assert(r@ =~= self.remaining().take(r@.len() as int));
        }
        r
    }

    /// Copies the unconsumed bytes of the stream, in order, without advancing
    /// the cursor.
    pub fn remaining_bytes(&self) -> (r: Vec<u8>)
        requires
            self.wf(),
        ensures
            r@ == self.remaining(),
    {
        let mut out: Vec<u8> = Vec::new();
        let mut j: usize = self.idx;
        let mut k: usize = self.off;
        proof {
            assert(out@ + remaining_at(self.chunks@, j as int, k as int) =~= self.remaining());
        }
        while j < self.chunks.len()
            invariant
                self.wf(),
                self.idx <= j <= self.chunks@.len(),
                j < self.chunks@.len() ==> k <= self.chunks@[j as int]@.len(),
                out@ + remaining_at(self.chunks@, j as int, k as int) == self.remaining(),
            decreases
                    self.chunks@.len() - j,
                    self.chunks@[j as int]@.len() - k,
        {
            let ghost ch = self.chunks@;
            let ghost cj = ch[j as int]@;
            let chunk_len = self.chunks[j].len();
            if k < chunk_len {
                let b = self.chunks[j][k];
                out.push(b);
                proof {
                    assert(cj.skip(k as int) =~= seq![cj[k as int]] + cj.skip(k as int + 1));
                    assert((seq![cj[k as int]] + cj.skip(k as int + 1)) + flatten_from(
                        ch,
                        j as int + 1,
                    ) =~= seq![cj[k as int]] + (cj.skip(k as int + 1) + flatten_from(
                        ch,
                        j as int + 1,
                    )));
                    assert(out@ + remaining_at(ch, j as int, k as int + 1) =~= self.remaining());
                }
                k += 1;
            } else {
                proof {
                    assert(cj.skip(k as int) =~= Seq::<u8>::empty());
                    assert(remaining_at(ch, j as int, k as int) =~= flatten_from(ch, j as int + 1));
                    if j as int + 1 < ch.len() {
                        assert(ch[j as int + 1]@.skip(0) =~= ch[j as int + 1]@);
                        assert(remaining_at(ch, j as int + 1, 0) =~= flatten_from(
                            ch,
                            j as int + 1,
                        ));
                    } else {
                        assert(flatten_from(ch, j as int + 1) =~= Seq::<u8>::empty());
                    }
                }
                j += 1;
                k = 0;
            }
        }
        proof {
            assert(out@ + remaining_at(self.chunks@, j as int, k as int) =~= out@);
        }
        out
    }

    /// Advances the cursor past the first `n` bytes of the most recently
    /// peeked region; the bytes after them stay unconsumed.
    pub fn consume(&mut self, n: usize)
        requires
            old(self).wf(),
            n as int <= old(self).region_len(),
        ensures
            final(self).wf(),
            final(self).remaining() == old(self).remaining().skip(n as int),
            final(self).remaining().len() == old(self).remaining().len() - n,
    {
        if n == 0 {
            proof {
                assert(self.remaining().skip(0) =~= self.remaining());
            }
            return ;
        }
        let ghost old_chunks = self.chunks@;
        let ghost old_idx = self.idx as int;
        let ghost old_off = self.off as int;
        let num_chunks = self.chunks.len();
        let chunk_len = self.chunks[self.idx].len();
        self.off = self.off + n;
        if self.off == chunk_len {
            assert(self.idx < num_chunks);
            self.idx = self.idx + 1;
            self.off = 0;
        }
        proof {
            let cur = old_chunks[old_idx]@;
            assert(old(self).remaining() == cur.skip(old_off) + flatten_from(old_chunks, old_idx + 1));
            assert(cur.skip(old_off).len() == cur.len() - old_off);
            assert(old(self).remaining().skip(n as int) =~= cur.skip(old_off).skip(n as int)
                + flatten_from(old_chunks, old_idx + 1));
            if old_off + n < cur.len() {
                assert(cur.skip(old_off).skip(n as int) =~= cur.skip(old_off + n));
            } else {
                assert(cur.skip(old_off).skip(n as int) =~= Seq::<u8>::empty());
                assert(old(self).remaining().skip(n as int) =~= flatten_from(
                    old_chunks,
                    old_idx + 1,
                ));
                if old_idx + 1 < old_chunks.len() {
                    assert(old_chunks[old_idx + 1]@.skip(0) =~= old_chunks[old_idx + 1]@);
                    assert(self.remaining() =~= flatten_from(old_chunks, old_idx + 1));
                }
            }
        }
    }
}

} // verus!
