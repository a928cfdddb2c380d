//! Reassembly of the raw wire variant: a flat stream of big-endian 32-bit
//! signed words, arriving in arbitrarily sized chunks, grouped into
//! `[rows][cols][rows*cols values]` records, each yielding one matrix.

use vstd::prelude::*;
use crate::matrix::{MatSpec, Matrix};
use crate::wire::{
    i32_from_be, lemma_stream_chunking, lemma_words_bytes_push, push_word_be, stream_rest,
    stream_words, words_bytes,
};

verus! {

/// What grouping a run of decoded words yields: the complete matrices at the
/// front, the trailing words that do not yet form a complete record, and
/// whether a record header held a negative dimension (a protocol violation).
pub ghost struct Grouped {
    pub mats: Seq<MatSpec>,
    pub rest: Seq<i32>,
    pub violation: bool,
}

/// Group a run of words into matrices, front to back. A record is `[rows]`
/// `[cols]` followed by `rows * cols` row-major values. Grouping stops at the
/// first incomplete record — the expected steady state, not an error — or at
/// a header with a negative dimension.
pub open spec fn group_words(q: Seq<i32>) -> Grouped
    decreases q.len(),
{
    if q.len() < 2 {
        Grouped { mats: Seq::empty(), rest: q, violation: false }
    } else if q[0] < 0 || q[1] < 0 {
        Grouped { mats: Seq::empty(), rest: q, violation: true }
    } else if q.len() < 2 + q[0] * q[1] {
        Grouped { mats: Seq::empty(), rest: q, violation: false }
    } else {
        let m = MatSpec {
            rows: q[0] as int,
            cols: q[1] as int,
            data: q.subrange(2, 2 + q[0] * q[1]),
        };
        let tail = group_words(q.skip(2 + q[0] * q[1]));
        Grouped { mats: seq![m] + tail.mats, rest: tail.rest, violation: tail.violation }
    }
}

/// Law: grouping is incremental. Grouping a queue extended by further words
/// yields the matrices of the queue alone, followed by those of its leftover
/// words joined with the extension; the leftover and the violation flag
/// carry over the same way.
pub proof fn lemma_group_words_extend(q: Seq<i32>, extra: Seq<i32>)
    ensures
        ({
            let g1 = group_words(q);
            let g2 = group_words(g1.rest + extra);
            let g = group_words(q + extra);
            &&& g.mats == g1.mats + g2.mats
            &&& g.rest == g2.rest
            &&& g.violation == (g1.violation || g2.violation)
        }),
    decreases q.len(),
{
    let g1 = group_words(q);
    let g2 = group_words(g1.rest + extra);
    let g = group_words(q + extra);
    if q.len() < 2 || (q.len() >= 2 && (q[0] < 0 || q[1] < 0)) || (q.len() >= 2 && q[0] >= 0
        && q[1] >= 0 && q.len() < 2 + q[0] * q[1]) {
        assert(g1.rest + extra =~= q + extra);
        assert(g.mats =~= g1.mats + g2.mats);
    } else {
        let n = 2 + q[0] * q[1];
        let tail1 = group_words(q.skip(n));
        assert((q + extra).subrange(2, n) =~= q.subrange(2, n));
        assert((q + extra).skip(n) =~= q.skip(n) + extra);
        lemma_group_words_extend(q.skip(n), extra);
        assert(g.mats =~= g1.mats + g2.mats);
    }
}

/// Law: what a decoder yields is insensitive to how the byte stream is
/// chunked. Feeding `c1` and then `c2` — grouping after each — yields the
/// same matrices, in the same order, and the same final state, as feeding
/// `c1 + c2` at once, whatever bytes `p` and words `q` were already held.
pub proof fn lemma_reassembly_split(p: Seq<u8>, q: Seq<i32>, c1: Seq<u8>, c2: Seq<u8>)
    ensures
        ({
            let w1 = stream_words(p + c1);
            let r1 = stream_rest(p + c1);
            let g1 = group_words(q + w1);
            let g2 = group_words(g1.rest + stream_words(r1 + c2));
            let g = group_words(q + stream_words(p + (c1 + c2)));
            &&& g.mats == g1.mats + g2.mats
            &&& g.rest == g2.rest
            &&& g.violation == (g1.violation || g2.violation)
            &&& stream_rest(p + (c1 + c2)) == stream_rest(r1 + c2)
        }),
{
    let w1 = stream_words(p + c1);
    let r1 = stream_rest(p + c1);
    let extra = stream_words(r1 + c2);
    lemma_stream_chunking(p + c1, c2);
    assert((p + c1) + c2 =~= p + (c1 + c2));
    lemma_group_words_extend(q + w1, extra);
    assert((q + w1) + extra =~= q + (w1 + extra));
    assert(q + stream_words(p + (c1 + c2)) =~= (q + w1) + extra);
}

/// Every matrix that grouping yields is well formed, with dimensions taken
/// from non-negative 32-bit words.
pub proof fn lemma_group_words_bounds(q: Seq<i32>)
    ensures
        forall|n: int|
            0 <= n < group_words(q).mats.len() ==> {
                let m = #[trigger] group_words(q).mats[n];
                &&& 0 <= m.rows < 0x8000_0000
                &&& 0 <= m.cols < 0x8000_0000
                &&& m.wf()
            },
    decreases q.len(),
{
    let g = group_words(q);
    if q.len() >= 2 && q[0] >= 0 && q[1] >= 0 && q.len() >= 2 + q[0] * q[1] {
        lemma_group_words_bounds(q.skip(2 + q[0] * q[1]));
        assert forall|n: int| 0 <= n < g.mats.len() implies {
            let m = #[trigger] g.mats[n];
            &&& 0 <= m.rows < 0x8000_0000
            &&& 0 <= m.cols < 0x8000_0000
            &&& m.wf()
        } by {
            if n > 0 {
                assert(g.mats[n] == group_words(q.skip(2 + q[0] * q[1])).mats[n - 1]);
            }
        }
    }
}

/// The raw wire encoding of one matrix: the big-endian words `rows`, `cols`,
/// then the row-major values.
pub open spec fn mat_bytes(m: MatSpec) -> Seq<u8> {
    words_bytes(seq![m.rows as i32, m.cols as i32] + m.data)
}

/// Encode a matrix for the raw wire variant.
pub fn encode_matrix(m: &Matrix) -> (r: Vec<u8>)
    requires
        m.wf(),
        m.abs().rows < 0x8000_0000,
        m.abs().cols < 0x8000_0000,
    ensures
        r@ == mat_bytes(m.abs()),
{
    let (rows, cols) = m.shape();
    let data = m.to_sequence();
    let ghost hdr = seq![rows as i32, cols as i32];
    let mut out: Vec<u8> = Vec::new();
    push_word_be(&mut out, rows as i32);
    push_word_be(&mut out, cols as i32);
    proof {
        lemma_words_bytes_push(Seq::<i32>::empty(), rows as i32);
        lemma_words_bytes_push(Seq::<i32>::empty().push(rows as i32), cols as i32);
        assert(Seq::<i32>::empty().push(rows as i32).push(cols as i32) =~= hdr);
        assert(words_bytes(Seq::<i32>::empty()) == Seq::<u8>::empty());
        assert(out@ =~= words_bytes(hdr));
        assert(hdr + data@.subrange(0, 0) =~= hdr);
    }
    let mut t: usize = 0;
    while t < data.len()
        invariant
            t <= data@.len(),
            data@ == m@,
            out@ == words_bytes(hdr + data@.subrange(0, t as int)),
        decreases data@.len() - t,
    {
        push_word_be(&mut out, data[t]);
        proof {
            lemma_words_bytes_push(hdr + data@.subrange(0, t as int), data@[t as int]);
            assert((hdr + data@.subrange(0, t as int)).push(data@[t as int]) =~= hdr
                + data@.subrange(0, t + 1));
        }
        t = t + 1;
    }
    proof {
        assert(hdr + data@.subrange(0, data@.len() as int) =~= hdr + m@);
        assert(out@ == mat_bytes(m.abs()));
    }
    out
}

/// The mathematical content of each matrix in a run, in order.
pub open spec fn mats_abs(ms: Seq<Matrix>) -> Seq<MatSpec> {
    ms.map_values(|m: Matrix| m.abs())
}

/// Reassembler for the raw wire variant. Bytes go in; completed matrices
/// come out; the incomplete trailing word and the words of an incomplete
/// record are retained for the next chunk.
pub struct RawDecoder {
    pending: Vec<u8>,
    queue: Vec<i32>,
}

impl RawDecoder {
    /// The 0 to 3 buffered bytes that do not yet form a word.
    pub closed spec fn pending_bytes(self) -> Seq<u8> {
        self.pending@
    }

    /// The decoded words not yet grouped into a complete record.
    pub closed spec fn queued_words(self) -> Seq<i32> {
        self.queue@
    }

    /// The buffered tail never reaches a whole word.
    pub open spec fn wf(self) -> bool {
        self.pending_bytes().len() < 4
    }

    /// A fresh reassembler with nothing buffered.
    pub fn new() -> (d: RawDecoder)
        ensures
            d.wf(),
            d.pending_bytes() == Seq::<u8>::empty(),
            d.queued_words() == Seq::<i32>::empty(),
    {
        RawDecoder { pending: Vec::new(), queue: Vec::new() }
    }

    /// Absorb a newly arrived chunk: decode every completed word onto the
    /// queue, keep the incomplete tail.
    fn absorb(&mut self, chunk: &Vec<u8>)
        requires
            old(self).wf(),
        ensures
            final(self).wf(),
            final(self).queued_words() == old(self).queued_words() + stream_words(
                old(self).pending_bytes() + chunk@,
            ),
            final(self).pending_bytes() == stream_rest(old(self).pending_bytes() + chunk@),
    {
        let mut all: Vec<u8> = Vec::new();
        let mut t: usize = 0;
        while t < self.pending.len()
            invariant
                t <= self.pending@.len(),
                self == old(self),
                all@ == self.pending@.subrange(0, t as int),
            decreases self.pending@.len() - t,
        {
            all.push(self.pending[t]);
            proof {
                assert(all@ =~= self.pending@.subrange(0, t + 1));
            }
            t = t + 1;
        }
        proof {
            assert(all@ =~= self.pending@);
        }
        let mut u: usize = 0;
        while u < chunk.len()
            invariant
                u <= chunk@.len(),
                self == old(self),
                all@ == self.pending@ + chunk@.subrange(0, u as int),
            decreases chunk@.len() - u,
        {
            all.push(chunk[u]);
            proof {
                assert(all@ =~= self.pending@ + chunk@.subrange(0, u + 1));
            }
            u = u + 1;
        }
        proof {
            assert(all@ =~= self.pending@ + chunk@);
            assert(all@.skip(0) =~= all@);
        }
        // the byte count fits a usize, so word offsets into it do too
        let _len: usize = all.len();
        let mut idx: usize = 0;
        while all.len() - idx >= 4
            invariant
                idx <= all@.len(),
                all@.len() <= usize::MAX,
                self.pending@ == old(self).pending@,
                old(self).queue@ + stream_words(all@) == self.queue@ + stream_words(
                    all@.skip(idx as int),
                ),
                stream_rest(all@) == stream_rest(all@.skip(idx as int)),
            decreases all@.len() - idx,
        {
            let w: i32 = i32_from_be(all[idx], all[idx + 1], all[idx + 2], all[idx + 3]);
            self.queue.push(w);
            proof {
                let s = all@.skip(idx as int);
                assert(s.skip(4) =~= all@.skip(idx as int + 4));
                assert(stream_words(s) == seq![w] + stream_words(s.skip(4)));
                assert(old(self).queue@ + stream_words(all@) =~= self.queue@ + stream_words(
                    all@.skip(idx as int + 4),
                ));
            }
            idx = idx + 4;
        }
        let mut rest: Vec<u8> = Vec::new();
        let mut v: usize = idx;
        while v < all.len()
            invariant
                idx <= v <= all@.len(),
                rest@ == all@.subrange(idx as int, v as int),
            decreases all@.len() - v,
        {
            rest.push(all[v]);
            proof {
                assert(rest@ =~= all@.subrange(idx as int, v + 1));
            }
            v = v + 1;
        }
        proof {
            assert(rest@ =~= all@.skip(idx as int));
        }
        self.pending = rest;
        proof {
            assert(self.queue@ =~= old(self).queue@ + stream_words(all@));
        }
    }

    /// Pull every complete record off the queue, in order.
    fn extract(&mut self) -> (r: (Vec<Matrix>, bool))
        requires
            old(self).wf(),
        ensures
            final(self).wf(),
            final(self).pending_bytes() == old(self).pending_bytes(),
            ({
                let g = group_words(old(self).queued_words());
                &&& final(self).queued_words() == g.rest
                &&& mats_abs(r.0@) == g.mats
                &&& (forall|n: int| 0 <= n < r.0@.len() ==> #[trigger] r.0@[n].wf())
                &&& r.1 == g.violation
            }),
    {
        let mut mats: Vec<Matrix> = Vec::new();
        let mut violation: bool = false;
        let mut done: bool = false;
        while !done
            invariant
                self.wf(),
                self.pending_bytes() == old(self).pending_bytes(),
                forall|n: int| 0 <= n < mats@.len() ==> #[trigger] mats@[n].wf(),
                ({
                    let g0 = group_words(old(self).queued_words());
                    let g = group_words(self.queued_words());
                    &&& !done ==> {
                        &&& g0.mats == mats_abs(mats@) + g.mats
                        &&& g0.rest == g.rest
                        &&& g0.violation == g.violation
                        &&& violation == false
                    }
                    &&& done ==> {
                        &&& g0.mats == mats_abs(mats@)
                        &&& g0.rest == self.queued_words()
                        &&& g0.violation == violation
                    }
                }),
            decreases self.queue@.len(), (if done { 0int } else { 1int }),
        {
            if self.queue.len() < 2 {
                done = true;
                proof {
                    assert(group_words(old(self).queued_words()).mats =~= mats_abs(mats@));
                }
            } else {
                let rw: i32 = self.queue[0];
                let cw: i32 = self.queue[1];
                if rw < 0 || cw < 0 {
                    violation = true;
                    done = true;
                    proof {
                        assert(group_words(old(self).queued_words()).mats =~= mats_abs(mats@));
                    }
                } else {
                    proof {
                        assert((rw as int) * (cw as int) < 0x4000_0000_0000_0000
                            && (rw as int) * (cw as int) >= 0) by (nonlinear_arith)
                            requires
                                0 <= rw < 0x8000_0000,
                                0 <= cw < 0x8000_0000,
                        ;
                    }
                    let ne: u64 = (rw as u64) * (cw as u64);
                    if (self.queue.len() as u64) < 2u64 + ne {
                        done = true;
                        proof {
                            assert(group_words(old(self).queued_words()).mats =~= mats_abs(
                                mats@,
                            ));
                        }
                    } else {
                        let rc: usize = ne as usize;
                        let mut m = Matrix::new(rw as u32, cw as u32);
                        let filled = m.fill(&self.queue, 2);
                        proof {
                            assert(filled is Ok);
                        }
                        mats.push(m);
                        let mut q2: Vec<i32> = Vec::new();
                        let mut t2: usize = 2 + rc;
                        while t2 < self.queue.len()
                            invariant
                                2 + rc <= t2 <= self.queue@.len(),
                                self.queue@.len() <= usize::MAX,
                                q2@ == self.queue@.subrange(2 + rc as int, t2 as int),
                            decreases self.queue@.len() - t2,
                        {
                            q2.push(self.queue[t2]);
                            proof {
                                assert(q2@ =~= self.queue@.subrange(2 + rc as int, t2 + 1));
                            }
                            t2 = t2 + 1;
                        }
                        proof {
                            assert(q2@ =~= self.queue@.skip(2 + rc as int));
                        }
                        let ghost qbefore = self.queue@;
                        self.queue = q2;
                        proof {
                            let gb = group_words(qbefore);
                            let ga = group_words(self.queue@);
                            assert(m.abs().data =~= qbefore.subrange(2, 2 + qbefore[0] * qbefore[1]));
                            assert(gb.mats == seq![m.abs()] + ga.mats);
                            assert(mats_abs(mats@) =~= mats_abs(mats@.drop_last()) + seq![
                                m.abs(),
                            ]);
                            assert(mats_abs(mats@.drop_last()) + (seq![m.abs()] + ga.mats) =~= (
                            mats_abs(mats@.drop_last()) + seq![m.abs()]) + ga.mats);
                        }
                    }
                }
            }
        }
        (mats, violation)
    }

    /// Feed newly arrived bytes. Returns the matrices completed by them, in
    /// arrival order, and whether a record header held a negative dimension,
    /// in which case the caller must treat the stream as violated.
    pub fn push_bytes(&mut self, chunk: &Vec<u8>) -> (r: (Vec<Matrix>, bool))
        requires
            old(self).wf(),
        ensures
            final(self).wf(),
            ({
                let ws = old(self).queued_words() + stream_words(
                    old(self).pending_bytes() + chunk@,
                );
                let g = group_words(ws);
                &&& final(self).pending_bytes() == stream_rest(old(self).pending_bytes() + chunk@)
                &&& final(self).queued_words() == g.rest
                &&& mats_abs(r.0@) == g.mats
                &&& (forall|n: int| 0 <= n < r.0@.len() ==> #[trigger] r.0@[n].wf())
                &&& r.1 == g.violation
            }),
    {
        self.absorb(chunk);
        self.extract()
    }
}

} // verus!
