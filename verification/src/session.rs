//! One connection's decision logic: serving a structured request, and the
//! raw-stream session that pairs decoded matrices first-in first-out,
//! multiplies each pair, and produces the bytes of each reply.

use vstd::prelude::*;
use crate::matrix::{mat_mul, MatSpec, Matrix};
use crate::raw::{
    encode_matrix, group_words, lemma_group_words_bounds, mat_bytes, mats_abs, RawDecoder,
};
use crate::wire::{stream_rest, stream_words};

verus! {

/// Protocol violations. Each one terminates the connection: no reply is
/// sent and the peer must reconnect.
#[derive(Clone, Copy, Debug, PartialEq, Eq, Structural)]
pub enum ProtocolError {
    /// An operand was absent, or carried fewer values than its shape needs.
    MalformedRequest,
    /// The operands' inner dimensions disagree.
    DimensionMismatch,
    /// The product would not fit in this machine's address space.
    Oversized,
}

/// One matrix as carried in a structured message: a shape and a flat
/// row-major run of values.
pub struct WireMatrix {
    pub rows: u32,
    pub cols: u32,
    pub data: Vec<i32>,
}

impl WireMatrix {
    /// The matrix the message stands for: the first `rows * cols` values.
    pub open spec fn abs(self) -> MatSpec {
        MatSpec {
            rows: self.rows as int,
            cols: self.cols as int,
            data: self.data@.subrange(0, self.rows * self.cols),
        }
    }

    /// The message carries enough values for its shape.
    pub open spec fn complete(self) -> bool {
        self.data@.len() >= self.rows * self.cols
    }
}

/// A structured request: an opaque id echoed in the reply, and two operands.
pub struct MatrixRequest {
    pub id: u64,
    pub matrix1: Option<WireMatrix>,
    pub matrix2: Option<WireMatrix>,
}

/// A structured response: the request's id and the product.
pub struct MatrixResponse {
    pub id: u64,
    pub matrix: WireMatrix,
}

/// A structured request is served exactly when both operands are present,
/// each carries enough values for its shape, the inner dimensions agree,
/// and the product fits in this machine's address space.
pub open spec fn request_valid(r: MatrixRequest) -> bool {
    &&& r.matrix1 is Some
    &&& r.matrix2 is Some
    &&& r.matrix1->0.complete()
    &&& r.matrix2->0.complete()
    &&& r.matrix1->0.cols == r.matrix2->0.rows
    &&& (r.matrix1->0.rows) * (r.matrix2->0.cols) <= usize::MAX
}

/// Serve one structured request: build both operands, multiply them, and
/// echo the request's id. Succeeds exactly on valid requests; a malformed
/// operand is reported before a dimension mismatch, and that before an
/// oversized product.
pub fn handle_request(req: &MatrixRequest) -> (r: Result<MatrixResponse, ProtocolError>)
    ensures
        r is Ok <==> request_valid(*req),
        r is Err ==> r->Err_0 == (if !(req.matrix1 is Some) || !(req.matrix2 is Some)
            || !req.matrix1->0.complete() || !req.matrix2->0.complete() {
            ProtocolError::MalformedRequest
        } else if req.matrix1->0.cols != req.matrix2->0.rows {
            ProtocolError::DimensionMismatch
        } else {
            ProtocolError::Oversized
        }),
        r is Ok ==> ({
            let a = req.matrix1->0.abs();
            let b = req.matrix2->0.abs();
            &&& r->Ok_0.id == req.id
            &&& r->Ok_0.matrix.rows == a.rows
            &&& r->Ok_0.matrix.cols == b.cols
            &&& r->Ok_0.matrix.complete()
            &&& r->Ok_0.matrix.abs() == mat_mul(a, b)
        }),
{
    let m1 = match &req.matrix1 {
        Some(m) => m,
        None => {
            return Err(ProtocolError::MalformedRequest);
        },
    };
    let m2 = match &req.matrix2 {
        Some(m) => m,
        None => {
            return Err(ProtocolError::MalformedRequest);
        },
    };
    proof {
        assert((m1.rows as int) * (m1.cols as int) < 0x1_0000_0000_0000_0000
            && (m2.rows as int) * (m2.cols as int) < 0x1_0000_0000_0000_0000
            && (m1.rows as int) * (m2.cols as int) < 0x1_0000_0000_0000_0000)
            by (nonlinear_arith)
            requires
                m1.rows < 0x1_0000_0000,
                m1.cols < 0x1_0000_0000,
                m2.rows < 0x1_0000_0000,
                m2.cols < 0x1_0000_0000,
        ;
    }
    let n1: usize = m1.data.len();
    let n2: usize = m2.data.len();
    if (m1.rows as u64) * (m1.cols as u64) > (n1 as u64) || (m2.rows as u64) * (m2.cols as u64)
        > (n2 as u64) {
        return Err(ProtocolError::MalformedRequest);
    }
    if m1.cols != m2.rows {
        return Err(ProtocolError::DimensionMismatch);
    }
    if (m1.rows as u64) * (m2.cols as u64) > (usize::MAX as u64) {
        return Err(ProtocolError::Oversized);
    }
    let mut a = Matrix::new(m1.rows, m1.cols);
    let filled_a = a.fill(&m1.data, 0);
    let mut b = Matrix::new(m2.rows, m2.cols);
    let filled_b = b.fill(&m2.data, 0);
    proof {
        assert(filled_a is Ok && filled_b is Ok);
        assert(a.abs() == m1.abs());
        assert(b.abs() == m2.abs());
    }
    let c = match Matrix::multiply(&a, &b) {
        Ok(c) => c,
        Err(_) => {
            proof {
                assert(false);
            }
            return Err(ProtocolError::DimensionMismatch);
        },
    };
    let (cr, cc) = c.shape();
    let data = c.to_sequence();
    let matrix = WireMatrix { rows: cr, cols: cc, data };
    proof {
        assert(matrix.abs().data =~= c.abs().data);
        assert(matrix.abs() == mat_mul(m1.abs(), m2.abs()));
    }
    Ok(MatrixResponse { id: req.id, matrix })
}

/// The holding area of the structured sub-variant that sends each operand in
/// its own single-matrix message: the first completed matrix waits here for
/// its partner, and each completed pair is multiplied at once.
pub struct PairSlot {
    slot: Option<Matrix>,
}

impl PairSlot {
    /// The operand waiting for its partner, if any.
    pub closed spec fn slot_abs(self) -> Option<MatSpec> {
        match self.slot {
            Some(m) => Some(m.abs()),
            None => None,
        }
    }

    /// A held operand is always a well-formed matrix.
    pub closed spec fn wf(self) -> bool {
        match self.slot {
            Some(m) => m.wf(),
            None => true,
        }
    }

    /// An empty slot.
    pub fn new() -> (s: PairSlot)
        ensures
            s.wf(),
            s.slot_abs() is None,
    {
        PairSlot { slot: None }
    }

    /// Offer the matrix of one single-matrix message. The first of a pair is
    /// held and answered with nothing; the second completes the pair, and the
    /// product comes back in reply. Any error is a protocol violation that
    /// empties the slot; the caller closes the connection.
    pub fn offer(&mut self, w: &WireMatrix) -> (r: Result<Option<WireMatrix>, ProtocolError>)
        requires
            old(self).wf(),
        ensures
            final(self).wf(),
            !w.complete() ==> r == Err::<Option<WireMatrix>, ProtocolError>(
                ProtocolError::MalformedRequest,
            ) && final(self).slot_abs() == old(self).slot_abs(),
            w.complete() && old(self).slot_abs() is None ==> r == Ok::<Option<WireMatrix>,
                ProtocolError,
            >(None) && final(self).slot_abs() == Some(w.abs()),
            w.complete() && old(self).slot_abs() is Some ==> final(self).slot_abs() is None && ({
                let a = old(self).slot_abs()->0;
                let b = w.abs();
                if a.cols != b.rows {
                    r == Err::<Option<WireMatrix>, ProtocolError>(ProtocolError::DimensionMismatch)
                } else if a.rows * b.cols > usize::MAX {
                    r == Err::<Option<WireMatrix>, ProtocolError>(ProtocolError::Oversized)
                } else {
                    &&& r is Ok
                    &&& r->Ok_0 is Some
                    &&& (r->Ok_0->0).complete()
                    &&& (r->Ok_0->0).abs() == mat_mul(a, b)
                }
            }),
    {
        proof {
            assert((w.rows as int) * (w.cols as int) < 0x1_0000_0000_0000_0000)
                by (nonlinear_arith)
                requires
                    w.rows < 0x1_0000_0000,
                    w.cols < 0x1_0000_0000,
            ;
        }
        let n: usize = w.data.len();
        if (w.rows as u64) * (w.cols as u64) > (n as u64) {
            return Err(ProtocolError::MalformedRequest);
        }
        let mut b = Matrix::new(w.rows, w.cols);
        let filled = b.fill(&w.data, 0);
        proof {
            assert(filled is Ok);
            assert(b.abs() == w.abs());
        }
        let a = match self.slot.take() {
            None => {
                self.slot = Some(b);
                return Ok(None);
            },
            Some(a) => a,
        };
        let (ar, ac) = a.shape();
        let (br, bc) = b.shape();
        proof {
            assert((ar as int) * (bc as int) < 0x1_0000_0000_0000_0000) by (nonlinear_arith)
                requires
                    ar < 0x1_0000_0000,
                    bc < 0x1_0000_0000,
            ;
        }
        if (ar as u64) * (bc as u64) > (usize::MAX as u64) {
            if ac != br {
                return Err(ProtocolError::DimensionMismatch);
            }
            return Err(ProtocolError::Oversized);
        }
        let c = match Matrix::multiply(&a, &b) {
            Ok(c) => c,
            Err(_) => {
                return Err(ProtocolError::DimensionMismatch);
            },
        };
        let (cr, cc) = c.shape();
        let data = c.to_sequence();
        let out = WireMatrix { rows: cr, cols: cc, data };
        proof {
            assert(out.abs().data =~= c.abs().data);
        }
        Ok(Some(out))
    }
}

/// What a run of completed matrices does to a session: the reply bytes it
/// produces, the operand left holding, and whether a pair of incompatible
/// shapes closed the connection.
pub ghost struct Paired {
    pub out: Seq<u8>,
    pub slot: Option<MatSpec>,
    pub closed: bool,
}

/// Pair completed matrices first-in first-out against an optional held
/// operand. Each full pair is multiplied and its product encoded for the
/// raw wire; a pair of incompatible shapes — or one whose product exceeds
/// this machine's address space — closes the session with nothing more
/// written.
pub open spec fn pair_steps(slot: Option<MatSpec>, ms: Seq<MatSpec>) -> Paired
    decreases ms.len(),
{
    if ms.len() == 0 {
        Paired { out: Seq::empty(), slot, closed: false }
    } else if slot is None {
        pair_steps(Some(ms[0]), ms.skip(1))
    } else {
        let a = slot->0;
        let b = ms[0];
        if a.cols != b.rows || a.rows * b.cols > usize::MAX {
            Paired { out: Seq::empty(), slot: None, closed: true }
        } else {
            let tail = pair_steps(None, ms.skip(1));
            Paired {
                out: mat_bytes(mat_mul(a, b)) + tail.out,
                slot: tail.slot,
                closed: tail.closed,
            }
        }
    }
}

/// The externally visible states of a connection session. The work between
/// reading a pair and writing its reply happens within one call, so between
/// calls a session either awaits data or has terminated.
#[derive(Clone, Copy, Debug, PartialEq, Eq, Structural)]
pub enum SessionState {
    AwaitingData,
    Closed,
}

/// Law: pairing is incremental. Running the pair slot over a run of
/// matrices extended by further ones — as long as the first run alone does
/// not close the session — produces the first run's replies followed by the
/// extension's, with the held operand carried across the seam.
pub proof fn lemma_pair_steps_extend(slot: Option<MatSpec>, ms1: Seq<MatSpec>, ms2: Seq<MatSpec>)
    ensures
        ({
            let p1 = pair_steps(slot, ms1);
            let p2 = pair_steps(p1.slot, ms2);
            let p = pair_steps(slot, ms1 + ms2);
            !p1.closed ==> {
                &&& p.out == p1.out + p2.out
                &&& p.slot == p2.slot
                &&& p.closed == p2.closed
            }
        }),
    decreases ms1.len(),
{
    let p1 = pair_steps(slot, ms1);
    let p2 = pair_steps(p1.slot, ms2);
    let p = pair_steps(slot, ms1 + ms2);
    if ms1.len() == 0 {
        assert(ms1 + ms2 =~= ms2);
        if !p1.closed {
            assert(p.out =~= p1.out + p2.out);
        }
    } else {
        assert((ms1 + ms2)[0] == ms1[0]);
        assert((ms1 + ms2).skip(1) =~= ms1.skip(1) + ms2);
        if slot is None {
            lemma_pair_steps_extend(Some(ms1[0]), ms1.skip(1), ms2);
        } else {
            let a = slot->0;
            let b = ms1[0];
            if !(a.cols != b.rows || a.rows * b.cols > usize::MAX) {
                lemma_pair_steps_extend(None, ms1.skip(1), ms2);
                let tail1 = pair_steps(None, ms1.skip(1));
                if !p1.closed {
                    assert(mat_bytes(mat_mul(a, b)) + (tail1.out + p2.out) =~= (mat_bytes(
                        mat_mul(a, b),
                    ) + tail1.out) + p2.out);
                }
            }
        }
    }
}

/// Law: a raw session's replies are insensitive to how the byte stream is
/// chunked. Feeding `c1` and then `c2` yields the same reply bytes, in the
/// same order, and the same session state as feeding `c1 + c2` at once,
/// provided the first chunk alone leaves the session open — a closed
/// session consumes nothing further either way.
pub proof fn lemma_session_split(
    p: Seq<u8>,
    q: Seq<i32>,
    slot: Option<MatSpec>,
    c1: Seq<u8>,
    c2: Seq<u8>,
)
    ensures
        ({
            let w1 = stream_words(p + c1);
            let r1 = stream_rest(p + c1);
            let g1 = group_words(q + w1);
            let g2 = group_words(g1.rest + stream_words(r1 + c2));
            let g = group_words(q + stream_words(p + (c1 + c2)));
            let p1 = pair_steps(slot, g1.mats);
            let p2 = pair_steps(p1.slot, g2.mats);
            let pw = pair_steps(slot, g.mats);
            !p1.closed && !g1.violation ==> {
                &&& pw.out == p1.out + p2.out
                &&& pw.slot == p2.slot
                &&& pw.closed == p2.closed
                &&& g.rest == g2.rest
                &&& g.violation == g2.violation
            }
        }),
{
    crate::raw::lemma_reassembly_split(p, q, c1, c2);
    let w1 = stream_words(p + c1);
    let r1 = stream_rest(p + c1);
    let g1 = group_words(q + w1);
    let g2 = group_words(g1.rest + stream_words(r1 + c2));
    lemma_pair_steps_extend(slot, g1.mats, g2.mats);
}

/// One raw-stream connection: reassembles records, pairs them, and answers
/// each pair with the product's raw encoding, until the peer disconnects or
/// violates the protocol.
pub struct RawSession {
    dec: RawDecoder,
    slot: Option<Matrix>,
    closed: bool,
}

impl RawSession {
    /// The 0 to 3 buffered bytes that do not yet form a word.
    pub closed spec fn pending_bytes(self) -> Seq<u8> {
        self.dec.pending_bytes()
    }

    /// The decoded words not yet grouped into a complete record.
    pub closed spec fn queued_words(self) -> Seq<i32> {
        self.dec.queued_words()
    }

    /// The completed matrix waiting for its partner, if any.
    pub closed spec fn slot_abs(self) -> Option<MatSpec> {
        match self.slot {
            Some(m) => Some(m.abs()),
            None => None,
        }
    }

    /// Whether the session has reached its terminal state.
    pub closed spec fn is_closed(self) -> bool {
        self.closed
    }

    /// The reassembler never buffers a whole word, and a held operand is a
    /// well-formed matrix whose dimensions came from non-negative words.
    pub closed spec fn wf(self) -> bool {
        &&& self.dec.wf()
        &&& match self.slot {
            Some(m) => m.wf() && m.abs().rows < 0x8000_0000 && m.abs().cols < 0x8000_0000,
            None => true,
        }
    }

    /// A fresh session, awaiting data.
    pub fn new() -> (s: RawSession)
        ensures
            s.wf(),
            !s.is_closed(),
            s.pending_bytes() == Seq::<u8>::empty(),
            s.queued_words() == Seq::<i32>::empty(),
            s.slot_abs() is None,
    {
        RawSession { dec: RawDecoder::new(), slot: None, closed: false }
    }

    /// Feed the bytes of one read. Returns the bytes to write back: the raw
    /// encoding of one product per completed pair, in arrival order. A
    /// negative dimension or an incompatible pair closes the session; a
    /// closed session consumes nothing and answers nothing.
    pub fn on_bytes(&mut self, chunk: &Vec<u8>) -> (out: Vec<u8>)
        requires
            old(self).wf(),
        ensures
            final(self).wf(),
            old(self).is_closed() ==> *final(self) == *old(self) && out@ == Seq::<u8>::empty(),
            !old(self).is_closed() ==> ({
                let ws = old(self).queued_words() + stream_words(
                    old(self).pending_bytes() + chunk@,
                );
                let g = group_words(ws);
                let p = pair_steps(old(self).slot_abs(), g.mats);
                &&& out@ == p.out
                &&& final(self).is_closed() == (p.closed || g.violation)
                &&& (!final(self).is_closed() ==> {
                    &&& final(self).slot_abs() == p.slot
                    &&& final(self).pending_bytes() == stream_rest(
                        old(self).pending_bytes() + chunk@,
                    )
                    &&& final(self).queued_words() == g.rest
                })
            }),
    {
        if self.closed {
            return Vec::new();
        }
        let ghost ws = self.dec.queued_words() + stream_words(self.dec.pending_bytes() + chunk@);
        let ghost g = group_words(ws);
        let ghost p0 = pair_steps(self.slot_abs(), g.mats);
        let (mut mats, violation) = self.dec.push_bytes(chunk);
        proof {
            lemma_group_words_bounds(ws);
            assert forall|n: int|
                0 <= n < mats@.len() implies (#[trigger] mats@[n]).wf() && mats@[n].abs().rows
                < 0x8000_0000 && mats@[n].abs().cols < 0x8000_0000 by {
                assert(mats_abs(mats@)[n] == mats@[n].abs());
                assert(group_words(ws).mats[n] == mats@[n].abs());
            }
        }
        let mut out: Vec<u8> = Vec::new();
        let mut done: bool = false;
        proof {
            assert(out@ + p0.out =~= p0.out);
        }
        while !done
            invariant
                self.dec.wf(),
                self.dec.pending_bytes() == stream_rest(old(self).pending_bytes() + chunk@),
                self.dec.queued_words() == g.rest,
                g == group_words(ws),
                p0 == pair_steps(old(self).slot_abs(), g.mats),
                forall|n: int|
                    0 <= n < mats@.len() ==> (#[trigger] mats@[n]).wf()
                        && mats@[n].abs().rows < 0x8000_0000 && mats@[n].abs().cols
                        < 0x8000_0000,
                (match self.slot {
                    Some(m) => m.wf() && m.abs().rows < 0x8000_0000 && m.abs().cols
                        < 0x8000_0000,
                    None => true,
                }),
                !done ==> !self.closed && ({
                    let pcur = pair_steps(self.slot_abs(), mats_abs(mats@));
                    &&& p0.out == out@ + pcur.out
                    &&& p0.slot == pcur.slot
                    &&& p0.closed == pcur.closed
                }),
                done ==> out@ == p0.out,
                done && self.closed ==> p0.closed,
                done && !self.closed ==> !p0.closed && p0.slot == self.slot_abs(),
            decreases mats@.len(), (if done { 0int } else { 1int }),
        {
            if mats.len() == 0 {
                done = true;
            } else {
                let ghost mb = mats@;
                let m = mats.remove(0);
                proof {
                    assert(mats@ =~= mb.skip(1));
                    assert(mats_abs(mb)[0] == m.abs());
                    assert(mats_abs(mb).skip(1) =~= mats_abs(mats@));
                }
                if self.slot.is_none() {
                    self.slot = Some(m);
                } else {
                    let a = self.slot.take().unwrap();
                    let (ar, ac) = a.shape();
                    let (br, bc) = m.shape();
                    proof {
                        assert((ar as int) * (bc as int) < 0x4000_0000_0000_0000)
                            by (nonlinear_arith)
                            requires
                                ar < 0x8000_0000,
                                bc < 0x8000_0000,
                        ;
                    }
                    if ac != br || (ar as u64) * (bc as u64) > (usize::MAX as u64) {
                        self.closed = true;
                        done = true;
                        proof {
                            assert(pair_steps(Some(a.abs()), mats_abs(mb)).out
                                == Seq::<u8>::empty());
                            assert(out@ + Seq::<u8>::empty() =~= out@);
                        }
                    } else {
                        let c = match Matrix::multiply(&a, &m) {
                            Ok(c) => c,
                            Err(_) => {
                                proof {
                                    assert(false);
                                }
                                return Vec::new();
                            },
                        };
                        let mut enc = encode_matrix(&c);
                        let ghost outb = out@;
                        out.append(&mut enc);
                        proof {
                            let aabs = a.abs();
                            let babs = m.abs();
                            let tail = pair_steps(None, mats_abs(mats@));
                            assert(pair_steps(Some(aabs), mats_abs(mb)).out == mat_bytes(
                                mat_mul(aabs, babs),
                            ) + tail.out);
                            assert(outb + (mat_bytes(mat_mul(aabs, babs)) + tail.out) =~= (outb
                                + mat_bytes(mat_mul(aabs, babs))) + tail.out);
                        }
                    }
                }
            }
        }
        if violation && !self.closed {
            self.closed = true;
        }
        out
    }

    /// The state the session is in between calls.
    pub fn state(&self) -> (s: SessionState)
        ensures
            s == (if self.is_closed() {
                SessionState::Closed
            } else {
                SessionState::AwaitingData
            }),
    {
        if self.closed {
            SessionState::Closed
        } else {
            SessionState::AwaitingData
        }
    }

    /// The peer disconnected, or transport failed: reach the terminal state.
    /// Anything half-received is discarded without a reply.
    pub fn close(&mut self)
        requires
            old(self).wf(),
        ensures
            final(self).wf(),
            final(self).is_closed(),
    {
        self.closed = true;
    }
}

} // verus!
