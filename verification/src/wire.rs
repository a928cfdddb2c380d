//! Big-endian 32-bit words on the wire: byte-level encoding and decoding,
//! and the meaning of an arbitrarily chunked stream of such words.

use vstd::prelude::*;

verus! {

/// The unsigned value of four bytes read big-endian.
pub open spec fn be_u32_value(b0: u8, b1: u8, b2: u8, b3: u8) -> int {
    b0 * 0x100_0000 + b1 * 0x1_0000 + b2 * 0x100 + b3
}

/// The two's-complement signed value of four bytes read big-endian.
pub open spec fn be_i32_value(b0: u8, b1: u8, b2: u8, b3: u8) -> int {
    let u = be_u32_value(b0, b1, b2, b3);
    if u >= 0x8000_0000 {
        u - 0x1_0000_0000
    } else {
        u
    }
}

/// The four big-endian bytes of the 32-bit word that stores `v`.
pub open spec fn word_bytes(v: i32) -> Seq<u8> {
    let u = if v < 0 {
        v + 0x1_0000_0000
    } else {
        v as int
    };
    seq![
        (u / 0x100_0000) as u8,
        ((u / 0x1_0000) % 0x100) as u8,
        ((u / 0x100) % 0x100) as u8,
        (u % 0x100) as u8,
    ]
}

/// The big-endian bytes of a run of 32-bit words, in order.
pub open spec fn words_bytes(ws: Seq<i32>) -> Seq<u8>
    decreases ws.len(),
{
    if ws.len() == 0 {
        Seq::empty()
    } else {
        word_bytes(ws[0]) + words_bytes(ws.skip(1))
    }
}

/// The completed 32-bit signed words at the front of a byte stream.
pub open spec fn stream_words(s: Seq<u8>) -> Seq<i32>
    decreases s.len(),
{
    if s.len() < 4 {
        Seq::empty()
    } else {
        seq![be_i32_value(s[0], s[1], s[2], s[3]) as i32] + stream_words(s.skip(4))
    }
}

/// The 0 to 3 trailing bytes of a byte stream that do not yet form a word.
pub open spec fn stream_rest(s: Seq<u8>) -> Seq<u8>
    decreases s.len(),
{
    if s.len() < 4 {
        s
    } else {
        stream_rest(s.skip(4))
    }
}

/// Decode a 32-bit big-endian unsigned integer from four bytes.
pub fn u32_from_be(b0: u8, b1: u8, b2: u8, b3: u8) -> (v: u32)
    ensures
        v == be_u32_value(b0, b1, b2, b3),
{
    (b0 as u32) * 0x100_0000 + (b1 as u32) * 0x1_0000 + (b2 as u32) * 0x100 + (b3 as u32)
}

/// Decode a 32-bit big-endian signed integer from four bytes.
pub fn i32_from_be(b0: u8, b1: u8, b2: u8, b3: u8) -> (v: i32)
    ensures
        v == be_i32_value(b0, b1, b2, b3),
{
    let u: u32 = u32_from_be(b0, b1, b2, b3);
    if u >= 0x8000_0000 {
        let d: i64 = (u as i64) - 0x1_0000_0000;
        d as i32
    } else {
        u as i32
    }
}

/// Encode a 32-bit unsigned integer as four big-endian bytes.
pub fn u32_to_be(v: u32) -> (r: (u8, u8, u8, u8))
    ensures
        r.0 == v as int / 0x100_0000,
        r.1 == (v as int / 0x1_0000) % 0x100,
        r.2 == (v as int / 0x100) % 0x100,
        r.3 == v as int % 0x100,
        be_u32_value(r.0, r.1, r.2, r.3) == v,
{
    proof {
        assert(v / 0x100_0000 < 0x100 && (v / 0x100_0000) * 0x100_0000 + ((v / 0x1_0000) % 0x100)
            * 0x1_0000 + ((v / 0x100) % 0x100) * 0x100 + v % 0x100 == v) by (bit_vector);
    }
    let b0 = (v / 0x100_0000) as u8;
    let b1 = ((v / 0x1_0000) % 0x100) as u8;
    let b2 = ((v / 0x100) % 0x100) as u8;
    let b3 = (v % 0x100) as u8;
    (b0, b1, b2, b3)
}

/// Encode a 32-bit signed integer as the four big-endian bytes of its
/// two's-complement word.
pub fn i32_to_be(v: i32) -> (r: (u8, u8, u8, u8))
    ensures
        seq![r.0, r.1, r.2, r.3] == word_bytes(v),
        be_i32_value(r.0, r.1, r.2, r.3) == v,
{
    let u: u32 = if v >= 0 {
        v as u32
    } else {
        ((v as i64) + 0x1_0000_0000) as u32
    };
    let r = u32_to_be(u);
    proof {
        assert(seq![r.0, r.1, r.2, r.3] =~= word_bytes(v));
    }
    r
}

/// Append the four big-endian bytes of `v` to `out`.
pub fn push_word_be(out: &mut Vec<u8>, v: i32)
    ensures
        final(out)@ == old(out)@ + word_bytes(v),
{
    let (b0, b1, b2, b3) = i32_to_be(v);
    out.push(b0);
    out.push(b1);
    out.push(b2);
    out.push(b3);
    proof {
        assert(out@ =~= old(out)@ + word_bytes(v));
    }
}

/// The four big-endian bytes of a 32-bit unsigned value, used as the length
/// prefix of a structured frame.
pub open spec fn u32_bytes(u: int) -> Seq<u8> {
    seq![
        (u / 0x100_0000) as u8,
        ((u / 0x1_0000) % 0x100) as u8,
        ((u / 0x100) % 0x100) as u8,
        (u % 0x100) as u8,
    ]
}

/// The bytes of one structured frame: a 4-byte big-endian length followed by
/// exactly that many payload bytes.
pub open spec fn frame_bytes(payload: Seq<u8>) -> Seq<u8> {
    u32_bytes(payload.len() as int) + payload
}

/// Wrap a structured payload in its length-prefixed frame.
pub fn encode_frame(payload: &Vec<u8>) -> (r: Vec<u8>)
    requires
        payload@.len() <= u32::MAX,
    ensures
        r@ == frame_bytes(payload@),
{
    let len: u32 = payload.len() as u32;
    let (b0, b1, b2, b3) = u32_to_be(len);
    let mut r: Vec<u8> = Vec::new();
    r.push(b0);
    r.push(b1);
    r.push(b2);
    r.push(b3);
    let mut t: usize = 0;
    while t < payload.len()
        invariant
            t <= payload@.len(),
            r@ == u32_bytes(payload@.len() as int) + payload@.subrange(0, t as int),
        decreases payload@.len() - t,
    {
        r.push(payload[t]);
        proof {
            assert(r@ =~= u32_bytes(payload@.len() as int) + payload@.subrange(0, t + 1));
        }
        t = t + 1;
    }
    proof {
        assert(r@ =~= frame_bytes(payload@));
    }
    r
}

/// The length prefix of a frame reads back as the payload's length.
pub proof fn lemma_u32_bytes_value(u: int)
    requires
        0 <= u <= u32::MAX,
    ensures
        u32_bytes(u).len() == 4,
        be_u32_value(u32_bytes(u)[0], u32_bytes(u)[1], u32_bytes(u)[2], u32_bytes(u)[3]) == u,
{
    let uu = u as u32;
    assert(uu / 0x100_0000 < 0x100 && (uu / 0x100_0000) * 0x100_0000 + ((uu / 0x1_0000) % 0x100)
        * 0x1_0000 + ((uu / 0x100) % 0x100) * 0x100 + uu % 0x100 == uu) by (bit_vector);
}

/// Law: a frame opens with its payload's length, read back big-endian, and
/// carries the payload itself unchanged after the prefix.
pub proof fn lemma_frame_round_trip(payload: Seq<u8>)
    requires
        payload.len() <= u32::MAX,
    ensures
        ({
            let f = frame_bytes(payload);
            &&& f.len() == 4 + payload.len()
            &&& be_u32_value(f[0], f[1], f[2], f[3]) == payload.len()
            &&& f.skip(4) == payload
        }),
{
    lemma_u32_bytes_value(payload.len() as int);
    assert(frame_bytes(payload).skip(4) =~= payload);
}

/// Law: appending one word to a run appends its four bytes to the encoding.
pub proof fn lemma_words_bytes_push(ws: Seq<i32>, v: i32)
    ensures
        words_bytes(ws.push(v)) == words_bytes(ws) + word_bytes(v),
    decreases ws.len(),
{
    if ws.len() == 0 {
        assert(ws.push(v).skip(1) =~= Seq::<i32>::empty());
        assert(words_bytes(ws.push(v)) == word_bytes(v) + words_bytes(ws.push(v).skip(1)));
        assert(words_bytes(ws.push(v).skip(1)) == Seq::<u8>::empty());
        assert(words_bytes(ws) == Seq::<u8>::empty());
        assert(words_bytes(ws.push(v)) =~= words_bytes(ws) + word_bytes(v));
    } else {
        assert(ws.push(v).skip(1) =~= ws.skip(1).push(v));
        lemma_words_bytes_push(ws.skip(1), v);
        assert(words_bytes(ws.push(v)) == word_bytes(ws[0]) + (words_bytes(ws.skip(1))
            + word_bytes(v)));
        assert(word_bytes(ws[0]) + (words_bytes(ws.skip(1)) + word_bytes(v)) =~= (word_bytes(
            ws[0],
        ) + words_bytes(ws.skip(1))) + word_bytes(v));
    }
}

/// Law: a byte stream assembled from any two pieces decodes as the words of
/// the first piece followed by the words of its leftover bytes joined with
/// the second piece, and the leftover bytes carry over the same way. Hence
/// decoding is insensitive to where a stream is split into chunks.
pub proof fn lemma_stream_chunking(s: Seq<u8>, t: Seq<u8>)
    ensures
        stream_words(s + t) == stream_words(s) + stream_words(stream_rest(s) + t),
        stream_rest(s + t) == stream_rest(stream_rest(s) + t),
    decreases s.len(),
{
    if s.len() < 4 {
        assert(stream_rest(s) + t =~= s + t);
        assert(stream_words(s + t) =~= stream_words(s) + stream_words(stream_rest(s) + t));
    } else {
        assert((s + t).skip(4) =~= s.skip(4) + t);
        lemma_stream_chunking(s.skip(4), t);
        assert(stream_words(s + t) =~= stream_words(s) + stream_words(stream_rest(s) + t));
    }
}

/// Law: the encoding of a run of words decodes back to exactly those words,
/// with no leftover bytes.
pub proof fn lemma_words_round_trip(ws: Seq<i32>)
    ensures
        stream_words(words_bytes(ws)) == ws,
        stream_rest(words_bytes(ws)) == Seq::<u8>::empty(),
    decreases ws.len(),
{
    if ws.len() == 0 {
        assert(words_bytes(ws).len() == 0);
        assert(stream_words(words_bytes(ws)) =~= ws);
        assert(stream_rest(words_bytes(ws)) =~= Seq::<u8>::empty());
    } else {
        let v = ws[0];
        let bs = word_bytes(v);
        lemma_word_bytes_value(v);
        assert(bs.len() == 4);
        lemma_words_round_trip(ws.skip(1));
        let all = words_bytes(ws);
        assert(all =~= bs + words_bytes(ws.skip(1)));
        assert(all.skip(4) =~= words_bytes(ws.skip(1)));
        assert(stream_words(all) =~= ws);
        assert(stream_rest(all) =~= Seq::<u8>::empty());
    }
}

/// The four bytes produced for a word read back as that word's value.
pub proof fn lemma_word_bytes_value(v: i32)
    ensures
        word_bytes(v).len() == 4,
        be_i32_value(word_bytes(v)[0], word_bytes(v)[1], word_bytes(v)[2], word_bytes(v)[3]) == v,
{
    let u = if v < 0 {
        v + 0x1_0000_0000
    } else {
        v as int
    };
    let uu = u as u32;
    assert(uu / 0x100_0000 < 0x100 && (uu / 0x100_0000) * 0x100_0000 + ((uu / 0x1_0000) % 0x100)
        * 0x1_0000 + ((uu / 0x100) % 0x100) * 0x100 + uu % 0x100 == uu) by (bit_vector);
}

} // verus!
