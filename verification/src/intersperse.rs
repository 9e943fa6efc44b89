//! Lays an encoded payload out between the word-boundary segments of a cover
//! message: the first segment, then before each later segment a contiguous
//! chunk of the payload, sized by integer ceiling division so that every
//! payload character lands in one of the gaps.

use crate::codec::{lossy_encode_chars, lossy_encode_seq, push_char};
use crate::segment::{concat_segs, split_word_bounds, word_segments};
use vstd::math::min;
use vstd::prelude::*;

verus! {

/// Integer ceiling division, meaningful for `l >= 0`, `p >= 1`.
pub open spec fn ceil_div(l: int, p: int) -> int {
    (l + p - 1) / p
}

/// The cursor position after `i` chunks of width `c` have been taken from a
/// payload of length `len`: each chunk advances by `c`, clamped at the end.
pub open spec fn chunk_bound(len: int, c: int, i: int) -> int
    decreases i,
{
    if i <= 0 {
        0
    } else {
        min(chunk_bound(len, c, i - 1) + c, len)
    }
}

/// The output after the first `i` segments have been placed: the first
/// segment, then chunk `k - 1` of the payload before each segment `k`.
pub open spec fn interleave_upto(segs: Seq<Seq<char>>, payload: Seq<char>, c: int, i: int) -> Seq<
    char,
>
    decreases i,
{
    if i <= 1 {
        segs[0]
    } else {
        interleave_upto(segs, payload, c, i - 1) + payload.subrange(
            chunk_bound(payload.len() as int, c, i - 2),
            chunk_bound(payload.len() as int, c, i - 1),
        ) + segs[i - 1]
    }
}

/// The full interspersed output over all segments.
pub open spec fn intersperse_seq(segs: Seq<Seq<char>>, payload: Seq<char>, c: int) -> Seq<char> {
    interleave_upto(segs, payload, c, segs.len() as int)
}

/// The interspersed output of a cover message and a data payload: the
/// message's word-boundary segments interleaved with the ceiling-division
/// chunks of the best-effort encoding of the data.
pub open spec fn intersperse_spec(msg: Seq<char>, data: Seq<char>) -> Seq<char> {
    let segs = word_segments(msg);
    let payload = lossy_encode_seq(data);
    intersperse_seq(segs, payload, ceil_div(payload.len() as int, segs.len() - 1))
}

/// The cover message has fewer than two word-boundary segments, so there is
/// no interior gap to hide data in.
#[derive(Debug, PartialEq, Eq, Structural)]
pub struct MessageTooShortError;

/// Chunk cursors stay within the payload and advance monotonically.
proof fn lemma_chunk_bound_props(len: int, c: int, i: int)
    requires
        len >= 0,
        c >= 0,
        i >= 0,
    ensures
        0 <= chunk_bound(len, c, i) <= len,
        i >= 1 ==> chunk_bound(len, c, i - 1) <= chunk_bound(len, c, i),
    decreases i,
{
    if i >= 1 {
        lemma_chunk_bound_props(len, c, i - 1);
    }
}

/// After `i` chunks the cursor stands at `min(i * c, len)`.
proof fn lemma_chunk_bound_value(len: int, c: int, i: int)
    requires
        len >= 0,
        c >= 0,
        i >= 0,
    ensures
        chunk_bound(len, c, i) == min(i * c, len),
    decreases i,
{
    if i == 0 {
        assert(0 * c == 0) by (nonlinear_arith);
    } else {
        lemma_chunk_bound_value(len, c, i - 1);
        assert((i - 1) * c + c == i * c) by (nonlinear_arith);
        assert((i - 1) * c <= i * c) by (nonlinear_arith)
            requires
                c >= 0,
        ;
    }
}

/// With the ceiling-division chunk width, the chunks of `p` gaps cover the
/// whole payload: the cursor ends exactly at its length.
pub proof fn lemma_chunks_cover(len: int, p: int)
    requires
        len >= 0,
        p >= 1,
    ensures
        chunk_bound(len, ceil_div(len, p), p) == len,
{
    let c = ceil_div(len, p);
    vstd::arithmetic::div_mod::lemma_fundamental_div_mod(len + p - 1, p);
    vstd::arithmetic::div_mod::lemma_mod_bound(len + p - 1, p);
    assert(p * c >= len);
    vstd::arithmetic::div_mod::lemma_div_pos_is_pos(len + p - 1, p);
    lemma_chunk_bound_value(len, c, p);
    assert(p * c == c * p) by (nonlinear_arith);
}

/// Decoding a partial interleaving recovers the payload taken so far: the
/// segments contribute nothing, the chunks concatenate to a payload prefix.
proof fn lemma_interleave_decode(segs: Seq<Seq<char>>, payload: Seq<char>, c: int, i: int)
    requires
        1 <= i <= segs.len(),
        c >= 0,
        forall|k: int| 0 <= k < segs.len() ==> crate::codec::none_invisible(#[trigger] segs[k]),
        forall|j: int| 0 <= j < payload.len() ==> crate::codec::invisible(#[trigger] payload[j]),
    ensures
        crate::codec::decode_seq(interleave_upto(segs, payload, c, i))
            == crate::codec::decode_seq(
            payload.subrange(0, chunk_bound(payload.len() as int, c, i - 1)),
        ),
    decreases i,
{
    let len = payload.len() as int;
    if i == 1 {
        crate::codec::lemma_decode_none_invisible(segs[0]);
        assert(payload.subrange(0, 0) =~= Seq::<char>::empty());
    } else {
        lemma_interleave_decode(segs, payload, c, i - 1);
        lemma_chunk_bound_props(len, c, i - 2);
        lemma_chunk_bound_props(len, c, i - 1);
        let a = chunk_bound(len, c, i - 2);
        let b = chunk_bound(len, c, i - 1);
        let front = interleave_upto(segs, payload, c, i - 1);
        let piece = payload.subrange(a, b);
        crate::codec::lemma_decode_concat(front + piece, segs[i - 1]);
        crate::codec::lemma_decode_concat(front, piece);
        crate::codec::lemma_decode_none_invisible(segs[i - 1]);
        crate::codec::lemma_decode_concat(payload.subrange(0, a), piece);
        assert(payload.subrange(0, a) + piece =~= payload.subrange(0, b));
        assert(crate::codec::decode_seq(interleave_upto(segs, payload, c, i))
            == crate::codec::decode_seq(payload.subrange(0, b)));
    }
}

/// Chunk coverage: whatever the segment count, decoding an interspersed
/// output recovers exactly the encodable characters of the data payload,
/// provided the cover segments hold no invisible characters themselves.
pub proof fn lemma_intersperse_recovers_payload(segs: Seq<Seq<char>>, data: Seq<char>)
    requires
        segs.len() >= 2,
        crate::codec::none_invisible(concat_segs(segs)),
    ensures
        crate::codec::decode_seq(
            intersperse_seq(
                segs,
                lossy_encode_seq(data),
                ceil_div(lossy_encode_seq(data).len() as int, segs.len() - 1),
            ),
        ) == crate::codec::keep_encodable(data),
{
    let payload = lossy_encode_seq(data);
    let len = payload.len() as int;
    let p = segs.len() - 1;
    let c = ceil_div(len, p);
    crate::codec::lemma_decode_lossy_encode(data);
    crate::segment::lemma_segments_none_invisible(segs);
    vstd::arithmetic::div_mod::lemma_div_pos_is_pos(len + p - 1, p);
    lemma_interleave_decode(segs, payload, c, segs.len() as int);
    lemma_chunks_cover(len, p);
    assert(payload.subrange(0, len) =~= payload);
}

/// Chunk coverage for a cover message: decoding the interspersed output of a
/// message with at least two word-boundary segments and no invisible
/// characters recovers exactly the encodable characters of the data.
pub proof fn lemma_intersperse_round_trip(msg: Seq<char>, data: Seq<char>)
    requires
        word_segments(msg).len() >= 2,
        concat_segs(word_segments(msg)) == msg,
        crate::codec::none_invisible(msg),
    ensures
        crate::codec::decode_seq(intersperse_spec(msg, data)) == crate::codec::keep_encodable(
            data,
        ),
{
    lemma_intersperse_recovers_payload(word_segments(msg), data);
}

/// Runs the interspersion engine: splits the cover message at word
/// boundaries, best-effort encodes the data, and lays the encoding out in
/// near-equal chunks before each segment after the first. Fails cleanly when
/// the message has fewer than two segments (no gap to hide data in).
pub fn intersperse(message: &str, data: &str) -> (r: Result<String, MessageTooShortError>)
    ensures
        r is Ok <==> word_segments(message@).len() >= 2,
        r matches Ok(t) ==> t@ == intersperse_spec(message@, data@),
{
    let segs = split_word_bounds(message);
    let ghost gsegs = word_segments(message@);
    proof {
        assert(gsegs.len() == segs@.len());
    }
    if segs.len() < 2 {
        return Err(MessageTooShortError);
    }
    let payload = lossy_encode_chars(data);
    let l = payload.len();
    let p = segs.len() - 1;
    let chunk: usize = if l == 0 {
        0
    } else {
        (l - 1) / p + 1
    };
    proof {
        if l == 0 {
            vstd::arithmetic::div_mod::lemma_basic_div(p - 1, p as int);
        } else {
            vstd::arithmetic::div_mod::lemma_div_nonincreasing(l - 1, p as int);
            vstd::arithmetic::div_mod::lemma_div_pos_is_pos(l - 1, p as int);
            vstd::arithmetic::div_mod::lemma_hoist_over_denominator(l - 1, 1, p as nat);
        }
        assert(chunk as int == ceil_div(l as int, gsegs.len() - 1));
    }
    let mut out = String::new();
    out.append(segs[0].as_str());
    proof {
        assert(gsegs[0] == segs@.map_values(|t: String| t@)[0]);
        assert(out@ == interleave_upto(gsegs, payload@, chunk as int, 1));
    }
    let mut pos: usize = 0;
    let mut i: usize = 1;
    while i < segs.len()
        invariant
            1 <= i <= segs.len(),
            2 <= segs.len() == gsegs.len(),
            segs@.map_values(|t: String| t@) == gsegs,
            payload@ == lossy_encode_seq(data@),
            l == payload@.len(),
            chunk as int == ceil_div(l as int, gsegs.len() - 1),
            pos == chunk_bound(l as int, chunk as int, i - 1),
            pos <= l,
            out@ == interleave_upto(gsegs, payload@, chunk as int, i as int),
        decreases segs.len() - i,
    {
        let end = if l - pos < chunk {
            l
        } else {
            pos + chunk
        };
        proof {
            assert(end == min(pos + chunk, l as int));
            assert(end == chunk_bound(l as int, chunk as int, i as int));
        }
        let ghost prefix = out@;
        let ghost start = pos;
        while pos < end
            invariant
                start <= pos <= end <= l,
                l == payload@.len(),
                out@ == prefix + payload@.subrange(start as int, pos as int),
            decreases end - pos,
        {
            push_char(&mut out, payload[pos]);
            proof {
                assert(payload@.subrange(start as int, pos + 1) =~= payload@.subrange(
                    start as int,
                    pos as int,
                ).push(payload@[pos as int]));
            }
            pos += 1;
        }
        out.append(segs[i].as_str());
        proof {
            assert(gsegs[i as int] == segs@.map_values(|t: String| t@)[i as int]);
            assert(out@ =~= interleave_upto(gsegs, payload@, chunk as int, i + 1));
        }
        i += 1;
    }
    Ok(out)
}

} // verus!
