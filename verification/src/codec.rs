//! Character-level codec between printable ASCII (U+0020..=U+007F) and the
//! invisible Unicode tag-character range (U+E0020..=U+E007F). The mapping is
//! a bijection: it adds or removes the fixed offset 0xE0000.

use vstd::prelude::*;

verus! {

/// A visible character: printable ASCII, space through DEL.
pub open spec fn encodable(c: char) -> bool {
    0x20 <= c as u32 && c as u32 <= 0x7F
}

/// An invisible character: the tag-range image of a visible character.
pub open spec fn invisible(c: char) -> bool {
    0xE0020 <= c as u32 && c as u32 <= 0xE007F
}

/// The invisible image of a visible character (meaningful when `encodable(c)`).
pub open spec fn encode_char(c: char) -> char {
    (c as u32 + 0xE0000) as char
}

/// The visible preimage of an invisible character (meaningful when `invisible(c)`).
pub open spec fn decode_char(c: char) -> char {
    (c as u32 - 0xE0000) as char
}

/// Relies on char::from_u32: returns the character with the given code point,
/// and `None` exactly when the value is a surrogate or above the scalar range.
pub assume_specification[ char::from_u32 ](i: u32) -> (r: Option<char>)
    ensures
        r is Some <==> (i < 0xD800 || (0xE000 <= i && i <= 0x10FFFF)),
        r matches Some(c) ==> c as u32 == i,
;

/// Maps a visible character to its invisible image; `None` outside the range.
pub fn to_invisible(c: char) -> (r: Option<char>)
    ensures
        r is Some <==> encodable(c),
        encodable(c) ==> r == Some(encode_char(c)),
{
    let u = c as u32;
    if 0x20 <= u && u <= 0x7F {
        let r = char::from_u32(u + 0xE0000);
        proof {
            vstd::utf8::char_u32_cast(r.unwrap(), (c as u32 + 0xE0000) as u32);
            assert(encode_char(c) == r.unwrap());
        }
        r
    } else {
        None
    }
}

/// Maps an invisible character back to its visible preimage; `None` outside the range.
pub fn from_invisible(c: char) -> (r: Option<char>)
    ensures
        r is Some <==> invisible(c),
        invisible(c) ==> r == Some(decode_char(c)),
{
    let u = c as u32;
    if 0xE0020 <= u && u <= 0xE007F {
        let r = char::from_u32(u - 0xE0000);
        proof {
            vstd::utf8::char_u32_cast(r.unwrap(), (c as u32 - 0xE0000) as u32);
            assert(decode_char(c) == r.unwrap());
        }
        r
    } else {
        None
    }
}

/// The codec is a bijection: encoding then decoding a visible character is the identity.
pub proof fn lemma_char_round_trip(c: char)
    requires
        encodable(c),
    ensures
        invisible(encode_char(c)),
        decode_char(encode_char(c)) == c,
{
}

/// Every character of the sequence is encodable.
pub open spec fn all_encodable(s: Seq<char>) -> bool {
    forall|i: int| 0 <= i < s.len() ==> encodable(s[i])
}

/// No character of the sequence is invisible.
pub open spec fn none_invisible(s: Seq<char>) -> bool {
    forall|i: int| 0 <= i < s.len() ==> !invisible(s[i])
}

/// The image of a payload under the character codec, position by position.
pub open spec fn encode_seq(s: Seq<char>) -> Seq<char> {
    s.map_values(|c: char| encode_char(c))
}

/// The best-effort encoding: encodable characters are mapped, others dropped.
pub open spec fn lossy_encode_seq(s: Seq<char>) -> Seq<char>
    decreases s.len(),
{
    if s.len() == 0 {
        Seq::empty()
    } else if encodable(s.last()) {
        lossy_encode_seq(s.drop_last()).push(encode_char(s.last()))
    } else {
        lossy_encode_seq(s.drop_last())
    }
}

/// The filter-decode: invisible characters are mapped back, others dropped.
pub open spec fn decode_seq(s: Seq<char>) -> Seq<char>
    decreases s.len(),
{
    if s.len() == 0 {
        Seq::empty()
    } else if invisible(s.last()) {
        decode_seq(s.drop_last()).push(decode_char(s.last()))
    } else {
        decode_seq(s.drop_last())
    }
}

/// The encodable characters of a payload, in order (what a lossy encode keeps).
pub open spec fn keep_encodable(s: Seq<char>) -> Seq<char>
    decreases s.len(),
{
    if s.len() == 0 {
        Seq::empty()
    } else if encodable(s.last()) {
        keep_encodable(s.drop_last()).push(s.last())
    } else {
        keep_encodable(s.drop_last())
    }
}

/// Round trip: decoding the strict encoding of an all-encodable payload
/// restores the payload exactly.
pub proof fn lemma_round_trip(s: Seq<char>)
    requires
        all_encodable(s),
    ensures
        decode_seq(encode_seq(s)) == s,
    decreases s.len(),
{
    if s.len() == 0 {
        assert(encode_seq(s) =~= Seq::<char>::empty());
        assert(decode_seq(encode_seq(s)) =~= s);
    } else {
        let e = encode_seq(s);
        assert(e.drop_last() =~= encode_seq(s.drop_last()));
        assert(e.last() == encode_char(s.last()));
        lemma_char_round_trip(s.last());
        lemma_round_trip(s.drop_last());
        assert(decode_seq(e) =~= s.drop_last().push(s.last()));
        assert(s.drop_last().push(s.last()) =~= s);
    }
}

/// Filter idempotence: text with no invisible characters decodes to nothing.
pub proof fn lemma_decode_none_invisible(s: Seq<char>)
    requires
        none_invisible(s),
    ensures
        decode_seq(s) == Seq::<char>::empty(),
    decreases s.len(),
{
    if s.len() > 0 {
        lemma_decode_none_invisible(s.drop_last());
    }
}

/// Decoding distributes over concatenation.
pub proof fn lemma_decode_concat(a: Seq<char>, b: Seq<char>)
    ensures
        decode_seq(a + b) == decode_seq(a) + decode_seq(b),
    decreases b.len(),
{
    if b.len() == 0 {
        assert(a + b =~= a);
        assert(decode_seq(a) + decode_seq(b) =~= decode_seq(a));
    } else {
        assert((a + b).drop_last() =~= a + b.drop_last());
        assert((a + b).last() == b.last());
        lemma_decode_concat(a, b.drop_last());
        if invisible(b.last()) {
            assert(decode_seq(a) + decode_seq(b) =~= (decode_seq(a) + decode_seq(
                b.drop_last(),
            )).push(decode_char(b.last())));
        }
    }
}

/// Every character of a lossy encoding is invisible, and decoding it
/// restores exactly the encodable characters of the payload, in order.
pub proof fn lemma_decode_lossy_encode(s: Seq<char>)
    ensures
        forall|i: int|
            0 <= i < lossy_encode_seq(s).len() ==> invisible(#[trigger] lossy_encode_seq(s)[i]),
        decode_seq(lossy_encode_seq(s)) == keep_encodable(s),
    decreases s.len(),
{
    if s.len() > 0 {
        lemma_decode_lossy_encode(s.drop_last());
        let e = lossy_encode_seq(s);
        let ed = lossy_encode_seq(s.drop_last());
        if encodable(s.last()) {
            lemma_char_round_trip(s.last());
            assert(e =~= ed.push(encode_char(s.last())));
            assert(e.drop_last() =~= ed);
            assert(decode_seq(e) =~= keep_encodable(s));
        }
    }
}

/// The payload's whole character range fails to encode.
#[derive(Debug, PartialEq, Eq, Structural)]
pub struct NotEncodableError;

/// Relies on String::push: appends the character to the end of the string.
#[verifier::external_body]
pub(crate) fn push_char(s: &mut String, c: char)
    ensures
        final(s)@ == old(s)@.push(c),
{
    s.push(c)
}

/// Strict, all-or-nothing encoding of a payload: every character must be
/// encodable, or the whole operation fails with no partial output.
pub fn encode_string(s: &str) -> (r: Result<String, NotEncodableError>)
    ensures
        r is Ok <==> all_encodable(s@),
        r matches Ok(t) ==> t@ == encode_seq(s@),
{
    let n = s.unicode_len();
    let mut out = String::new();
    let mut i: usize = 0;
    while i < n
        invariant
            i <= n,
            n == s@.len(),
            forall|j: int| 0 <= j < i ==> encodable(s@[j]),
            out@ == encode_seq(s@.take(i as int)),
        decreases n - i,
    {
        let c = s.get_char(i);
        match to_invisible(c) {
            Some(e) => {
                push_char(&mut out, e);
                proof {
                    let f = |x: char| encode_char(x);
                    assert(s@.take(i + 1).map_values(f) =~= s@.take(i as int).map_values(f).push(
                        f(s@[i as int]),
                    ));
                }
            },
            None => {
                return Err(NotEncodableError);
            },
        }
        i += 1;
    }
    proof {
        assert(s@.take(n as int) =~= s@);
    }
    Ok(out)
}

/// Best-effort encoding of a payload: encodable characters are mapped to
/// their invisible images, all others are silently dropped.
pub fn lossy_encode_chars(s: &str) -> (r: Vec<char>)
    ensures
        r@ == lossy_encode_seq(s@),
{
    let n = s.unicode_len();
    let mut out: Vec<char> = Vec::new();
    let mut i: usize = 0;
    while i < n
        invariant
            i <= n,
            n == s@.len(),
            out@ == lossy_encode_seq(s@.take(i as int)),
        decreases n - i,
    {
        let c = s.get_char(i);
        proof {
            assert(s@.take(i + 1).drop_last() =~= s@.take(i as int));
            assert(s@.take(i + 1).last() == s@[i as int]);
        }
        match to_invisible(c) {
            Some(e) => {
                out.push(e);
            },
            None => {
            },
        }
        i += 1;
    }
    proof {
        assert(s@.take(n as int) =~= s@);
    }
    out
}

/// Filter-decoding of arbitrary text: recovers the visible preimages of the
/// invisible characters, in order, and drops everything else. Never fails.
pub fn decode_string(s: &str) -> (r: String)
    ensures
        r@ == decode_seq(s@),
{
    let n = s.unicode_len();
    let mut out = String::new();
    let mut i: usize = 0;
    while i < n
        invariant
            i <= n,
            n == s@.len(),
            out@ == decode_seq(s@.take(i as int)),
        decreases n - i,
    {
        let c = s.get_char(i);
        proof {
            assert(s@.take(i + 1).drop_last() =~= s@.take(i as int));
            assert(s@.take(i + 1).last() == s@[i as int]);
        }
        match from_invisible(c) {
            Some(v) => {
                push_char(&mut out, v);
            },
            None => {
            },
        }
        i += 1;
    }
    proof {
        assert(s@.take(n as int) =~= s@);
    }
    out
}

} // verus!
