//! Lossless path encoding: raw path bytes to base64 text and back, and the
//! lossy UTF-8 projection used for display keys.
use vstd::prelude::*;
use base64::Engine;

verus! {

/// base64's decoding error, carried through opaque.
#[verifier::external_type_specification]
#[verifier::external_body]
pub struct ExDecodeError(base64::DecodeError);

/// The base64 digit (standard alphabet) of a six-bit value.
pub open spec fn b64_digit(v: u8) -> char {
    if v < 26 {
        (v + 65) as u8 as char
    } else if v < 52 {
        (v + 71) as u8 as char
    } else if v < 62 {
        (v - 4) as u8 as char
    } else if v == 62 {
        '+'
    } else {
        '/'
    }
}

/// Base64 text of a byte sequence: standard alphabet, no padding.
pub open spec fn b64_text(b: Seq<u8>) -> Seq<char>
    decreases b.len(),
{
    if b.len() == 0 {
        seq![]
    } else if b.len() == 1 {
        seq![b64_digit(b[0] >> 2), b64_digit((b[0] & 3) << 4)]
    } else if b.len() == 2 {
        seq![
            b64_digit(b[0] >> 2),
            b64_digit(((b[0] & 3) << 4) | (b[1] >> 4)),
            b64_digit((b[1] & 15) << 2),
        ]
    } else {
        seq![
            b64_digit(b[0] >> 2),
            b64_digit(((b[0] & 3) << 4) | (b[1] >> 4)),
            b64_digit(((b[1] & 15) << 2) | (b[2] >> 6)),
            b64_digit(b[2] & 63),
        ] + b64_text(b.skip(3))
    }
}

/// The bytes that a base64 text stands for, where it is the encoding of any.
pub open spec fn b64_bytes(s: Seq<char>) -> Option<Seq<u8>> {
    if exists|b: Seq<u8>| b64_text(b) == s {
        Some(choose|b: Seq<u8>| b64_text(b) == s)
    } else {
        None
    }
}

/// Relies on base64's `STANDARD_NO_PAD` engine: `encode` writes the standard
/// alphabet without padding.
#[verifier::external_body]
fn b64_encode(b: &[u8]) -> (r: String)
    requires
        b@.len() <= usize::MAX / 2,
    ensures
        r@ == b64_text(b@),
{
    base64::engine::general_purpose::STANDARD_NO_PAD.encode(b)
}

/// Relies on base64's `STANDARD_NO_PAD` engine: `decode` accepts exactly the
/// canonical unpadded encodings (padding, stray bytes and non-zero trailing
/// bits are errors) and returns the bytes encoded.
#[verifier::external_body]
fn b64_decode(s: &str) -> (r: Result<Vec<u8>, base64::DecodeError>)
    ensures
        r is Ok ==> b64_text(r->Ok_0@) == s@,
        (exists|b: Seq<u8>| b64_text(b) == s@) ==> r is Ok,
{
    base64::engine::general_purpose::STANDARD_NO_PAD.decode(s.as_bytes())
}

/// The text of a path as stored in a manifest: base64 of its raw bytes.
pub fn encode_path(raw: &[u8]) -> (r: String)
    requires
        raw@.len() <= usize::MAX / 2,
    ensures
        r@ == b64_text(raw@),
{
    b64_encode(raw)
}

/// Recovers the raw path bytes from their stored text; `None` where the text
/// is not the encoding of any byte sequence.
pub fn decode_path(text: &str) -> (r: Option<Vec<u8>>)
    ensures
        r is Some <==> b64_bytes(text@) is Some,
        r is Some ==> r->Some_0@ == b64_bytes(text@)->Some_0,
{
    match b64_decode(text) {
        Ok(v) => {
            proof {
                lemma_b64_injective(v@, choose|b: Seq<u8>| b64_text(b) == text@);
            }
            Some(v)
        },
        Err(_) => None,
    }
}

proof fn lemma_b64_digit_injective(v: u8, w: u8)
    requires
        v < 64,
        w < 64,
        b64_digit(v) == b64_digit(w),
    ensures
        v == w,
{
}

proof fn lemma_b64_group(x0: u8, x1: u8, x2: u8, y0: u8, y1: u8, y2: u8)
    requires
        x0 >> 2 == y0 >> 2,
        ((x0 & 3) << 4) | (x1 >> 4) == ((y0 & 3) << 4) | (y1 >> 4),
        ((x1 & 15) << 2) | (x2 >> 6) == ((y1 & 15) << 2) | (y2 >> 6),
        x2 & 63 == y2 & 63,
    ensures
        x0 == y0,
        x1 == y1,
        x2 == y2,
{
    assert(x0 == y0 && x1 == y1 && x2 == y2) by (bit_vector)
        requires
            x0 >> 2 == y0 >> 2,
            ((x0 & 3) << 4) | (x1 >> 4) == ((y0 & 3) << 4) | (y1 >> 4),
            ((x1 & 15) << 2) | (x2 >> 6) == ((y1 & 15) << 2) | (y2 >> 6),
            x2 & 63 == y2 & 63,
    ;
}

proof fn lemma_b64_tail_group(x0: u8, x1: u8, y0: u8, y1: u8)
    requires
        x0 >> 2 == y0 >> 2,
        ((x0 & 3) << 4) | (x1 >> 4) == ((y0 & 3) << 4) | (y1 >> 4),
        (x1 & 15) << 2 == (y1 & 15) << 2,
    ensures
        x0 == y0,
        x1 == y1,
{
    assert(x0 == y0 && x1 == y1) by (bit_vector)
        requires
            x0 >> 2 == y0 >> 2,
            ((x0 & 3) << 4) | (x1 >> 4) == ((y0 & 3) << 4) | (y1 >> 4),
            (x1 & 15) << 2 == (y1 & 15) << 2,
    ;
}

proof fn lemma_b64_sextets(x0: u8, x1: u8, x2: u8)
    ensures
        x0 >> 2 < 64,
        ((x0 & 3) << 4) | (x1 >> 4) < 64,
        ((x1 & 15) << 2) | (x2 >> 6) < 64,
        x2 & 63 < 64,
        (x0 & 3) << 4 < 64,
        (x1 & 15) << 2 < 64,
{
    assert(x0 >> 2 < 64 && ((x0 & 3) << 4) | (x1 >> 4) < 64 && ((x1 & 15) << 2) | (x2 >> 6) < 64
        && x2 & 63 < 64 && (x0 & 3) << 4 < 64 && (x1 & 15) << 2 < 64) by (bit_vector);
}

proof fn lemma_b64_last_byte(x0: u8, y0: u8)
    requires
        x0 >> 2 == y0 >> 2,
        (x0 & 3) << 4 == (y0 & 3) << 4,
    ensures
        x0 == y0,
{
    assert(x0 == y0) by (bit_vector)
        requires
            x0 >> 2 == y0 >> 2,
            (x0 & 3) << 4 == (y0 & 3) << 4,
    ;
}

/// Distinct byte sequences have distinct base64 texts.
pub proof fn lemma_b64_injective(x: Seq<u8>, y: Seq<u8>)
    requires
        b64_text(x) == b64_text(y),
    ensures
        x == y,
    decreases x.len(),
{
    let tx = b64_text(x);
    let ty = b64_text(y);
    if x.len() >= 3 && y.len() >= 3 {
        lemma_b64_sextets(x[0], x[1], x[2]);
        lemma_b64_sextets(y[0], y[1], y[2]);
        assert(tx[0] == ty[0] && tx[1] == ty[1] && tx[2] == ty[2] && tx[3] == ty[3]);
        lemma_b64_digit_injective(x[0] >> 2, y[0] >> 2);
        lemma_b64_digit_injective(((x[0] & 3) << 4) | (x[1] >> 4), ((y[0] & 3) << 4) | (y[1] >> 4));
        lemma_b64_digit_injective(((x[1] & 15) << 2) | (x[2] >> 6), ((y[1] & 15) << 2) | (y[2] >> 6));
        lemma_b64_digit_injective(x[2] & 63, y[2] & 63);
        lemma_b64_group(x[0], x[1], x[2], y[0], y[1], y[2]);
        assert(b64_text(x.skip(3)) =~= tx.skip(4));
        assert(b64_text(y.skip(3)) =~= ty.skip(4));
        lemma_b64_injective(x.skip(3), y.skip(3));
        assert(x =~= x.take(3) + x.skip(3));
        assert(y =~= y.take(3) + y.skip(3));
        assert(x.take(3) =~= y.take(3));
    } else if x.len() >= 3 || y.len() >= 3 {
        assert(tx.len() != ty.len());
    } else if x.len() == 2 && y.len() == 2 {
        lemma_b64_sextets(x[0], x[1], 0);
        lemma_b64_sextets(y[0], y[1], 0);
        assert(tx[0] == ty[0] && tx[1] == ty[1] && tx[2] == ty[2]);
        lemma_b64_digit_injective(x[0] >> 2, y[0] >> 2);
        lemma_b64_digit_injective(((x[0] & 3) << 4) | (x[1] >> 4), ((y[0] & 3) << 4) | (y[1] >> 4));
        lemma_b64_digit_injective((x[1] & 15) << 2, (y[1] & 15) << 2);
        lemma_b64_tail_group(x[0], x[1], y[0], y[1]);
        assert(x =~= y);
    } else if x.len() == 1 && y.len() == 1 {
        lemma_b64_sextets(x[0], 0, 0);
        lemma_b64_sextets(y[0], 0, 0);
        assert(tx[0] == ty[0] && tx[1] == ty[1]);
        lemma_b64_digit_injective(x[0] >> 2, y[0] >> 2);
        lemma_b64_digit_injective((x[0] & 3) << 4, (y[0] & 3) << 4);
        lemma_b64_last_byte(x[0], y[0]);
        assert(x =~= y);
    } else {
        assert(tx.len() == ty.len());
        assert(x =~= y);
    }
}

/// Decoding the stored text of a path gives back its raw bytes, whatever
/// they are (invalid UTF-8, NUL and newline included).
pub proof fn lemma_path_round_trip(raw: Seq<u8>)
    ensures
        b64_bytes(b64_text(raw)) == Some(raw),
{
    let t = b64_text(raw);
    assert(exists|b: Seq<u8>| b64_text(b) == t);
    let c = choose|b: Seq<u8>| b64_text(b) == t;
    lemma_b64_injective(c, raw);
}

/// The text that a lossy UTF-8 reading of `b` gives.
pub uninterp spec fn lossy_text(b: Seq<u8>) -> Seq<char>;

/// Relies on `String::from_utf8_lossy`: the result depends on the bytes
/// alone, and valid UTF-8 is read as it stands.
#[verifier::external_body]
pub(crate) fn lossy_utf8(b: &[u8]) -> (r: String)
    ensures
        r@ == lossy_text(b@),
        vstd::utf8::valid_utf8(b@) ==> r@ == vstd::utf8::decode_utf8(b@),
{
    String::from_utf8_lossy(b).into_owned()
}

} // verus!
