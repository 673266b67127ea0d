use vstd::prelude::*;
use vstd::utf8::{decode_utf8, valid_utf8};

verus! {

/// The SHA-1 digest of a byte string.
pub uninterp spec fn sha1_of(data: Seq<u8>) -> Seq<u8>;

/// Relies on `ring::digest::digest` with `SHA1_FOR_LEGACY_USE_ONLY`: the SHA-1
/// digest of the bytes, whose output length is 160 bits.
#[verifier::external_body]
pub(crate) fn sha1(data: &[u8]) -> (r: Vec<u8>)
    ensures
        r@ == sha1_of(data@),
        r@.len() == 20,
{
    ring::digest::digest(&ring::digest::SHA1_FOR_LEGACY_USE_ONLY, data).as_ref().to_vec()
}

/// Lower-case hexadecimal digit of a value below 16.
pub open spec fn hex_digit(n: u8) -> char {
    if n < 10 {
        ((48 + n) as u8) as char
    } else {
        ((87 + n) as u8) as char
    }
}

/// Lower-case hexadecimal text of a byte string, two digits per byte.
pub open spec fn hex_lower(b: Seq<u8>) -> Seq<char>
    decreases b.len(),
{
    if b.len() == 0 {
        Seq::empty()
    } else {
        hex_lower(b.drop_last()) + seq![hex_digit(b.last() / 16), hex_digit(b.last() % 16)]
    }
}

/// Relies on `data_encoding::HEXLOWER.encode`: two lower-case hexadecimal
/// digits for each byte, most significant first.
#[verifier::external_body]
pub(crate) fn hex(b: &[u8]) -> (r: String)
    ensures
        r@ == hex_lower(b@),
{
    data_encoding::HEXLOWER.encode(b)
}

/// The zlib stream that the encoder makes of a byte string.
pub uninterp spec fn zlib_deflate(data: Seq<u8>) -> Seq<u8>;

/// Relies on `libflate::zlib::Encoder` (default options): the bytes written
/// through it, finished, as one zlib stream. Writing into a `Vec` cannot
/// fail, so a stream always comes back.
#[verifier::external_body]
pub(crate) fn deflate(data: &[u8]) -> (r: Option<Vec<u8>>)
    ensures
        r is Some,
        r matches Some(v) ==> v@ == zlib_deflate(data@),
{
    let mut encoder = libflate::zlib::Encoder::new(Vec::new()).ok()?;
    std::io::Write::write_all(&mut encoder, data).ok()?;
    encoder.finish().into_result().ok()
}

/// Relies on `libflate::zlib::Decoder` read to its end: a zlib stream that
/// the encoder made of `x` decodes to `x`.
#[verifier::external_body]
pub(crate) fn inflate(data: &[u8]) -> (r: Option<Vec<u8>>)
    ensures
        r matches Some(v) ==> forall|x: Seq<u8>| data@ == #[trigger] zlib_deflate(x) ==> v@ == x,
        r is None ==> forall|x: Seq<u8>| data@ != #[trigger] zlib_deflate(x),
{
    let mut decoder = libflate::zlib::Decoder::new(data).ok()?;
    let mut out: Vec<u8> = Vec::new();
    std::io::Read::read_to_end(&mut decoder, &mut out).ok()?;
    Some(out)
}

/// Relies on `std::str::from_utf8`: it accepts exactly the valid UTF-8 byte
/// strings, and the text is the one they encode.
#[verifier::external_body]
pub(crate) fn utf8_string(b: &[u8]) -> (r: Option<String>)
    ensures
        r is Some <==> valid_utf8(b@),
        r matches Some(s) ==> s@ == decode_utf8(b@),
{
    match std::str::from_utf8(b) {
        Ok(s) => Some(s.to_string()),
        Err(_) => None,
    }
}

} // verus!
