//! The outside codecs the object store rests on: zlib streams (flate2),
//! SHA-1 (sha1) and hexadecimal text (hex).
use std::io::Read;
use std::io::Write;
use sha1::Digest;
use vstd::prelude::*;
use vstd::string::StringSliceAdditionalSpecFns;
use vstd::utf8::{encode_utf8, is_ascii_chars, is_ascii_chars_encode_utf8};

verus! {

/// Declares `std::io::Error`, the error of the zlib streams.
#[verifier::external_type_specification]
#[verifier::external_body]
pub struct ExIoError(std::io::Error);

/// Declares `hex::FromHexError`, the error of hexadecimal decoding.
#[verifier::external_type_specification]
#[verifier::external_body]
pub struct ExFromHexError(hex::FromHexError);

/// What a zlib decoder yields from the bytes given it, read to the end of the
/// stream: `None` where the stream is corrupt or ends early.
pub uninterp spec fn zlib_inflate(data: Seq<u8>) -> Option<Seq<u8>>;

/// How many of the bytes given it a zlib decoder takes in before its stream ends.
pub uninterp spec fn zlib_input_used(data: Seq<u8>) -> nat;

/// The zlib stream that an encoder at the default compression level makes of
/// the bytes: `None` where the encoder reports an error.
pub uninterp spec fn zlib_deflate(data: Seq<u8>) -> Option<Seq<u8>>;

/// The SHA-1 digest of the bytes.
pub uninterp spec fn sha1_digest(data: Seq<u8>) -> Seq<u8>;

/// The lower-case hexadecimal digit of a value under 16.
pub open spec fn hex_digit(v: int) -> char {
    if v < 10 {
        (48 + v) as char
    } else {
        (87 + v) as char
    }
}

/// Lower-case hexadecimal text of the bytes: two digits per byte, high nibble first.
pub open spec fn hex_lower(data: Seq<u8>) -> Seq<char> {
    Seq::new(
        2 * data.len(),
        |i: int|
            if i % 2 == 0 {
                hex_digit(data[i / 2] as int / 16)
            } else {
                hex_digit(data[i / 2] as int % 16)
            },
    )
}

/// The value of one hexadecimal digit byte, in either case.
pub open spec fn hex_value(c: u8) -> Option<u8> {
    if 48 <= c <= 57 {
        Some((c - 48) as u8)
    } else if 65 <= c <= 70 {
        Some((c - 55) as u8)
    } else if 97 <= c <= 102 {
        Some((c - 87) as u8)
    } else {
        None
    }
}

/// The bytes that hexadecimal text (as bytes) stands for: `None` where its
/// length is odd or a byte is no hexadecimal digit.
pub open spec fn hex_bytes_value(text: Seq<u8>) -> Option<Seq<u8>> {
    if text.len() % 2 == 0 && forall|i: int| 0 <= i < text.len() ==> #[trigger] hex_value(text[i]) is Some {
        Some(
            Seq::new(
                text.len() / 2,
                |i: int| (hex_value(text[2 * i])->0 * 16 + hex_value(text[2 * i + 1])->0) as u8,
            ),
        )
    } else {
        None
    }
}

/// A hexadecimal digit is an ASCII character whose value is the digit's.
pub proof fn lemma_hex_digit(v: int)
    requires
        0 <= v < 16,
    ensures
        '\0' <= hex_digit(v) <= '\u{7f}',
        hex_value(hex_digit(v) as u8) == Some(v as u8),
        is_lower_hex_char(hex_digit(v)),
{
}

/// Whether `c` is a lower-case hexadecimal digit: `0`-`9` or `a`-`f`.
pub open spec fn is_lower_hex_char(c: char) -> bool {
    ('0' <= c <= '9') || ('a' <= c <= 'f')
}

/// Lower-case hexadecimal text has two digits per byte, each `0`-`9` or `a`-`f`.
pub proof fn lemma_hex_lower_chars(b: Seq<u8>)
    ensures
        hex_lower(b).len() == 2 * b.len(),
        forall|i: int| 0 <= i < hex_lower(b).len() ==> is_lower_hex_char(#[trigger] hex_lower(b)[i]),
{
    assert forall|i: int| 0 <= i < hex_lower(b).len() implies is_lower_hex_char(
        #[trigger] hex_lower(b)[i],
    ) by {
        if i % 2 == 0 {
            lemma_hex_digit(b[i / 2] as int / 16);
        } else {
            lemma_hex_digit(b[i / 2] as int % 16);
        }
    }
}

/// Hexadecimal text decodes to the bytes it was made of: `hex_decode` of
/// what `hex_encode` gave back yields the original bytes.
pub proof fn lemma_hex_roundtrip(b: Seq<u8>)
    ensures
        hex_bytes_value(encode_utf8(hex_lower(b))) == Some(b),
{
    let h = hex_lower(b);
    assert forall|i: int| 0 <= i < h.len() implies '\0' <= #[trigger] h[i] <= '\u{7f}' by {
        if i % 2 == 0 {
            lemma_hex_digit(b[i / 2] as int / 16);
        } else {
            lemma_hex_digit(b[i / 2] as int % 16);
        }
    }
    assert(is_ascii_chars(h));
    is_ascii_chars_encode_utf8(h);
    let t = encode_utf8(h);
    assert forall|i: int| 0 <= i < t.len() implies #[trigger] hex_value(t[i]) == Some(
        (if i % 2 == 0 {
            b[i / 2] as int / 16
        } else {
            b[i / 2] as int % 16
        }) as u8,
    ) by {
        assert(t[i] == h[i] as u8);
        if i % 2 == 0 {
            lemma_hex_digit(b[i / 2] as int / 16);
        } else {
            lemma_hex_digit(b[i / 2] as int % 16);
        }
    }
    let r = Seq::new(
        t.len() / 2,
        |i: int| (hex_value(t[2 * i])->0 * 16 + hex_value(t[2 * i + 1])->0) as u8,
    );
    assert forall|i: int| 0 <= i < b.len() implies r[i] == b[i] by {
        assert(hex_value(t[2 * i]) == Some((b[i] as int / 16) as u8));
        assert(hex_value(t[2 * i + 1]) == Some((b[i] as int % 16) as u8));
    }
    assert(r =~= b);
}

/// Runs a `flate2::read::ZlibDecoder` over `data` to the end of its stream
/// (`read_to_end`) and reports what it produced and `total_in`. The claim:
/// it succeeds exactly where `zlib_inflate` is `Some`, produces that, and
/// took in `zlib_input_used` bytes, no more than it was given.
#[verifier::external_body]
pub(crate) fn inflate(data: &[u8]) -> (r: Result<(Vec<u8>, u64), std::io::Error>)
    ensures
        r is Ok <==> zlib_inflate(data@) is Some,
        r matches Ok((out, used)) ==> out@ == zlib_inflate(data@)->0 && used == zlib_input_used(
            data@,
        ) && used <= data@.len(),
{
    let mut decoder = flate2::read::ZlibDecoder::new(data);
    let mut out = Vec::new();
    decoder.read_to_end(&mut out)?;
    Ok((out, decoder.total_in()))
}

/// Compresses `data` with a `flate2::write::ZlibEncoder` at
/// `Compression::default()` (`write_all`, then `finish`), writing into a
/// `Vec`. The claim: it succeeds exactly where `zlib_deflate(data)` is `Some`
/// (the encoder's outcome depends on the bytes alone), returns that stream,
/// and a decoder gives `data` back from it.
#[verifier::external_body]
pub(crate) fn deflate(data: &[u8]) -> (r: Result<Vec<u8>, std::io::Error>)
    ensures
        r is Ok <==> zlib_deflate(data@) is Some,
        r matches Ok(out) ==> zlib_deflate(data@) == Some(out@) && zlib_inflate(out@) == Some(data@),
{
    let mut encoder = flate2::write::ZlibEncoder::new(Vec::new(), flate2::Compression::default());
    encoder.write_all(data)?;
    encoder.finish()
}

/// `sha1::Sha1` over `data` (`new`, `update`, `finalize`). The claim: the
/// 20 bytes of `sha1_digest(data)`.
#[verifier::external_body]
pub(crate) fn sha1(data: &[u8]) -> (r: Vec<u8>)
    ensures
        r@ == sha1_digest(data@),
        r@.len() == 20,
{
    let mut hasher = sha1::Sha1::new();
    hasher.update(data);
    hasher.finalize().to_vec()
}

/// `hex::encode`: lower-case hexadecimal text of the bytes.
#[verifier::external_body]
pub(crate) fn hex_encode(data: &[u8]) -> (r: String)
    ensures
        r@ == hex_lower(data@),
{
    hex::encode(data)
}

/// `hex::decode` of the bytes of `text`: succeeds exactly where the length is
/// even and every byte is a hexadecimal digit, with the bytes they stand for.
#[verifier::external_body]
pub(crate) fn hex_decode(text: &str) -> (r: Result<Vec<u8>, hex::FromHexError>)
    ensures
        r is Ok <==> hex_bytes_value(text.spec_bytes()) is Some,
        r matches Ok(v) ==> hex_bytes_value(text.spec_bytes()) == Some(v@),
{
    hex::decode(text)
}

} // verus!
