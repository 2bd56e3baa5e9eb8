//! Loose objects: the `<type> <size>\0<content>` encoding, object names,
//! the compressed file that stores an object, and reading an object back.
use crate::codec::{
    deflate, hex_encode, hex_lower, inflate, is_lower_hex_char, lemma_hex_lower_chars, sha1,
    sha1_digest, zlib_deflate, zlib_inflate,
};
use crate::error::{ErrorKind, GitError};
use crate::scan::{
    copy_range, find_byte, find_last_byte, index_of, last_index_of, lemma_index_of,
    lemma_index_of_at, lemma_index_of_skip, lemma_last_index_of, lemma_last_index_of_none, push_all,
};
use vstd::prelude::*;
use vstd::string::StringSliceAdditionalSpecFns;

verus! {

/// The decimal digits (ASCII) of `n`, without leading zeros.
pub open spec fn decimal(n: nat) -> Seq<u8>
    decreases n,
{
    if n < 10 {
        seq![(48 + n) as u8]
    } else {
        decimal(n / 10).push((48 + n % 10) as u8)
    }
}

/// The bytes of a loose object: type, a space, the content's length in
/// decimal, a NUL byte, then the content.
pub open spec fn object_bytes(kind: Seq<u8>, content: Seq<u8>) -> Seq<u8> {
    kind + seq![32u8] + decimal(content.len()) + seq![0u8] + content
}

/// The name of an object: lower-case hexadecimal SHA-1 of its bytes.
pub open spec fn object_id(kind: Seq<u8>, content: Seq<u8>) -> Seq<char> {
    hex_lower(sha1_digest(object_bytes(kind, content)))
}

/// Every byte of a decimal numeral is a digit, and there is at least one.
pub proof fn lemma_decimal_digits(n: nat)
    ensures
        decimal(n).len() >= 1,
        forall|i: int| 0 <= i < decimal(n).len() ==> 48 <= #[trigger] decimal(n)[i] <= 57,
    decreases n,
{
    if n >= 10 {
        lemma_decimal_digits(n / 10);
    }
}

fn push_decimal(out: &mut Vec<u8>, n: usize)
    ensures
        final(out)@ == old(out)@ + decimal(n as nat),
    decreases n,
{
    if n >= 10 {
        push_decimal(out, n / 10);
    }
    let digit: u8 = (n % 10) as u8;
    out.push(48 + digit);
    proof {
        if n < 10 {
            assert(decimal(n as nat) =~= seq![(48 + n) as u8]);
        }
    }
    assert(final(out)@ =~= old(out)@ + decimal(n as nat)) by {
        if n >= 10 {
            assert(decimal(n as nat) == decimal((n / 10) as nat).push((48 + n % 10) as u8));
        }
    }
}

/// The bytes of the loose object of type `data_type` holding `content`.
pub fn encode_object(data_type: &str, content: &Vec<u8>) -> (r: Vec<u8>)
    ensures
        r@ == object_bytes(data_type.spec_bytes(), content@),
{
    let mut out: Vec<u8> = Vec::new();
    push_all(&mut out, data_type.as_bytes());
    out.push(32);
    push_decimal(&mut out, content.len());
    out.push(0);
    push_all(&mut out, content.as_slice());
    assert(out@ =~= object_bytes(data_type.spec_bytes(), content@));
    out
}

/// Decompresses a zlib stream; fails exactly where the stream is corrupt or
/// ends early.
pub fn zlib_decode(enc_data: &Vec<u8>) -> (r: Result<Vec<u8>, std::io::Error>)
    ensures
        r is Ok <==> zlib_inflate(enc_data@) is Some,
        r matches Ok(v) ==> zlib_inflate(enc_data@) == Some(v@),
{
    match inflate(enc_data.as_slice()) {
        Ok((data, _used)) => Ok(data),
        Err(e) => Err(e),
    }
}

/// Compresses `data` into a zlib stream, from which decompression gives
/// `data` back; fails exactly where the encoder does.
pub fn zlib_encode(data: &Vec<u8>) -> (r: Result<Vec<u8>, std::io::Error>)
    ensures
        r is Ok <==> zlib_deflate(data@) is Some,
        r matches Ok(v) ==> zlib_deflate(data@) == Some(v@) && zlib_inflate(v@) == Some(data@),
{
    deflate(data.as_slice())
}

/// The SHA-1 of `data` in lower-case hexadecimal: 40 digits, each `0`-`9`
/// or `a`-`f`. It always succeeds.
pub fn make_hash(data: &Vec<u8>) -> (r: Result<String, std::io::Error>)
    ensures
        r matches Ok(s) && s@ == hex_lower(sha1_digest(data@)) && s@.len() == 40 && forall|i: int|
            0 <= i < 40 ==> is_lower_hex_char(#[trigger] s@[i]),
{
    let digest = sha1(data.as_slice());
    proof {
        lemma_hex_lower_chars(digest@);
    }
    Ok(hex_encode(digest.as_slice()))
}

/// An object ready to be stored: its name and the compressed file content.
#[derive(Debug)]
pub struct ObjectFile {
    pub hash: String,
    pub compressed: Vec<u8>,
}

/// The name and the compressed file of the object of type `data_type`
/// holding `content`. Decompressing the file gives the object's bytes back.
/// Fails exactly where compressing the object's bytes fails.
pub fn git_object_file(data_type: &str, content: &Vec<u8>) -> (r: Result<ObjectFile, std::io::Error>)
    ensures
        r is Ok <==> zlib_deflate(object_bytes(data_type.spec_bytes(), content@)) is Some,
        r matches Ok(f) ==> {
            &&& f.hash@ == object_id(data_type.spec_bytes(), content@)
            &&& f.hash@.len() == 40
            &&& sha1_digest(object_bytes(data_type.spec_bytes(), content@)).len() == 20
            &&& zlib_deflate(object_bytes(data_type.spec_bytes(), content@)) == Some(f.compressed@)
            &&& zlib_inflate(f.compressed@) == Some(object_bytes(data_type.spec_bytes(), content@))
        },
{
    let bytes = encode_object(data_type, content);
    let hash = match make_hash(&bytes) {
        Ok(h) => h,
        Err(e) => return Err(e),
    };
    let compressed = match zlib_encode(&bytes) {
        Ok(c) => c,
        Err(e) => return Err(e),
    };
    Ok(ObjectFile { hash, compressed })
}

/// What `cat-file -p` prints of a decompressed object: of the part after the
/// last `/`, what follows its first NUL byte (everything but its first byte
/// where it has no NUL).
pub open spec fn cat_file_payload(s: Seq<u8>) -> Seq<u8> {
    let start = match last_index_of(s, 47, 0, s.len() as int) {
        Some(j) => j + 1,
        None => 0,
    };
    let nul = match index_of(s, 0, start, s.len() as int) {
        Some(k) => k,
        None => start,
    };
    s.subrange(nul + 1, s.len() as int)
}

/// The bytes `cat-file -p` prints of a decompressed object. The object
/// must not be empty nor end with `/`: there, nothing would follow.
pub fn object_payload(data: &Vec<u8>) -> (r: Vec<u8>)
    requires
        data@.len() > 0,
        data@.last() != 47u8,
    ensures
        r@ == cat_file_payload(data@),
{
    let len = data.len();
    proof {
        lemma_last_index_of(data@, 47, 0, len as int);
    }
    let start = match find_last_byte(data.as_slice(), 47, 0, len) {
        Some(j) => j + 1,
        None => 0,
    };
    proof {
        lemma_index_of(data@, 0, start as int, len as int);
    }
    let nul = match find_byte(data.as_slice(), 0, start, len) {
        Some(k) => k,
        None => start,
    };
    proof {
        lemma_index_of(data@, 0, start as int, len as int);
    }
    copy_range(data.as_slice(), nul + 1, len)
}

/// `cat-file -p` gives back the content of an object stored by
/// `hash-object`: where neither the type nor the content holds a `/`, and the
/// type holds no NUL byte, the payload of the object's bytes is the content,
/// and those bytes may be handed to `object_payload`.
pub proof fn lemma_cat_file_of_object(kind: Seq<u8>, content: Seq<u8>)
    requires
        forall|i: int| 0 <= i < kind.len() ==> kind[i] != 0 && kind[i] != 47,
        forall|i: int| 0 <= i < content.len() ==> content[i] != 47,
    ensures
        object_bytes(kind, content).len() > 0,
        object_bytes(kind, content).last() != 47u8,
        cat_file_payload(object_bytes(kind, content)) == content,
{
    let s = object_bytes(kind, content);
    let d = decimal(content.len());
    lemma_decimal_digits(content.len());
    let p: int = kind.len() as int + 1 + d.len() as int;
    assert(s[p] == 0);
    assert forall|k: int| 0 <= k < s.len() implies s[k] != 47 by {
        if k < kind.len() {
        } else if k == kind.len() {
        } else if k < p {
            assert(s[k] == d[k - kind.len() - 1]);
        } else if k > p {
            assert(s[k] == content[k - p - 1]);
        }
    }
    lemma_last_index_of_none(s, 47, 0, s.len() as int);
    assert forall|k: int| 0 <= k < p implies s[k] != 0 by {
        if k < kind.len() {
        } else if k == kind.len() {
        } else {
            assert(s[k] == d[k - kind.len() - 1]);
        }
    }
    lemma_index_of_skip(s, 0, 0, p, s.len() as int);
    assert(s.subrange(p + 1, s.len() as int) =~= content);
}

/// What a checkout writes of a decompressed blob: what follows its first NUL
/// byte; `ContentNotFound` where it has none.
pub open spec fn blob_content_of(s: Seq<u8>) -> Result<Seq<u8>, ErrorKind> {
    match index_of(s, 0, 0, s.len() as int) {
        Some(p) => Ok(s.subrange(p + 1, s.len() as int)),
        None => Err(ErrorKind::ContentNotFound),
    }
}

/// The content of a decompressed object: what follows its first NUL byte.
pub fn blob_content(data: &Vec<u8>) -> (r: Result<Vec<u8>, GitError>)
    ensures
        match blob_content_of(data@) {
            Ok(c) => r matches Ok(v) && v@ == c,
            Err(k) => r matches Err(e) && e.kind_of() == k,
        },
{
    let len = data.len();
    proof {
        lemma_index_of(data@, 0, 0, len as int);
    }
    match find_byte(data.as_slice(), 0, 0, len) {
        Some(p) => Ok(copy_range(data.as_slice(), p + 1, len)),
        None => Err(GitError::ContentNotFound),
    }
}

/// A checkout writes back the content of a stored object whose type holds
/// no NUL byte.
pub proof fn lemma_checkout_of_object(kind: Seq<u8>, content: Seq<u8>)
    requires
        forall|i: int| 0 <= i < kind.len() ==> kind[i] != 0,
    ensures
        blob_content_of(object_bytes(kind, content)) == Ok::<Seq<u8>, ErrorKind>(content),
{
    let s = object_bytes(kind, content);
    let d = decimal(content.len());
    lemma_decimal_digits(content.len());
    let p: int = kind.len() as int + 1 + d.len() as int;
    assert(s[p] == 0);
    assert forall|k: int| 0 <= k < p implies s[k] != 0 by {
        if k < kind.len() {
        } else if k == kind.len() {
        } else {
            assert(s[k] == d[k - kind.len() - 1]);
        }
    }
    lemma_index_of_at(s, 0, 0, p, s.len() as int);
    assert(s.subrange(p + 1, s.len() as int) =~= content);
}

/// The number that ASCII decimal digits stand for, most significant first.
pub open spec fn decimal_value(s: Seq<u8>) -> nat
    decreases s.len(),
{
    if s.len() == 0 {
        0
    } else {
        decimal_value(s.drop_last()) * 10 + (s.last() - 48) as nat
    }
}

/// The size in an object's header reads back as the size: the digits
/// `decimal(n)` stand for `n`, and begin with `0` only for `n == 0`.
pub proof fn lemma_decimal_value(n: nat)
    ensures
        decimal_value(decimal(n)) == n,
        decimal(n)[0] == 48u8 ==> n == 0,
    decreases n,
{
    lemma_decimal_digits(n);
    if n < 10 {
        assert(decimal(n).drop_last() =~= Seq::<u8>::empty());
        assert(decimal_value(Seq::<u8>::empty()) == 0);
        assert(decimal(n).last() == (48 + n) as u8);
    } else {
        lemma_decimal_value(n / 10);
        lemma_decimal_digits(n / 10);
        let d = decimal(n / 10);
        assert(decimal(n).drop_last() =~= d);
        assert(decimal(n).last() == (48 + n % 10) as u8);
        assert(((48 + n % 10) as u8 - 48) as nat == n % 10);
        assert((n / 10) * 10 + n % 10 == n) by (nonlinear_arith);
        assert(decimal(n)[0] == d[0]);
    }
}

/// The header of a stored object reads back what it was made of: where the
/// type holds no space and no NUL byte, the first space ends the type, the
/// first NUL byte ends the header, and the digits between them stand for
/// the content's length.
pub proof fn lemma_object_header(kind: Seq<u8>, content: Seq<u8>)
    requires
        forall|i: int| 0 <= i < kind.len() ==> kind[i] != 0 && kind[i] != 32,
    ensures
        ({
            let s = object_bytes(kind, content);
            let p = kind.len() as int + 1 + decimal(content.len()).len() as int;
            &&& index_of(s, 32, 0, s.len() as int) == Some(kind.len() as int)
            &&& index_of(s, 0, 0, s.len() as int) == Some(p)
            &&& s.subrange(0, kind.len() as int) == kind
            &&& decimal_value(s.subrange(kind.len() as int + 1, p)) == content.len()
            &&& s.subrange(p + 1, s.len() as int) == content
        }),
{
    let s = object_bytes(kind, content);
    let d = decimal(content.len());
    lemma_decimal_digits(content.len());
    lemma_decimal_value(content.len());
    let kl = kind.len() as int;
    let p: int = kl + 1 + d.len() as int;
    assert(s[kl] == 32u8);
    lemma_index_of_at(s, 32, 0, kl, s.len() as int);
    assert(s[p] == 0u8);
    assert forall|k: int| 0 <= k < p implies s[k] != 0u8 by {
        if k > kl {
            assert(s[k] == d[k - kl - 1]);
        }
    }
    lemma_index_of_at(s, 0, 0, p, s.len() as int);
    assert(s.subrange(0, kl) =~= kind);
    assert(s.subrange(kl + 1, p) =~= d);
    assert(s.subrange(p + 1, s.len() as int) =~= content);
}

} // verus!
