//! Pack deltas: the little-endian size fields selected by a key's bits, and
//! the copy and insert instructions that rebuild an object from its base.
use crate::error::{ErrorKind, GitError};
use crate::scan::{prefixed, push_range};
use vstd::prelude::*;

verus! {

/// `256` to the power `n`.
pub open spec fn pow256(n: nat) -> nat
    decreases n,
{
    if n == 0 {
        1
    } else {
        256 * pow256((n - 1) as nat)
    }
}

/// Whether bit `n` of `key` is set.
pub open spec fn key_bit(key: u8, n: u8) -> bool {
    (key >> n) & 1u8 == 1u8
}

/// The little-endian value made of the bytes at `pos` onwards, one byte for
/// each set bit `n..8` of `key` (the byte for bit `m` weighing `256^m`), and
/// the position after them; `None` where the bytes run out.
pub open spec fn size_field(key: u8, data: Seq<u8>, pos: int, n: nat) -> Option<(nat, int)>
    decreases 8 - n,
{
    if n >= 8 {
        Some((0, pos))
    } else if key_bit(key, n as u8) {
        if 0 <= pos < data.len() {
            match size_field(key, data, pos + 1, n + 1) {
                Some((v, end)) => Some(((data[pos] as nat) * pow256(n) + v, end)),
                None => None,
            }
        } else {
            None
        }
    } else {
        size_field(key, data, pos, n + 1)
    }
}

/// A size field ends at or after where it starts, and within the data where
/// it reads anything.
pub proof fn lemma_size_field_end(key: u8, data: Seq<u8>, pos: int, n: nat)
    ensures
        size_field(key, data, pos, n) matches Some((v, end)) ==> pos <= end && (end > pos ==> end
            <= data.len()),
    decreases 8 - n,
{
    if n < 8 {
        if key_bit(key, n as u8) {
            if 0 <= pos < data.len() {
                lemma_size_field_end(key, data, pos + 1, n + 1);
            }
        } else {
            lemma_size_field_end(key, data, pos, n + 1);
        }
    }
}

/// `Some((a + v, end))` for `Some((v, end))`.
pub open spec fn shifted(a: nat, r: Option<(nat, int)>) -> Option<(nat, int)> {
    match r {
        Some((v, end)) => Some((a + v, end)),
        None => None,
    }
}

proof fn lemma_pow256_bound(n: nat)
    requires
        n <= 8,
    ensures
        pow256(n) <= pow256(8),
        n <= 7 ==> pow256(n) <= pow256(7),
        pow256(7) == 0x100_0000_0000_0000,
        pow256(8) == 0x1_0000_0000_0000_0000,
    decreases 8 - n,
{
    reveal_with_fuel(pow256, 9);
    if n < 8 {
        lemma_pow256_bound(n + 1);
    }
}

/// Reads the size field selected by `data_key` at `*seek`, moving `*seek`
/// past its bytes. The value has up to eight bytes and is returned as `u64`,
/// the width of `usize` on the 64-bit targets the format is read on. Fails with `IndexMissing` where the bytes run out; `*seek`
/// then stands at the end of the data (or where it stood, if beyond).
pub fn decode_usize(data_key: u8, seek: &mut usize, data: &[u8]) -> (r: Result<u64, GitError>)
    ensures
        match size_field(data_key, data@, *old(seek) as int, 0) {
            Some((v, end)) => r matches Ok(x) && x == v && *final(seek) == end,
            None => r matches Err(e) && e.kind_of() == ErrorKind::IndexMissing && *final(seek) == (
            if *old(seek) < data@.len() {
                data@.len() as usize
            } else {
                *old(seek)
            }),
        },
{
    let ghost start = *seek;
    let mut value: u64 = 0;
    let mut weight: u64 = 1;
    let mut n: u8 = 0;
    proof {
        lemma_pow256_bound(0);
    }
    while n < 8
        invariant
            n <= 8,
            n < 8 ==> weight == pow256(n as nat),
            value < pow256(n as nat),
            start == *old(seek),
            start <= *seek,
            *seek > start ==> *seek <= data@.len(),
            size_field(data_key, data@, start as int, 0) == shifted(
                value as nat,
                size_field(data_key, data@, *seek as int, n as nat),
            ),
        decreases 8 - n,
    {
        if (data_key >> n) & 1 == 1 {
            if *seek >= data.len() {
                return Err(GitError::IndexMissing);
            }
            let byte = data[*seek];
            proof {
                lemma_pow256_bound(n as nat + 1);
                assert((byte as int) * (weight as int) <= 255 * (weight as int)) by (nonlinear_arith)
                    requires
                        byte <= 255,
                        weight >= 0,
                ;
                assert(pow256(n as nat + 1) == 256 * pow256(n as nat));
            }
            value = value + (byte as u64) * weight;
            *seek = *seek + 1;
        }
        if n < 7 {
            proof {
                lemma_pow256_bound(n as nat + 1);
                assert(pow256(n as nat + 1) == 256 * pow256(n as nat));
            }
            weight = weight * 256;
        }
        proof {
            assert(pow256(n as nat + 1) == 256 * pow256(n as nat));
        }
        n = n + 1;
    }
    Ok(value)
}

/// The position after a size field of the pack format: bytes above 128
/// continue it, the first byte up to 128 ends it; `None` where the data ends
/// first.
pub open spec fn size_end(s: Seq<u8>, i: int) -> Option<int>
    decreases s.len() - i,
{
    if i < 0 || i >= s.len() {
        None
    } else if s[i] > 128 {
        size_end(s, i + 1)
    } else {
        Some(i + 1)
    }
}

/// A size field ends after where it starts, within the data.
pub proof fn lemma_size_end(s: Seq<u8>, i: int)
    ensures
        size_end(s, i) matches Some(e) ==> i < e <= s.len(),
    decreases s.len() - i,
{
    if !(i < 0 || i >= s.len()) && s[i] > 128 {
        lemma_size_end(s, i + 1);
    }
}

/// The position after a size field starting at `i`.
pub fn skip_size(s: &[u8], i: usize) -> (r: Option<usize>)
    ensures
        r matches Some(e) ==> size_end(s@, i as int) == Some(e as int),
        r is None ==> size_end(s@, i as int) is None,
{
    let mut j = i;
    while j < s.len() && s[j] > 128
        invariant
            i <= j,
            size_end(s@, i as int) == size_end(s@, j as int),
        decreases s@.len() - j,
    {
        j = j + 1;
    }
    if j < s.len() {
        Some(j + 1)
    } else {
        None
    }
}

/// Where the instructions of a delta start: after its two size fields (the
/// sizes of the base and of the result).
pub open spec fn delta_start(delta: Seq<u8>) -> Option<int> {
    match size_end(delta, 0) {
        Some(a) => size_end(delta, a),
        None => None,
    }
}

/// The position where a delta's instructions start.
pub fn delta_body_start(delta: &[u8]) -> (r: Option<usize>)
    ensures
        r matches Some(p) ==> delta_start(delta@) == Some(p as int),
        r is None ==> delta_start(delta@) is None,
{
    match skip_size(delta, 0) {
        Some(a) => skip_size(delta, a),
        None => None,
    }
}

/// What the instructions from `seek` on produce. An instruction byte from
/// 128 up copies `len` bytes of the base from `off`, both read as size fields
/// selected by its low four bits and by its bits 4 to 6; a byte below 128
/// inserts that many of the following bytes.
pub open spec fn delta_ops(delta: Seq<u8>, base: Seq<u8>, seek: int) -> Result<Seq<u8>, ErrorKind>
    decreases delta.len() - seek,
{
    if seek < 0 || seek >= delta.len() {
        Ok(Seq::empty())
    } else {
        let instr = delta[seek];
        if instr >= 128 {
            match size_field(instr & 15u8, delta, seek + 1, 0) {
                None => Err(ErrorKind::IndexMissing),
                Some((off, s2)) => match size_field((instr & 0x70u8) >> 4u8, delta, s2, 0) {
                    None => Err(ErrorKind::IndexMissing),
                    Some((len, s3)) => {
                        if off + len > base.len() {
                            Err(ErrorKind::RangeMissing)
                        } else {
                            proof {
                                lemma_size_field_end(instr & 15u8, delta, seek + 1, 0);
                                lemma_size_field_end((instr & 0x70u8) >> 4u8, delta, s2, 0);
                            }
                            prefixed(base.subrange(off as int, (off + len) as int), delta_ops(delta, base, s3))
                        }
                    },
                },
            }
        } else {
            let n = instr as int;
            if seek + 1 + n > delta.len() {
                Err(ErrorKind::RangeMissing)
            } else {
                prefixed(delta.subrange(seek + 1, seek + 1 + n), delta_ops(delta, base, seek + 1 + n))
            }
        }
    }
}

/// The instructions of a delta report only their own errors.
pub proof fn lemma_delta_ops_never_short(delta: Seq<u8>, base: Seq<u8>, seek: int)
    ensures
        delta_ops(delta, base, seek) != Err::<Seq<u8>, ErrorKind>(ErrorKind::ResponseTooShort),
    decreases delta.len() - seek,
{
    if 0 <= seek < delta.len() {
        let instr = delta[seek];
        if instr >= 128 {
            lemma_size_field_end(instr & 15u8, delta, seek + 1, 0);
            if let Some((off, s2)) = size_field(instr & 15u8, delta, seek + 1, 0) {
                lemma_size_field_end((instr & 0x70u8) >> 4u8, delta, s2, 0);
                if let Some((len, s3)) = size_field((instr & 0x70u8) >> 4u8, delta, s2, 0) {
                    if off + len <= base.len() {
                        lemma_delta_ops_never_short(delta, base, s3);
                    }
                }
            }
        } else if seek + 1 + instr as int <= delta.len() {
            lemma_delta_ops_never_short(delta, base, seek + 1 + instr as int);
        }
    }
}

/// The object a delta rebuilds from its base; `OutOfRange` where the delta
/// ends within its size fields.
pub open spec fn apply_delta(delta: Seq<u8>, base: Seq<u8>) -> Result<Seq<u8>, ErrorKind> {
    match delta_start(delta) {
        None => Err(ErrorKind::OutOfRange),
        Some(start) => delta_ops(delta, base, start),
    }
}

/// Rebuilds an object from its base and a delta. Copies that reach past the
/// base, and inserts that reach past the delta, fail with `RangeMissing`;
/// size fields cut short fail with `IndexMissing`. A delta that ends within
/// its two leading size fields is left out (see `delta_body_start`).
pub fn undeltified(delta: &[u8], base: &[u8]) -> (r: Result<Vec<u8>, GitError>)
    requires
        delta_start(delta@) is Some,
    ensures
        match apply_delta(delta@, base@) {
            Ok(c) => r matches Ok(v) && v@ == c,
            Err(k) => r matches Err(e) && e.kind_of() == k,
        },
{
    proof {
        lemma_size_end(delta@, 0);
        if let Some(a) = size_end(delta@, 0) {
            lemma_size_end(delta@, a);
        }
    }
    let first = match delta_body_start(delta) {
        Some(p) => p,
        None => return Err(GitError::OutOfRange),
    };
    let mut seek = first;
    let mut content: Vec<u8> = Vec::new();
    let delta_len = delta.len();
    assert(prefixed(content@, delta_ops(delta@, base@, seek as int)) =~= delta_ops(
        delta@,
        base@,
        first as int,
    )) by {
        match delta_ops(delta@, base@, first as int) {
            Ok(x) => assert(Seq::<u8>::empty() + x =~= x),
            Err(_) => {},
        }
    }
    while seek < delta_len
        invariant
            seek <= delta_len,
            delta_len == delta@.len(),
            apply_delta(delta@, base@) == delta_ops(delta@, base@, first as int),
            delta_ops(delta@, base@, first as int) == prefixed(
                content@,
                delta_ops(delta@, base@, seek as int),
            ),
        decreases delta_len - seek,
    {
        let ghost at = seek as int;
        let instr = delta[seek];
        seek = seek + 1;
        if instr >= 128 {
            let offset = match decode_usize(instr & 15, &mut seek, delta) {
                Ok(v) => v,
                Err(e) => return Err(e),
            };
            proof {
                lemma_size_field_end(instr & 15u8, delta@, at + 1, 0);
            }
            let ghost s2 = seek as int;
            let len_int = match decode_usize((instr & 0x70) >> 4, &mut seek, delta) {
                Ok(v) => v,
                Err(e) => return Err(e),
            };
            proof {
                lemma_size_field_end((instr & 0x70u8) >> 4u8, delta@, s2, 0);
            }
            let base_len = base.len() as u64;
            if len_int > base_len || offset > base_len - len_int {
                return Err(GitError::RangeMissing);
            }
            let offset = offset as usize;
            let len_int = len_int as usize;
            let ghost before = content@;
            push_range(&mut content, base, offset, offset + len_int);
            proof {
                match delta_ops(delta@, base@, seek as int) {
                    Ok(x) => {
                        let piece = base@.subrange(offset as int, offset + len_int);
                        assert(before + (piece + x) =~= (before + piece) + x);
                    },
                    Err(_) => {},
                }
            }
        } else {
            let num = instr as usize;
            if num > delta_len - seek {
                return Err(GitError::RangeMissing);
            }
            let ghost before = content@;
            push_range(&mut content, delta, seek, seek + num);
            proof {
                match delta_ops(delta@, base@, seek + num) {
                    Ok(x) => {
                        let piece = delta@.subrange(seek as int, seek + num);
                        assert(before + (piece + x) =~= (before + piece) + x);
                    },
                    Err(_) => {},
                }
            }
            seek = seek + num;
        }
    }
    assert(content@ + Seq::<u8>::empty() =~= content@);
    Ok(content)
}

/// A size field whose key has no set bit from `n` on reads nothing: value 0,
/// ending where it starts.
proof fn lemma_size_field_empty(key: u8, data: Seq<u8>, pos: int, n: nat)
    requires
        n <= 8,
        n < 8 ==> key >> (n as u8) == 0u8,
    ensures
        size_field(key, data, pos, n) == Some((0nat, pos)),
    decreases 8 - n,
{
    if n < 8 {
        let m = n as u8;
        assert((key >> m) & 1u8 != 1u8) by (bit_vector)
            requires
                key >> m == 0u8,
        ;
        if n + 1 < 8 {
            assert(key >> ((m + 1) as u8) == 0u8) by (bit_vector)
                requires
                    key >> m == 0u8,
                    m < 7,
            ;
        }
        lemma_size_field_empty(key, data, pos, n + 1);
    }
}

/// The size field of key 1 is the single byte at `pos`.
proof fn lemma_size_field_one_byte(data: Seq<u8>, pos: int)
    requires
        0 <= pos < data.len(),
    ensures
        size_field(1u8, data, pos, 0) == Some((data[pos] as nat, pos + 1)),
{
    assert((1u8 >> 0u8) & 1u8 == 1u8) by (bit_vector);
    assert(1u8 >> 1u8 == 0u8) by (bit_vector);
    lemma_size_field_empty(1u8, data, pos + 1, 1);
    assert(pow256(0) == 1);
}

/// A size field of key 3 is two bytes, little-endian: the first is the low one.
pub proof fn lemma_size_field_little_endian(data: Seq<u8>, pos: int)
    requires
        0 <= pos,
        pos + 2 <= data.len(),
    ensures
        size_field(3u8, data, pos, 0) == Some(((data[pos] + 256 * data[pos + 1]) as nat, pos + 2)),
{
    assert((3u8 >> 0u8) & 1u8 == 1u8) by (bit_vector);
    assert((3u8 >> 1u8) & 1u8 == 1u8) by (bit_vector);
    assert(3u8 >> 2u8 == 0u8) by (bit_vector);
    lemma_size_field_empty(3u8, data, pos + 2, 2);
    reveal_with_fuel(pow256, 2);
    assert(pow256(0) == 1 && pow256(1) == 256);
    assert(size_field(3u8, data, pos + 1, 1) == Some(((data[pos + 1] as nat) * 256, pos + 2)));
    assert(size_field(3u8, data, pos, 0) == Some(
        ((data[pos] as nat) * 1 + (data[pos + 1] as nat) * 256, pos + 2),
    ));
}

/// Where the two leading size fields of a delta are one byte each (up to
/// 128), its instructions start at index 2.
proof fn lemma_short_header(delta: Seq<u8>)
    requires
        delta.len() >= 2,
        delta[0] <= 128,
        delta[1] <= 128,
    ensures
        delta_start(delta) == Some(2int),
{
}

/// A copy instruction `0x90` has no offset bytes and one length byte `n`: it
/// copies the first `n` bytes of the base. So `[s, t, 0x90, n]` rebuilds
/// `base[0..n]`, and a following insert of one byte `x` appends `x`; where
/// `n` reaches past the base the copy fails with `RangeMissing`.
pub proof fn lemma_copy_from_start(s: u8, t: u8, n: u8, x: u8, base: Seq<u8>)
    requires
        s <= 128,
        t <= 128,
    ensures
        n <= base.len() ==> apply_delta(seq![s, t, 0x90u8, n], base) == Ok::<Seq<u8>, ErrorKind>(
            base.subrange(0, n as int),
        ),
        n <= base.len() ==> apply_delta(seq![s, t, 0x90u8, n, 1u8, x], base) == Ok::<
            Seq<u8>,
            ErrorKind,
        >(base.subrange(0, n as int).push(x)),
        n > base.len() ==> apply_delta(seq![s, t, 0x90u8, n], base) == Err::<Seq<u8>, ErrorKind>(
            ErrorKind::RangeMissing,
        ),
{
    assert(0x90u8 & 15u8 == 0u8) by (bit_vector);
    assert((0x90u8 & 0x70u8) >> 4u8 == 1u8) by (bit_vector);
    assert(0u8 >> 0u8 == 0u8) by (bit_vector);
    let d1 = seq![s, t, 0x90u8, n];
    let d2 = seq![s, t, 0x90u8, n, 1u8, x];
    lemma_short_header(d1);
    lemma_short_header(d2);
    lemma_size_field_empty(0u8, d1, 3, 0);
    lemma_size_field_empty(0u8, d2, 3, 0);
    lemma_size_field_one_byte(d1, 3);
    lemma_size_field_one_byte(d2, 3);
    assert(delta_ops(d1, base, 4) == Ok::<Seq<u8>, ErrorKind>(Seq::empty()));
    assert(delta_ops(d2, base, 6) == Ok::<Seq<u8>, ErrorKind>(Seq::empty()));
    assert(d2.subrange(5, 6) =~= seq![x]);
    assert(delta_ops(d2, base, 4) == Ok::<Seq<u8>, ErrorKind>(seq![x])) by {
        assert(seq![x] + Seq::<u8>::empty() =~= seq![x]);
    }
    if n <= base.len() {
        assert(base.subrange(0, n as int) + Seq::<u8>::empty() =~= base.subrange(0, n as int));
        assert(base.subrange(0, n as int) + seq![x] =~= base.subrange(0, n as int).push(x));
    }
}

/// A copy instruction `0x91` reads one offset byte `o` (selected by its low
/// four bits) and then one length byte `n` (selected by bits 4 to 6): it
/// copies `base[o..o + n]`.
pub proof fn lemma_copy_with_offset(s: u8, t: u8, o: u8, n: u8, base: Seq<u8>)
    requires
        s <= 128,
        t <= 128,
        o + n <= base.len(),
    ensures
        apply_delta(seq![s, t, 0x91u8, o, n], base) == Ok::<Seq<u8>, ErrorKind>(
            base.subrange(o as int, o + n),
        ),
{
    assert(0x91u8 & 15u8 == 1u8) by (bit_vector);
    assert((0x91u8 & 0x70u8) >> 4u8 == 1u8) by (bit_vector);
    let d = seq![s, t, 0x91u8, o, n];
    lemma_short_header(d);
    lemma_size_field_one_byte(d, 3);
    lemma_size_field_one_byte(d, 4);
    assert(delta_ops(d, base, 5) == Ok::<Seq<u8>, ErrorKind>(Seq::empty()));
    assert(base.subrange(o as int, o + n) + Seq::<u8>::empty() =~= base.subrange(o as int, o + n));
}

/// A copy instruction `0xb1` reads one offset byte `o` and a length of two
/// bytes, low byte first: it copies `base[o..o + lo + 256 * hi]`.
pub proof fn lemma_copy_two_byte_length(s: u8, t: u8, o: u8, lo: u8, hi: u8, base: Seq<u8>)
    requires
        s <= 128,
        t <= 128,
        o + lo + 256 * hi <= base.len(),
    ensures
        apply_delta(seq![s, t, 0xb1u8, o, lo, hi], base) == Ok::<Seq<u8>, ErrorKind>(
            base.subrange(o as int, o + lo + 256 * hi),
        ),
{
    assert(0xb1u8 & 15u8 == 1u8) by (bit_vector);
    assert((0xb1u8 & 0x70u8) >> 4u8 == 3u8) by (bit_vector);
    let d = seq![s, t, 0xb1u8, o, lo, hi];
    lemma_short_header(d);
    lemma_size_field_one_byte(d, 3);
    lemma_size_field_little_endian(d, 4);
    assert(delta_ops(d, base, 6) == Ok::<Seq<u8>, ErrorKind>(Seq::empty()));
    let piece = base.subrange(o as int, o + lo + 256 * hi);
    assert(piece + Seq::<u8>::empty() =~= piece);
}

} // verus!
