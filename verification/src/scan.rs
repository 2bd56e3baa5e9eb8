//! Searching and copying byte sequences.
use crate::error::ErrorKind;
use vstd::prelude::*;

verus! {

/// `r` with `a` in front of what it holds, or its error.
pub open spec fn prefixed<T>(a: Seq<T>, r: Result<Seq<T>, ErrorKind>) -> Result<Seq<T>, ErrorKind> {
    match r {
        Ok(x) => Ok(a + x),
        Err(e) => Err(e),
    }
}

/// The first index `j` in `[i, hi)` with `s[j] == b`.
pub open spec fn index_of(s: Seq<u8>, b: u8, i: int, hi: int) -> Option<int>
    decreases hi - i,
{
    if i < 0 || i >= hi || i >= s.len() {
        None
    } else if s[i] == b {
        Some(i)
    } else {
        index_of(s, b, i + 1, hi)
    }
}

/// The last index `j` in `[lo, hi)` with `s[j] == b`.
pub open spec fn last_index_of(s: Seq<u8>, b: u8, lo: int, hi: int) -> Option<int>
    decreases hi - lo,
{
    if hi <= lo || hi > s.len() || lo < 0 {
        None
    } else if s[hi - 1] == b {
        Some(hi - 1)
    } else {
        last_index_of(s, b, lo, hi - 1)
    }
}

/// What `index_of` finds lies in its range, holds `b`, and nothing before it does.
pub proof fn lemma_index_of(s: Seq<u8>, b: u8, i: int, hi: int)
    ensures
        index_of(s, b, i, hi) matches Some(j) ==> i <= j < hi && j < s.len() && s[j] == b && forall|
            k: int,
        |
            i <= k < j ==> s[k] != b,
        index_of(s, b, i, hi) is None ==> forall|k: int|
            i <= k < hi && 0 <= i && k < s.len() ==> s[k] != b,
    decreases hi - i,
{
    if !(i < 0 || i >= hi || i >= s.len()) && s[i] != b {
        lemma_index_of(s, b, i + 1, hi);
    }
}

/// Where nothing in `[i, j)` holds `b`, the search from `i` and from `j` agree.
pub proof fn lemma_index_of_skip(s: Seq<u8>, b: u8, i: int, j: int, hi: int)
    requires
        0 <= i <= j <= hi,
        j <= s.len(),
        forall|k: int| i <= k < j ==> s[k] != b,
    ensures
        index_of(s, b, i, hi) == index_of(s, b, j, hi),
    decreases j - i,
{
    if i < j {
        lemma_index_of_skip(s, b, i + 1, j, hi);
    }
}

/// What `last_index_of` finds lies in its range, holds `b`, and nothing after it does.
pub proof fn lemma_last_index_of(s: Seq<u8>, b: u8, lo: int, hi: int)
    ensures
        last_index_of(s, b, lo, hi) matches Some(j) ==> lo <= j < hi && s[j] == b && forall|k: int|
            j < k < hi ==> s[k] != b,
        last_index_of(s, b, lo, hi) is None && 0 <= lo && hi <= s.len() ==> forall|k: int|
            lo <= k < hi ==> s[k] != b,
    decreases hi - lo,
{
    if !(hi <= lo || hi > s.len() || lo < 0) && s[hi - 1] != b {
        lemma_last_index_of(s, b, lo, hi - 1);
    }
}

/// Where nothing in `[lo, hi)` holds `b`, `last_index_of` finds nothing.
pub proof fn lemma_last_index_of_none(s: Seq<u8>, b: u8, lo: int, hi: int)
    requires
        0 <= lo <= hi <= s.len(),
        forall|k: int| lo <= k < hi ==> s[k] != b,
    ensures
        last_index_of(s, b, lo, hi) is None,
    decreases hi - lo,
{
    if lo < hi {
        lemma_last_index_of_none(s, b, lo, hi - 1);
    }
}

/// The search finds `j` where `s[j] == b` and nothing in `[i, j)` holds `b`.
pub proof fn lemma_index_of_at(s: Seq<u8>, b: u8, i: int, j: int, hi: int)
    requires
        0 <= i <= j < hi,
        j < s.len(),
        s[j] == b,
        forall|k: int| i <= k < j ==> s[k] != b,
    ensures
        index_of(s, b, i, hi) == Some(j),
{
    lemma_index_of_skip(s, b, i, j, hi);
}

/// The backward search finds `j` where `s[j] == b` and nothing in `(j, hi)` holds `b`.
pub proof fn lemma_last_index_of_at(s: Seq<u8>, b: u8, lo: int, j: int, hi: int)
    requires
        0 <= lo <= j < hi <= s.len(),
        s[j] == b,
        forall|k: int| j < k < hi ==> s[k] != b,
    ensures
        last_index_of(s, b, lo, hi) == Some(j),
    decreases hi - j,
{
    if hi - 1 > j {
        lemma_last_index_of_at(s, b, lo, j, hi - 1);
    }
}

/// The first index in `[from, hi)` of `b` in `s`.
pub fn find_byte(s: &[u8], b: u8, from: usize, hi: usize) -> (r: Option<usize>)
    requires
        hi <= s@.len(),
    ensures
        r matches Some(j) ==> index_of(s@, b, from as int, hi as int) == Some(j as int),
        r is None ==> index_of(s@, b, from as int, hi as int) is None,
{
    let mut i = from;
    while i < hi
        invariant
            from <= i,
            hi <= s@.len(),
            index_of(s@, b, from as int, hi as int) == index_of(s@, b, i as int, hi as int),
        decreases hi - i,
    {
        if s[i] == b {
            return Some(i);
        }
        i = i + 1;
    }
    None
}

/// The last index in `[lo, hi)` of `b` in `s`.
pub fn find_last_byte(s: &[u8], b: u8, lo: usize, hi: usize) -> (r: Option<usize>)
    requires
        hi <= s@.len(),
    ensures
        r matches Some(j) ==> last_index_of(s@, b, lo as int, hi as int) == Some(j as int),
        r is None ==> last_index_of(s@, b, lo as int, hi as int) is None,
{
    let mut i = hi;
    while i > lo
        invariant
            i <= hi,
            hi <= s@.len(),
            last_index_of(s@, b, lo as int, hi as int) == last_index_of(
                s@,
                b,
                lo as int,
                i as int,
            ),
        decreases i,
    {
        if s[i - 1] == b {
            return Some(i - 1);
        }
        i = i - 1;
    }
    None
}

/// Appends the bytes of `s[lo..hi]` to `out`.
pub fn push_range(out: &mut Vec<u8>, s: &[u8], lo: usize, hi: usize)
    requires
        lo <= hi <= s@.len(),
    ensures
        final(out)@ == old(out)@ + s@.subrange(lo as int, hi as int),
{
    let mut i = lo;
    while i < hi
        invariant
            lo <= i <= hi <= s@.len(),
            out@ == old(out)@ + s@.subrange(lo as int, i as int),
        decreases hi - i,
    {
        out.push(s[i]);
        assert(s@.subrange(lo as int, i + 1) == s@.subrange(lo as int, i as int).push(s@[i as int]));
        i = i + 1;
    }
}

/// Appends all bytes of `s` to `out`.
pub fn push_all(out: &mut Vec<u8>, s: &[u8])
    ensures
        final(out)@ == old(out)@ + s@,
{
    push_range(out, s, 0, s.len());
    assert(s@.subrange(0, s@.len() as int) == s@);
}

/// The bytes `s[lo..hi]` as a vector.
pub fn copy_range(s: &[u8], lo: usize, hi: usize) -> (r: Vec<u8>)
    requires
        lo <= hi <= s@.len(),
    ensures
        r@ == s@.subrange(lo as int, hi as int),
{
    let mut out = Vec::new();
    push_range(&mut out, s, lo, hi);
    assert(Seq::<u8>::empty() + s@.subrange(lo as int, hi as int) == s@.subrange(lo as int, hi as int));
    out
}

} // verus!
