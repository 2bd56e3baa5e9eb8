//! Cloning over the smart HTTP protocol: finding the advertised head, the
//! request for its pack, decoding the pack's objects (resolving reference
//! deltas against the objects before them), and reading the tree of the
//! fetched commit.
use crate::codec::{hex_encode, hex_lower, inflate, zlib_inflate, zlib_input_used};
use crate::commit::{commit_content_of, lemma_commit_literals};
use crate::delta::{
    apply_delta, delta_body_start, lemma_size_end, size_end, skip_size, undeltified,
};
use crate::error::{ErrorKind, GitError};
use crate::object::{
    decimal, encode_object, lemma_decimal_digits, make_hash, object_bytes, object_id,
};
use crate::scan::{
    copy_range, find_byte, find_last_byte, index_of, last_index_of, lemma_index_of, lemma_index_of_at,
    push_all, push_range,
};
use vstd::prelude::*;
use vstd::slice::slice_subrange;
use vstd::string::StringSliceAdditionalSpecFns;

verus! {

/// The name of a pack object type, by its number; the empty name for the
/// numbers without one.
pub open spec fn type_name_bytes(kind: u8) -> Seq<u8> {
    if kind == 1 {
        "commit".spec_bytes()
    } else if kind == 2 {
        "tree".spec_bytes()
    } else if kind == 3 {
        "blob".spec_bytes()
    } else if kind == 5 {
        "tag".spec_bytes()
    } else if kind == 6 {
        "ofs_delta".spec_bytes()
    } else if kind == 7 {
        "refs_delta".spec_bytes()
    } else {
        "".spec_bytes()
    }
}

/// The name of a pack object type, by its number.
pub fn object_type_name(kind: u8) -> (r: &'static str)
    ensures
        r.spec_bytes() == type_name_bytes(kind),
{
    if kind == 1 {
        "commit"
    } else if kind == 2 {
        "tree"
    } else if kind == 3 {
        "blob"
    } else if kind == 5 {
        "tag"
    } else if kind == 6 {
        "ofs_delta"
    } else if kind == 7 {
        "refs_delta"
    } else {
        ""
    }
}

/// An object decoded from a pack: its type number, its content, and its
/// name (the hexadecimal SHA-1 of the loose object it is stored as).
#[derive(Debug)]
pub struct PackObject {
    pub kind: u8,
    pub content: Vec<u8>,
    pub id: String,
}

impl View for PackObject {
    type V = (u8, Seq<u8>, Seq<char>);

    open spec fn view(&self) -> (u8, Seq<u8>, Seq<char>) {
        (self.kind, self.content@, self.id@)
    }
}

/// The value of four bytes, most significant first.
pub open spec fn be_u32(b: Seq<u8>) -> nat {
    (b[0] as nat) * 0x100_0000 + (b[1] as nat) * 0x1_0000 + (b[2] as nat) * 0x100 + (b[3] as nat)
}

/// The server's answer to a pack request: 20 leading bytes (whose last four
/// count the objects), the objects, and 20 trailing bytes. `ResponseTooShort`
/// under 20 bytes; `OutOfRange` under 40, where the leading and trailing
/// bytes overlap.
pub open spec fn pack_header_of(r: Seq<u8>) -> Result<(nat, Seq<u8>), ErrorKind> {
    if r.len() < 20 {
        Err(ErrorKind::ResponseTooShort)
    } else if r.len() < 40 {
        Err(ErrorKind::OutOfRange)
    } else {
        Ok((be_u32(r.subrange(16, 20)), r.subrange(20, r.len() - 20)))
    }
}

/// The object count and the object data of the server's answer.
pub fn pack_header(res_data: &[u8]) -> (r: Result<(u32, Vec<u8>), GitError>)
    ensures
        match pack_header_of(res_data@) {
            Ok((n, d)) => r matches Ok((c, v)) && c == n && v@ == d,
            Err(k) => r matches Err(e) && e.kind_of() == k && (k == ErrorKind::ResponseTooShort
                ==> (e matches GitError::ResponseTooShort(n) && n == res_data@.len())),
        },
{
    let len = res_data.len();
    if len < 20 {
        return Err(GitError::ResponseTooShort(len));
    }
    if len < 40 {
        return Err(GitError::OutOfRange);
    }
    let count: u32 = (res_data[16] as u32) * 0x100_0000 + (res_data[17] as u32) * 0x1_0000 + (
    res_data[18] as u32) * 0x100 + (res_data[19] as u32);
    let data = copy_range(res_data, 20, len - 20);
    Ok((count, data))
}

/// The index of the last of the first `hi` objects named `id`.
pub open spec fn latest_with_id(known: Seq<(u8, Seq<u8>, Seq<char>)>, id: Seq<char>, hi: int) -> Option<
    int,
>
    decreases hi,
{
    if hi <= 0 || hi > known.len() {
        None
    } else if known[hi - 1].2 == id {
        Some(hi - 1)
    } else {
        latest_with_id(known, id, hi - 1)
    }
}

/// What `latest_with_id` finds is one of the first `hi` objects and has that name.
pub proof fn lemma_latest_with_id(known: Seq<(u8, Seq<u8>, Seq<char>)>, id: Seq<char>, hi: int)
    ensures
        latest_with_id(known, id, hi) matches Some(b) ==> 0 <= b < hi <= known.len() && known[b].2
            == id,
    decreases hi,
{
    if !(hi <= 0 || hi > known.len()) && known[hi - 1].2 != id {
        lemma_latest_with_id(known, id, hi - 1);
    }
}

/// The object of a pack at `seek` and the position after it, given the
/// objects before it. Its first byte holds the type in bits 4 to 6, and
/// starts a size field. A type below 7 is followed by the zlib stream of
/// the content, and the position after it is taken as the size field's end
/// plus the length of the content. Type 7 is followed by the 20-byte name
/// of its base, the last earlier object of that name, and the zlib stream
/// of a delta against it; the object takes the base's type, and the
/// position after it is the end of the delta's stream. `OutOfRange` where
/// the data ends first, where no earlier object has the base's name, or
/// where a delta ends within its size fields.
pub open spec fn pack_object_at(d: Seq<u8>, seek: int, known: Seq<(u8, Seq<u8>, Seq<char>)>) -> Result<
    ((u8, Seq<u8>, Seq<char>), int),
    ErrorKind,
> {
    if seek < 0 || seek >= d.len() {
        Err(ErrorKind::OutOfRange)
    } else {
        let t = (d[seek] & 0x70u8) >> 4u8;
        match size_end(d, seek) {
            None => Err(ErrorKind::OutOfRange),
            Some(s1) => {
                if t < 7 {
                    match zlib_inflate(d.subrange(s1, d.len() as int)) {
                        None => Err(ErrorKind::Io),
                        Some(v) => {
                            if s1 + v.len() > usize::MAX {
                                Err(ErrorKind::OutOfRange)
                            } else {
                                Ok(((t, v, object_id(type_name_bytes(t), v)), s1 + v.len()))
                            }
                        },
                    }
                } else if s1 + 20 > d.len() {
                    Err(ErrorKind::BaseIdMissing)
                } else {
                    let id = hex_lower(d.subrange(s1, s1 + 20));
                    match latest_with_id(known, id, known.len() as int) {
                        None => Err(ErrorKind::OutOfRange),
                        Some(b) => {
                            let base = known[b];
                            let rest = d.subrange(s1 + 20, d.len() as int);
                            match zlib_inflate(rest) {
                                None => Err(ErrorKind::Io),
                                Some(delta) => match apply_delta(delta, base.1) {
                                    Err(k) => Err(k),
                                    Ok(c) => Ok(
                                        (
                                            (base.0, c, object_id(type_name_bytes(base.0), c)),
                                            s1 + 20 + zlib_input_used(rest),
                                        ),
                                    ),
                                },
                            }
                        },
                    }
                }
            },
        }
    }
}

/// The views of decoded objects.
pub open spec fn objects_view(v: Seq<PackObject>) -> Seq<(u8, Seq<u8>, Seq<char>)> {
    v.map_values(|o: PackObject| o@)
}

fn find_latest(known: &Vec<PackObject>, id: &String) -> (r: Option<usize>)
    ensures
        r matches Some(b) ==> latest_with_id(objects_view(known@), id@, known@.len() as int) == Some(
            b as int,
        ),
        r is None ==> latest_with_id(objects_view(known@), id@, known@.len() as int) is None,
{
    let ghost kv = objects_view(known@);
    let mut hi = known.len();
    while hi > 0
        invariant
            hi <= known@.len(),
            kv == objects_view(known@),
            latest_with_id(kv, id@, known@.len() as int) == latest_with_id(kv, id@, hi as int),
        decreases hi,
    {
        assert(kv[hi - 1] == known@[hi - 1]@);
        if known[hi - 1].id == *id {
            return Some(hi - 1);
        }
        hi = hi - 1;
    }
    None
}

/// The object of the pack data `data` at `seek` and the position after it,
/// given the objects decoded before it.
pub fn next_pack_object(data: &Vec<u8>, seek: usize, known: &Vec<PackObject>) -> (r: Result<
    (PackObject, usize),
    GitError,
>)
    ensures
        match pack_object_at(data@, seek as int, objects_view(known@)) {
            Ok((o, next)) => r matches Ok((p, n)) && p@ == o && n == next,
            Err(k) => r matches Err(e) && e.kind_of() == k,
        },
{
    let len = data.len();
    if seek >= len {
        return Err(GitError::OutOfRange);
    }
    let first = data[seek];
    let kind: u8 = (first & 0x70) >> 4;
    proof {
        lemma_size_end(data@, seek as int);
    }
    let s1 = match skip_size(data.as_slice(), seek) {
        Some(e) => e,
        None => return Err(GitError::OutOfRange),
    };
    if kind < 7 {
        let (content, _used) = match inflate(slice_subrange(data.as_slice(), s1, len)) {
            Ok(x) => x,
            Err(e) => return Err(GitError::Io(e)),
        };
        if content.len() > usize::MAX - s1 {
            return Err(GitError::OutOfRange);
        }
        let next = s1 + content.len();
        let id = match make_hash(&encode_object(object_type_name(kind), &content)) {
            Ok(h) => h,
            Err(e) => return Err(GitError::Io(e)),
        };
        Ok((PackObject { kind, content, id }, next))
    } else {
        if len - s1 < 20 {
            return Err(GitError::BaseIdMissing);
        }
        let base_id = hex_encode(slice_subrange(data.as_slice(), s1, s1 + 20));
        proof {
            lemma_latest_with_id(objects_view(known@), base_id@, known@.len() as int);
        }
        let b = match find_latest(known, &base_id) {
            Some(b) => b,
            None => return Err(GitError::OutOfRange),
        };
        let base = &known[b];
        assert(objects_view(known@)[b as int] == base@);
        let s2 = s1 + 20;
        let (delta, used) = match inflate(slice_subrange(data.as_slice(), s2, len)) {
            Ok(x) => x,
            Err(e) => return Err(GitError::Io(e)),
        };
        if delta_body_start(delta.as_slice()).is_none() {
            return Err(GitError::OutOfRange);
        }
        let content = match undeltified(delta.as_slice(), base.content.as_slice()) {
            Ok(c) => c,
            Err(e) => return Err(e),
        };
        let kind = base.kind;
        let id = match make_hash(&encode_object(object_type_name(kind), &content)) {
            Ok(h) => h,
            Err(e) => return Err(GitError::Io(e)),
        };
        Ok((PackObject { kind, content, id }, s2 + used as usize))
    }
}

/// The `count` objects of the pack data from `seek` on, after `known`; the
/// whole sequence of objects decoded.
pub open spec fn pack_objects_from(
    d: Seq<u8>,
    count: nat,
    seek: int,
    known: Seq<(u8, Seq<u8>, Seq<char>)>,
) -> Result<Seq<(u8, Seq<u8>, Seq<char>)>, ErrorKind>
    decreases count,
{
    if count == 0 {
        Ok(known)
    } else {
        match pack_object_at(d, seek, known) {
            Err(k) => Err(k),
            Ok((o, next)) => pack_objects_from(d, (count - 1) as nat, next, known.push(o)),
        }
    }
}

/// Decoding objects never reports a response that is too short: only the
/// response's header is.
pub proof fn lemma_pack_objects_never_short(
    d: Seq<u8>,
    count: nat,
    seek: int,
    known: Seq<(u8, Seq<u8>, Seq<char>)>,
)
    ensures
        pack_objects_from(d, count, seek, known) != Err::<Seq<(u8, Seq<u8>, Seq<char>)>, ErrorKind>(
            ErrorKind::ResponseTooShort,
        ),
    decreases count,
{
    if count > 0 {
        if let Ok((o, next)) = pack_object_at(d, seek, known) {
            lemma_pack_objects_never_short(d, (count - 1) as nat, next, known.push(o));
        } else if seek >= 0 && seek < d.len() {
            if let Some(s1) = size_end(d, seek) {
                let t = (d[seek] & 0x70u8) >> 4u8;
                if t >= 7 && s1 + 20 <= d.len() {
                    let id = hex_lower(d.subrange(s1, s1 + 20));
                    if let Some(b) = latest_with_id(known, id, known.len() as int) {
                        let rest = d.subrange(s1 + 20, d.len() as int);
                        if let Some(delta) = zlib_inflate(rest) {
                            if let Some(start) = crate::delta::delta_start(delta) {
                                crate::delta::lemma_delta_ops_never_short(delta, known[b].1, start);
                            }
                        }
                    }
                }
            }
        }
    }
}

/// All objects of the server's answer to a pack request, in order.
pub open spec fn pack_contents(r: Seq<u8>) -> Result<Seq<(u8, Seq<u8>, Seq<char>)>, ErrorKind> {
    match pack_header_of(r) {
        Err(k) => Err(k),
        Ok((n, d)) => pack_objects_from(d, n, 0, Seq::empty()),
    }
}

/// Decodes all objects of the server's answer to a pack request, in order.
pub fn parse_pack(res_data: &Vec<u8>) -> (r: Result<Vec<PackObject>, GitError>)
    ensures
        match pack_contents(res_data@) {
            Ok(objs) => r matches Ok(v) && objects_view(v@) == objs,
            Err(k) => r matches Err(e) && e.kind_of() == k && (k == ErrorKind::ResponseTooShort
                ==> (e matches GitError::ResponseTooShort(n) && n == res_data@.len())),
        },
{
    proof {
        if let Ok((n, d)) = pack_header_of(res_data@) {
            lemma_pack_objects_never_short(d, n, 0, Seq::empty());
        }
    }
    let (count, data) = match pack_header(res_data.as_slice()) {
        Ok(h) => h,
        Err(e) => return Err(e),
    };
    let mut objs: Vec<PackObject> = Vec::new();
    let mut seek: usize = 0;
    let mut i: u32 = 0;
    assert(objects_view(objs@) =~= Seq::<(u8, Seq<u8>, Seq<char>)>::empty());
    while i < count
        invariant
            i <= count,
            pack_contents(res_data@) != Err::<Seq<(u8, Seq<u8>, Seq<char>)>, ErrorKind>(
                ErrorKind::ResponseTooShort,
            ),
            pack_contents(res_data@) == pack_objects_from(
                data@,
                (count - i) as nat,
                seek as int,
                objects_view(objs@),
            ),
        decreases count - i,
    {
        let (obj, next) = match next_pack_object(&data, seek, &objs) {
            Ok(x) => x,
            Err(e) => return Err(e),
        };
        let ghost before = objs@;
        let ghost o = obj@;
        objs.push(obj);
        assert(objects_view(objs@) =~= objects_view(before).push(o));
        seek = next;
        i = i + 1;
    }
    Ok(objs)
}

/// Every object decoded from a pack is named by what it is stored as: the
/// hexadecimal SHA-1 of the loose object of its type and content. Decoding
/// `count` objects after `known` yields `count` more, and keeps `known` in front.
pub proof fn lemma_pack_objects_named(
    d: Seq<u8>,
    count: nat,
    seek: int,
    known: Seq<(u8, Seq<u8>, Seq<char>)>,
)
    requires
        forall|i: int| 0 <= i < known.len() ==> #[trigger] known[i].2 == object_id(
            type_name_bytes(known[i].0),
            known[i].1,
        ),
    ensures
        pack_objects_from(d, count, seek, known) matches Ok(objs) ==> {
            &&& objs.len() == known.len() + count
            &&& objs.subrange(0, known.len() as int) == known
            &&& forall|i: int| 0 <= i < objs.len() ==> #[trigger] objs[i].2 == object_id(
                type_name_bytes(objs[i].0),
                objs[i].1,
            )
        },
    decreases count,
{
    if count > 0 {
        if let Ok((o, next)) = pack_object_at(d, seek, known) {
            let k2 = known.push(o);
            assert forall|i: int| 0 <= i < k2.len() implies #[trigger] k2[i].2 == object_id(
                type_name_bytes(k2[i].0),
                k2[i].1,
            ) by {
                if i < known.len() {
                    assert(k2[i] == known[i]);
                }
            }
            lemma_pack_objects_named(d, (count - 1) as nat, next, k2);
            if let Ok(objs) = pack_objects_from(d, count, seek, known) {
                assert(objs.subrange(0, known.len() as int) =~= objs.subrange(0, k2.len() as int).subrange(
                    0,
                    known.len() as int,
                ));
                assert(k2.subrange(0, known.len() as int) =~= known);
            }
        }
    } else {
        assert(known.subrange(0, known.len() as int) =~= known);
    }
}

/// Whether `pat` occurs in `s` at `i`.
pub open spec fn occurs_at(s: Seq<u8>, i: int, pat: Seq<u8>) -> bool {
    0 <= i && i + pat.len() <= s.len() && s.subrange(i, i + pat.len()) == pat
}

/// Whether `pat` occurs in `s`.
pub open spec fn contains_bytes(s: Seq<u8>, pat: Seq<u8>) -> bool {
    exists|i: int| occurs_at(s, i, pat)
}

fn matches_at(s: &[u8], i: usize, pat: &[u8]) -> (r: bool)
    requires
        i + pat@.len() <= s@.len(),
    ensures
        r == (s@.subrange(i as int, i + pat@.len()) == pat@),
{
    let sl = s.len();
    let mut k: usize = 0;
    while k < pat.len()
        invariant
            sl == s@.len(),
            k <= pat@.len(),
            i + pat@.len() <= s@.len(),
            forall|j: int| 0 <= j < k ==> s@[i + j] == pat@[j],
        decreases pat@.len() - k,
    {
        if s[i + k] != pat[k] {
            assert(s@.subrange(i as int, i + pat@.len())[k as int] != pat@[k as int]);
            return false;
        }
        k = k + 1;
    }
    assert(s@.subrange(i as int, i + pat@.len()) =~= pat@);
    true
}

/// Whether `pat` occurs in `s[lo..hi]`.
fn contains_in(s: &[u8], lo: usize, hi: usize, pat: &[u8]) -> (r: bool)
    requires
        lo <= hi <= s@.len(),
    ensures
        r == contains_bytes(s@.subrange(lo as int, hi as int), pat@),
{
    let ghost line = s@.subrange(lo as int, hi as int);
    let pl = pat.len();
    if pl > hi - lo {
        assert forall|j: int| !occurs_at(line, j, pat@) by {}
        return false;
    }
    let mut i = lo;
    loop
        invariant
            lo <= i <= hi - pl,
            pl == pat@.len(),
            pl <= hi - lo,
            hi <= s@.len(),
            line == s@.subrange(lo as int, hi as int),
            forall|j: int| 0 <= j < i - lo ==> !occurs_at(line, j, pat@),
        decreases hi - pl - i,
    {
        let m = matches_at(s, i, pat);
        assert(line.subrange(i - lo, i - lo + pl) =~= s@.subrange(i as int, i + pl));
        if m {
            assert(occurs_at(line, i - lo, pat@));
            return true;
        }
        if i == hi - pl {
            assert forall|j: int| !occurs_at(line, j, pat@) by {
                if 0 <= j <= i - lo {
                }
            }
            return false;
        }
        i = i + 1;
    }
}

/// Whether a line of the reference advertisement names the master branch:
/// it holds `refs/heads/master` and `003f`.
pub open spec fn master_line(line: Seq<u8>) -> bool {
    contains_bytes(line, "refs/heads/master".spec_bytes()) && contains_bytes(line, "003f".spec_bytes())
}

/// The lines (split at `\n`) of `s` from `start` on that name the master
/// branch, joined together.
pub open spec fn master_lines_from(s: Seq<u8>, start: int) -> Seq<u8>
    decreases s.len() - start,
{
    if start < 0 || start > s.len() {
        Seq::empty()
    } else {
        let end = match index_of(s, 10, start, s.len() as int) {
            Some(k) => k,
            None => s.len() as int,
        };
        proof {
            lemma_index_of(s, 10, start, s.len() as int);
        }
        let line = s.subrange(start, end);
        let picked = if master_line(line) {
            line
        } else {
            Seq::empty()
        };
        if end >= s.len() {
            picked
        } else {
            picked + master_lines_from(s, end + 1)
        }
    }
}

/// The object name of the advertised master head: of the joined master
/// lines, the first word (up to a space) must be 44 bytes long; the name is
/// its last 40 bytes, after the 4-digit line length.
pub open spec fn pack_hash_of(body: Seq<u8>) -> Result<Seq<u8>, ErrorKind> {
    let c = master_lines_from(body, 0);
    let w = match index_of(c, 32, 0, c.len() as int) {
        Some(k) => k,
        None => c.len() as int,
    };
    if w != 44 {
        Err(ErrorKind::NotSha)
    } else {
        Ok(c.subrange(4, 44))
    }
}

/// The object name of the master head advertised in the body of the
/// server's reference list; `NotSha` where the first word of the master
/// lines is not 44 bytes long.
pub fn find_pack_hash(body: &[u8]) -> (r: Result<Vec<u8>, GitError>)
    ensures
        match pack_hash_of(body@) {
            Ok(h) => r matches Ok(v) && v@ == h,
            Err(k) => r matches Err(e) && e.kind_of() == k,
        },
{
    let len = body.len();
    let master = "refs/heads/master".as_bytes();
    let tag = "003f".as_bytes();
    let mut content: Vec<u8> = Vec::new();
    let mut start: usize = 0;
    assert(content@ + master_lines_from(body@, 0) =~= master_lines_from(body@, 0));
    loop
        invariant_except_break
            start <= len,
            master_lines_from(body@, 0) == content@ + master_lines_from(body@, start as int),
        invariant
            len == body@.len(),
            master@ == "refs/heads/master".spec_bytes(),
            tag@ == "003f".spec_bytes(),
        ensures
            master_lines_from(body@, 0) == content@,
        decreases len - start,
    {
        proof {
            lemma_index_of(body@, 10, start as int, len as int);
        }
        let end = match find_byte(body, 10, start, len) {
            Some(k) => k,
            None => len,
        };
        let picked = contains_in(body, start, end, master) && contains_in(body, start, end, tag);
        let ghost before = content@;
        if picked {
            push_range(&mut content, body, start, end);
        }
        if end >= len {
            proof {
                if picked {
                    assert(content@ == before + body@.subrange(start as int, end as int));
                } else {
                    assert(content@ =~= before + Seq::<u8>::empty());
                }
            }
            break;
        }
        proof {
            let line = body@.subrange(start as int, end as int);
            let rest = master_lines_from(body@, end + 1);
            if picked {
                assert(before + (line + rest) =~= (before + line) + rest);
            } else {
                assert(before + (Seq::<u8>::empty() + rest) =~= before + rest);
            }
        }
        start = end + 1;
    }
    let clen = content.len();
    proof {
        lemma_index_of(content@, 32, 0, clen as int);
    }
    let w = match find_byte(content.as_slice(), 32, 0, clen) {
        Some(k) => k,
        None => clen,
    };
    if w != 44 {
        return Err(GitError::NotSha);
    }
    Ok(copy_range(content.as_slice(), 4, 44))
}

/// The request body that asks for the pack of `pack_hash`.
pub open spec fn upload_request_of(pack_hash: Seq<u8>) -> Seq<u8> {
    "0032want ".spec_bytes() + pack_hash + "\n00000009done\n".spec_bytes()
}

/// The request body that asks for the pack of `pack_hash`.
pub fn upload_pack_request(pack_hash: &[u8]) -> (r: Vec<u8>)
    ensures
        r@ == upload_request_of(pack_hash@),
{
    let mut out: Vec<u8> = Vec::new();
    push_all(&mut out, "0032want ".as_bytes());
    push_all(&mut out, pack_hash);
    push_all(&mut out, "\n00000009done\n".as_bytes());
    out
}

/// The last word (after the last space) of the first line of `s`.
pub open spec fn first_line_last_word(s: Seq<u8>) -> Seq<u8> {
    let line_end = match index_of(s, 10, 0, s.len() as int) {
        Some(k) => k,
        None => s.len() as int,
    };
    let word_start = match last_index_of(s, 32, 0, line_end) {
        Some(j) => j + 1,
        None => 0,
    };
    s.subrange(word_start, line_end)
}

/// The tree name a clone reads from the decompressed head commit: the last
/// word of its first line.
pub fn commit_tree_id(data: &Vec<u8>) -> (r: Vec<u8>)
    ensures
        r@ == first_line_last_word(data@),
{
    let len = data.len();
    proof {
        lemma_index_of(data@, 10, 0, len as int);
    }
    let line_end = match find_byte(data.as_slice(), 10, 0, len) {
        Some(k) => k,
        None => len,
    };
    proof {
        crate::scan::lemma_last_index_of(data@, 32, 0, line_end as int);
    }
    let word_start = match find_last_byte(data.as_slice(), 32, 0, line_end) {
        Some(j) => j + 1,
        None => 0,
    };
    copy_range(data.as_slice(), word_start, line_end)
}

/// A clone reads back the tree a commit was made of: the last word of the
/// first line of the commit object of `tree` is `tree`, where `tree` holds no
/// space and no line break.
pub proof fn lemma_clone_reads_commit_tree(tree: Seq<u8>, parent: Seq<u8>, message: Seq<u8>)
    requires
        forall|i: int| 0 <= i < tree.len() ==> #[trigger] tree[i] != 10u8 && tree[i] != 32u8,
    ensures
        first_line_last_word(object_bytes("commit".spec_bytes(), commit_content_of(tree, parent, message)))
            == tree,
{
    lemma_commit_literals();
    let content = commit_content_of(tree, parent, message);
    let s = object_bytes("commit".spec_bytes(), content);
    let d = decimal(content.len());
    lemma_decimal_digits(content.len());
    let dl = d.len() as int;
    let tl = tree.len() as int;
    let head = 6 + 1 + dl + 1;
    let q = head + 5 + tl;
    assert forall|k: int| 0 <= k < content.len() implies s[head + k] == content[k] by {}
    let tail = "\nparent ".spec_bytes() + parent;
    assert(content == "tree ".spec_bytes() + tree + tail + "\n".spec_bytes()
        + "author Admin <admin@example.com> 1652217488 +0300\ncommitter Name <committer@example.com> 1652224514 +0300".spec_bytes()
        + "\n\n".spec_bytes() + message + "\n".spec_bytes());
    assert forall|k: int| 0 <= k < 5 + tl + 1 implies content[k] == ("tree ".spec_bytes() + tree
        + tail)[k] by {}
    assert forall|k: int| 0 <= k < q implies s[k] != 10u8 by {
        if k >= 7 && k < 7 + dl {
            assert(s[k] == d[k - 7]);
        } else if k >= head {
            assert(s[k] == content[k - head]);
            if k - head >= 5 {
                assert(content[k - head] == tree[k - head - 5]);
            }
        }
    }
    assert(s[q] == content[5 + tl]);
    assert(content[5 + tl] == tail[0]);
    lemma_index_of_at(s, 10, 0, q, s.len() as int);
    assert(s[head + 4] == content[4]);
    assert forall|k: int| head + 4 < k < q implies s[k] != 32u8 by {
        assert(s[k] == content[k - head]);
        assert(content[k - head] == tree[k - head - 5]);
    }
    crate::scan::lemma_last_index_of_at(s, 32, 0, head + 4, q);
    assert forall|k: int| 0 <= k < tl implies s.subrange(head + 5, q)[k] == tree[k] by {
        assert(s[head + 5 + k] == content[5 + k]);
    }
    assert(s.subrange(head + 5, q) =~= tree);
}

/// Pack type numbers name git's object types: 1 is `commit`, 2 `tree`,
/// 3 `blob` and 5 `tag` (in ASCII).
pub proof fn lemma_pack_type_names()
    ensures
        type_name_bytes(1) == seq![99u8, 111u8, 109u8, 109u8, 105u8, 116u8],
        type_name_bytes(2) == seq![116u8, 114u8, 101u8, 101u8],
        type_name_bytes(3) == seq![98u8, 108u8, 111u8, 98u8],
        type_name_bytes(5) == seq![116u8, 97u8, 103u8],
{
    lemma_commit_literals();
    crate::tree::lemma_tree_tag();
    crate::worktree::lemma_blob_tag();
    reveal_strlit("tag");
    vstd::utf8::is_ascii_chars_encode_utf8("tag"@);
    assert(vstd::utf8::is_ascii_chars("tag"@));
    assert("tag".spec_bytes() =~= seq![116u8, 97u8, 103u8]);
}

/// An object decoded from a pack is named as the loose object of its
/// type: a commit (type 1) by the SHA-1 of `commit <size>\0<content>`, a
/// tree (type 2) of `tree ...`, a blob (type 3) of `blob ...`, a tag
/// (type 5) of `tag ...`; a delta takes its base's type.
pub proof fn lemma_pack_object_typed(d: Seq<u8>, seek: int, known: Seq<(u8, Seq<u8>, Seq<char>)>)
    ensures
        pack_object_at(d, seek, known) matches Ok((o, _)) ==> {
            &&& o.0 == 1 ==> o.2 == object_id(seq![99u8, 111u8, 109u8, 109u8, 105u8, 116u8], o.1)
            &&& o.0 == 2 ==> o.2 == object_id(seq![116u8, 114u8, 101u8, 101u8], o.1)
            &&& o.0 == 3 ==> o.2 == object_id(seq![98u8, 108u8, 111u8, 98u8], o.1)
            &&& o.0 == 5 ==> o.2 == object_id(seq![116u8, 97u8, 103u8], o.1)
        },
{
    lemma_pack_type_names();
    if let Ok((o, _)) = pack_object_at(d, seek, known) {
        assert(o.2 == object_id(type_name_bytes(o.0), o.1));
    }
}

/// The ASCII bytes of `003f`, the length prefix of a 63-byte line.
pub open spec fn tag_003f() -> Seq<u8> {
    seq![48u8, 48u8, 51u8, 102u8]
}

/// The ASCII bytes of `refs/heads/master`.
pub open spec fn master_ref() -> Seq<u8> {
    seq![
        114u8, 101u8, 102u8, 115u8, 47u8, 104u8, 101u8, 97u8, 100u8, 115u8, 47u8, 109u8, 97u8,
        115u8, 116u8, 101u8, 114u8,
    ]
}

proof fn lemma_advert_literals()
    ensures
        "003f".spec_bytes() == tag_003f(),
        "refs/heads/master".spec_bytes() == master_ref(),
{
    reveal_strlit("003f");
    reveal_strlit("refs/heads/master");
    vstd::utf8::is_ascii_chars_encode_utf8("003f"@);
    vstd::utf8::is_ascii_chars_encode_utf8("refs/heads/master"@);
    assert(vstd::utf8::is_ascii_chars("003f"@));
    assert(vstd::utf8::is_ascii_chars("refs/heads/master"@));
    assert("003f".spec_bytes() =~= tag_003f());
    assert("refs/heads/master".spec_bytes() =~= master_ref());
}

proof fn lemma_index_of_shift(a: Seq<u8>, b: Seq<u8>, x: u8, i: int, hi: int)
    requires
        0 <= i,
        hi <= b.len(),
    ensures
        index_of(a + b, x, a.len() + i, a.len() + hi) == match index_of(b, x, i, hi) {
            Some(k) => Some(a.len() + k),
            None => None::<int>,
        },
    decreases hi - i,
{
    if i < hi {
        assert((a + b)[a.len() + i] == b[i]);
        lemma_index_of_shift(a, b, x, i + 1, hi);
    }
}

proof fn lemma_master_lines_shift(a: Seq<u8>, b: Seq<u8>, j: int)
    requires
        0 <= j <= b.len(),
    ensures
        master_lines_from(a + b, a.len() + j) == master_lines_from(b, j),
    decreases b.len() - j,
{
    let s = a + b;
    lemma_index_of_shift(a, b, 10, j, b.len() as int);
    lemma_index_of(b, 10, j, b.len() as int);
    let end_b = match index_of(b, 10, j, b.len() as int) {
        Some(k) => k,
        None => b.len() as int,
    };
    assert(s.subrange(a.len() + j, a.len() + end_b) =~= b.subrange(j, end_b));
    if end_b < b.len() {
        lemma_master_lines_shift(a, b, end_b + 1);
    }
}

/// A line without `003f` never supplies the advertised head: putting such a
/// line (even one that names `refs/heads/master`) in front of an
/// advertisement leaves the head found unchanged.
pub proof fn lemma_pack_hash_skips_untagged_line(line: Seq<u8>, rest: Seq<u8>)
    requires
        forall|i: int| 0 <= i < line.len() ==> line[i] != 10u8,
        !contains_bytes(line, tag_003f()),
    ensures
        pack_hash_of(line + seq![10u8] + rest) == pack_hash_of(rest),
{
    lemma_advert_literals();
    let a = line + seq![10u8];
    let s = a + rest;
    assert(s == line + seq![10u8] + rest);
    assert(s[line.len() as int] == 10u8);
    lemma_index_of_at(s, 10, 0, line.len() as int, s.len() as int);
    assert(s.subrange(0, line.len() as int) =~= line);
    assert(!master_line(line));
    lemma_master_lines_shift(a, rest, 0);
    assert(master_lines_from(s, 0) =~= master_lines_from(rest, 0));
}

proof fn lemma_single_line(m: Seq<u8>)
    requires
        forall|k: int| 0 <= k < m.len() ==> m[k] != 10u8,
    ensures
        master_lines_from(m, 0) == (if master_line(m) {
            m
        } else {
            Seq::empty()
        }),
{
    lemma_index_of(m, 10, 0, m.len() as int);
    assert(index_of(m, 10, 0, m.len() as int) is None);
    assert(m.subrange(0, m.len() as int) =~= m);
}

proof fn lemma_master_line_of(h: Seq<u8>)
    requires
        h.len() == 40,
    ensures
        master_line(tag_003f() + h + seq![32u8] + master_ref()),
{
    lemma_advert_literals();
    let m = tag_003f() + h + seq![32u8] + master_ref();
    assert(m.subrange(0, 4) =~= tag_003f());
    assert(occurs_at(m, 0, tag_003f()));
    assert(m.subrange(45, 62) =~= master_ref());
    assert(occurs_at(m, 45, master_ref()));
}

/// The head is found on a master line: the line `003f<h> refs/heads/master`,
/// for a 40-byte name `h` without spaces or line breaks, advertises `h`.
pub proof fn lemma_pack_hash_of_master_line(h: Seq<u8>)
    requires
        h.len() == 40,
        forall|i: int| 0 <= i < h.len() ==> h[i] != 10u8 && h[i] != 32u8,
    ensures
        pack_hash_of(tag_003f() + h + seq![32u8] + master_ref()) == Ok::<Seq<u8>, ErrorKind>(h),
{
    let m = tag_003f() + h + seq![32u8] + master_ref();
    assert(m.len() == 62);
    assert forall|k: int| 0 <= k < m.len() implies m[k] != 10u8 by {
        if 4 <= k < 44 {
            assert(m[k] == h[k - 4]);
        }
    }
    lemma_single_line(m);
    lemma_master_line_of(h);
    assert forall|k: int| 0 <= k < 44 implies m[k] != 32u8 by {
        if 4 <= k {
            assert(m[k] == h[k - 4]);
        }
    }
    assert(m[44] == 32u8);
    lemma_index_of_at(m, 32, 0, 44, m.len() as int);
    assert(m.subrange(4, 44) =~= h);
}

} // verus!
