//! Tree objects: listing the names of a tree (`ls-tree --name-only`),
//! reading its entries for a checkout, and building the content of a tree
//! from the entries of a directory (`write-tree`).
use crate::codec::{hex_bytes_value, hex_decode, hex_encode, hex_lower};
use crate::error::{ErrorKind, GitError};
use crate::object::{decimal, lemma_decimal_digits, object_bytes};
use crate::scan::{
    prefixed, copy_range, find_byte, find_last_byte, index_of, last_index_of, lemma_index_of,
    lemma_index_of_at, lemma_last_index_of, lemma_last_index_of_at, push_all,
};
use vstd::prelude::*;
use vstd::string::StringSliceAdditionalSpecFns;
use vstd::utf8::{encode_utf8, is_ascii_chars, is_ascii_chars_encode_utf8};

verus! {

/// The ASCII bytes of `tree`.
pub open spec fn tree_tag() -> Seq<u8> {
    seq![116u8, 114u8, 101u8, 101u8]
}

/// The names of the entries of a tree body from `start` on: each entry runs to
/// a NUL byte and 20 bytes of object name; its name is what follows the last
/// space before the NUL. `OutOfRange` where fewer than 20 bytes follow a NUL.
pub open spec fn tree_names_from(s: Seq<u8>, start: int) -> Result<Seq<Seq<u8>>, ErrorKind>
    decreases s.len() - start,
{
    if start < 0 || start > s.len() {
        Ok(Seq::empty())
    } else {
        match index_of(s, 0, start, s.len() as int) {
            None => Ok(Seq::empty()),
            Some(pos) => {
                if pos + 21 > s.len() {
                    Err(ErrorKind::OutOfRange)
                } else {
                    proof {
                        lemma_index_of(s, 0, start, s.len() as int);
                    }
                    let name_start = match last_index_of(s, 32, start, pos) {
                        Some(j) => j + 1,
                        None => start,
                    };
                    prefixed(seq![s.subrange(name_start, pos)], tree_names_from(s, pos + 21))
                }
            },
        }
    }
}

/// What `ls-tree --name-only` lists of a decompressed object: the object's
/// header must end with a NUL byte and begin with the word `tree`.
pub open spec fn tree_listing(s: Seq<u8>) -> Result<Seq<Seq<u8>>, ErrorKind> {
    match index_of(s, 0, 0, s.len() as int) {
        None => Err(ErrorKind::NoObjectHeader),
        Some(pos) => {
            let tag_end = match index_of(s, 32, 0, pos) {
                Some(j) => j,
                None => pos,
            };
            if s.subrange(0, tag_end) != tree_tag() {
                Err(ErrorKind::NotTreeObject)
            } else {
                tree_names_from(s, pos + 1)
            }
        },
    }
}

fn scan_tree_names(s: &[u8], first: usize) -> (r: Result<Vec<Vec<u8>>, GitError>)
    requires
        first <= s@.len(),
    ensures
        match tree_names_from(s@, first as int) {
            Ok(names) => r matches Ok(v) && v.deep_view() == names,
            Err(k) => r matches Err(e) && e.kind_of() == k,
        },
{
    let mut names: Vec<Vec<u8>> = Vec::new();
    let mut start = first;
    let len = s.len();
    assert(names.deep_view() =~= Seq::<Seq<u8>>::empty());
    assert(prefixed(names.deep_view(), tree_names_from(s@, start as int)) =~= tree_names_from(
        s@,
        first as int,
    )) by {
        match tree_names_from(s@, first as int) {
            Ok(x) => assert(Seq::<Seq<u8>>::empty() + x =~= x),
            Err(_) => {},
        }
    }
    loop
        invariant
            start <= len,
            len == s@.len(),
            tree_names_from(s@, first as int) == prefixed(
                names.deep_view(),
                tree_names_from(s@, start as int),
            ),
        decreases len - start,
    {
        proof {
            lemma_index_of(s@, 0, start as int, len as int);
        }
        match find_byte(s, 0, start, len) {
            None => {
                assert(names.deep_view() + Seq::<Seq<u8>>::empty() =~= names.deep_view());
                return Ok(names);
            },
            Some(pos) => {
                if len - pos < 21 {
                    return Err(GitError::OutOfRange);
                }
                proof {
                    lemma_last_index_of(s@, 32, start as int, pos as int);
                }
                let name_start = match find_last_byte(s, 32, start, pos) {
                    Some(j) => j + 1,
                    None => start,
                };
                let name = copy_range(s, name_start, pos);
                let ghost before = names.deep_view();
                assert(name.deep_view() =~= name@);
                names.push(name);
                assert(names.deep_view() =~= before.push(name@));
                proof {
                    let rest = tree_names_from(s@, pos + 21);
                    match rest {
                        Ok(x) => {
                            assert(before + (seq![name@] + x) =~= before.push(name@) + x);
                        },
                        Err(_) => {},
                    }
                }
                start = pos + 21;
            },
        }
    }
}

/// The names `ls-tree --name-only` lists of a decompressed tree object.
/// Where a NUL byte of an entry is followed by fewer than 20 bytes, there is
/// no listing: such objects are left out (see `tree_names_in_range`).
pub fn parse_tree_names(file_content: &Vec<u8>) -> (r: Result<Vec<Vec<u8>>, GitError>)
    requires
        tree_listing(file_content@) != Err::<Seq<Seq<u8>>, ErrorKind>(ErrorKind::OutOfRange),
    ensures
        match tree_listing(file_content@) {
            Ok(names) => r matches Ok(v) && v.deep_view() == names,
            Err(k) => r matches Err(e) && e.kind_of() == k,
        },
{
    scan_tree_listing(file_content.as_slice())
}

/// Whether `parse_tree_names` may be called on `file_content`: false where
/// an entry's object name runs past the end.
pub fn tree_names_in_range(file_content: &Vec<u8>) -> (r: bool)
    ensures
        r == (tree_listing(file_content@) != Err::<Seq<Seq<u8>>, ErrorKind>(ErrorKind::OutOfRange)),
{
    match scan_tree_listing(file_content.as_slice()) {
        Ok(_) => true,
        Err(e) => match e {
            GitError::OutOfRange => false,
            _ => true,
        },
    }
}

fn scan_tree_listing(s: &[u8]) -> (r: Result<Vec<Vec<u8>>, GitError>)
    ensures
        match tree_listing(s@) {
            Ok(names) => r matches Ok(v) && v.deep_view() == names,
            Err(k) => r matches Err(e) && e.kind_of() == k,
        },
{
    let len = s.len();
    proof {
        lemma_index_of(s@, 0, 0, len as int);
    }
    match find_byte(s, 0, 0, len) {
        None => Err(GitError::NoObjectHeader),
        Some(pos) => {
            proof {
                lemma_index_of(s@, 32, 0, pos as int);
            }
            let tag_end = match find_byte(s, 32, 0, pos) {
                Some(j) => j,
                None => pos,
            };
            let is_tree = tag_end == 4 && s[0] == 116 && s[1] == 114 && s[2] == 101 && s[3] == 101;
            assert(is_tree == (s@.subrange(0, tag_end as int) =~= tree_tag()));
            if !is_tree {
                Err(GitError::NotTreeObject)
            } else {
                scan_tree_names(s, pos + 1)
            }
        },
    }
}

/// The ASCII mode of a directory entry: `40000` for a directory, `100644`
/// for a file.
pub open spec fn entry_mode(is_dir: bool) -> Seq<u8> {
    if is_dir {
        "40000".spec_bytes()
    } else {
        "100644".spec_bytes()
    }
}

/// The bytes of one tree entry: mode, a space, the name, a NUL byte and the
/// binary object name.
pub open spec fn entry_bytes(is_dir: bool, name: Seq<u8>, sha: Seq<u8>) -> Seq<u8> {
    entry_mode(is_dir) + seq![32u8] + name + seq![0u8] + sha
}

/// The body of a tree object: its entries one after the other.
pub open spec fn tree_body(es: Seq<(bool, Seq<u8>, Seq<u8>)>) -> Seq<u8>
    decreases es.len(),
{
    if es.len() == 0 {
        Seq::empty()
    } else {
        entry_bytes(es[0].0, es[0].1, es[0].2) + tree_body(es.drop_first())
    }
}

/// Adding an entry at the end adds its bytes at the end.
pub proof fn lemma_tree_body_push(es: Seq<(bool, Seq<u8>, Seq<u8>)>, e: (bool, Seq<u8>, Seq<u8>))
    ensures
        tree_body(es.push(e)) == tree_body(es) + entry_bytes(e.0, e.1, e.2),
    decreases es.len(),
{
    if es.len() == 0 {
        let empty = Seq::<(bool, Seq<u8>, Seq<u8>)>::empty();
        assert(es.push(e).drop_first() =~= empty);
        assert(tree_body(empty) == Seq::<u8>::empty());
        assert(es.push(e)[0] == e);
        assert(tree_body(es) == Seq::<u8>::empty());
        assert(tree_body(es.push(e)) =~= tree_body(es) + entry_bytes(e.0, e.1, e.2));
    } else {
        lemma_tree_body_push(es.drop_first(), e);
        assert(es.push(e).drop_first() =~= es.drop_first().push(e));
        assert(es.push(e)[0] == es[0]);
        let first = entry_bytes(es[0].0, es[0].1, es[0].2);
        assert(tree_body(es.push(e)) == first + tree_body(es.drop_first().push(e)));
        assert(first + (tree_body(es.drop_first()) + entry_bytes(e.0, e.1, e.2)) =~= (first
            + tree_body(es.drop_first())) + entry_bytes(e.0, e.1, e.2));
    }
}

/// An entry of a directory being written as a tree: whether it is a
/// directory, its name, and the hexadecimal name of the object that holds it.
#[derive(Debug)]
pub struct DirEntry {
    pub is_dir: bool,
    pub name: String,
    pub hash: String,
}

impl View for DirEntry {
    type V = (bool, Seq<char>, Seq<char>);

    open spec fn view(&self) -> (bool, Seq<char>, Seq<char>) {
        (self.is_dir, self.name@, self.hash@)
    }
}

/// A directory entry with its name as UTF-8 bytes and its object name
/// decoded from hexadecimal; `None` where the object name is no hexadecimal.
pub open spec fn decode_entry(e: (bool, Seq<char>, Seq<char>)) -> Option<(bool, Seq<u8>, Seq<u8>)> {
    match hex_bytes_value(encode_utf8(e.2)) {
        Some(sha) => Some((e.0, encode_utf8(e.1), sha)),
        None => None,
    }
}

/// The body of the tree of the entries, or `None` where an object name is no
/// hexadecimal.
pub open spec fn tree_content(es: Seq<(bool, Seq<char>, Seq<char>)>) -> Option<Seq<u8>> {
    if forall|i: int| 0 <= i < es.len() ==> #[trigger] decode_entry(es[i]) is Some {
        Some(tree_body(es.map_values(|e: (bool, Seq<char>, Seq<char>)| decode_entry(e)->0)))
    } else {
        None
    }
}

/// The body of the tree object of a directory's entries, in the order given.
/// Fails with `Hex` where an entry's object name is no hexadecimal.
pub fn tree_object_content(entries: &Vec<DirEntry>) -> (r: Result<Vec<u8>, GitError>)
    ensures
        match tree_content(entries@.map_values(|e: DirEntry| e@)) {
            Some(b) => r matches Ok(v) && v@ == b,
            None => r matches Err(e) && e.kind_of() == ErrorKind::Hex,
        },
{
    let ghost view = entries@.map_values(|e: DirEntry| e@);
    let ghost dec = |e: (bool, Seq<char>, Seq<char>)| decode_entry(e)->0;
    let mut out: Vec<u8> = Vec::new();
    let mut i: usize = 0;
    assert(view.take(0).map_values(dec) =~= Seq::<(bool, Seq<u8>, Seq<u8>)>::empty());
    while i < entries.len()
        invariant
            i <= entries@.len(),
            view == entries@.map_values(|e: DirEntry| e@),
            dec == (|e: (bool, Seq<char>, Seq<char>)| decode_entry(e)->0),
            forall|j: int| 0 <= j < i ==> #[trigger] decode_entry(view[j]) is Some,
            out@ == tree_body(view.take(i as int).map_values(dec)),
        decreases entries@.len() - i,
    {
        let entry = &entries[i];
        assert(entry@ == view[i as int]);
        let sha = match hex_decode(entry.hash.as_str()) {
            Ok(v) => v,
            Err(err) => {
                assert(decode_entry(view[i as int]) is None);
                assert(!(forall|j: int| 0 <= j < view.len() ==> #[trigger] decode_entry(view[j]) is Some));
                return Err(GitError::Hex(err));
            },
        };
        let ghost before = out@;
        if entry.is_dir {
            push_all(&mut out, "40000".as_bytes());
        } else {
            push_all(&mut out, "100644".as_bytes());
        }
        out.push(32);
        push_all(&mut out, entry.name.as_str().as_bytes());
        out.push(0);
        push_all(&mut out, sha.as_slice());
        proof {
            let e = dec(view[i as int]);
            assert(e == (entry.is_dir, encode_utf8(entry.name@), sha@));
            assert(out@ =~= before + entry_bytes(e.0, e.1, e.2));
            lemma_tree_body_push(view.take(i as int).map_values(dec), e);
            assert(view.take(i + 1).map_values(dec) =~= view.take(i as int).map_values(dec).push(e));
        }
        i = i + 1;
    }
    assert(view.take(i as int) =~= view);
    Ok(out)
}

/// The modes, spelled out in ASCII.
pub proof fn lemma_entry_modes()
    ensures
        entry_mode(true) == seq![52u8, 48u8, 48u8, 48u8, 48u8],
        entry_mode(false) == seq![49u8, 48u8, 48u8, 54u8, 52u8, 52u8],
{
    reveal_strlit("40000");
    reveal_strlit("100644");
    is_ascii_chars_encode_utf8("40000"@);
    is_ascii_chars_encode_utf8("100644"@);
    assert(is_ascii_chars("40000"@));
    assert(is_ascii_chars("100644"@));
    assert(entry_mode(true) =~= seq![52u8, 48u8, 48u8, 48u8, 48u8]);
    assert(entry_mode(false) =~= seq![49u8, 48u8, 48u8, 54u8, 52u8, 52u8]);
}

/// The type name `tree`, spelled out in ASCII.
pub proof fn lemma_tree_tag()
    ensures
        "tree".spec_bytes() == tree_tag(),
{
    reveal_strlit("tree");
    is_ascii_chars_encode_utf8("tree"@);
    assert(is_ascii_chars("tree"@));
    assert("tree".spec_bytes() =~= tree_tag());
}

/// An entry that `ls-tree --name-only` reads back by its name: the name
/// holds no NUL byte and no space, and the object name is 20 bytes long.
pub open spec fn listable_entry(e: (bool, Seq<u8>, Seq<u8>)) -> bool {
    &&& forall|k: int| 0 <= k < e.1.len() ==> #[trigger] e.1[k] != 0u8 && e.1[k] != 32u8
    &&& e.2.len() == 20
}

proof fn lemma_names_from(s: Seq<u8>, start: int, es: Seq<(bool, Seq<u8>, Seq<u8>)>)
    requires
        0 <= start <= s.len(),
        s.subrange(start, s.len() as int) == tree_body(es),
        forall|i: int| 0 <= i < es.len() ==> #[trigger] listable_entry(es[i]),
    ensures
        tree_names_from(s, start) == Ok::<Seq<Seq<u8>>, ErrorKind>(
            es.map_values(|e: (bool, Seq<u8>, Seq<u8>)| e.1),
        ),
    decreases es.len(),
{
    lemma_entry_modes();
    let names = es.map_values(|e: (bool, Seq<u8>, Seq<u8>)| e.1);
    if es.len() == 0 {
        assert(tree_body(es).len() == 0);
        assert(names =~= Seq::<Seq<u8>>::empty());
    } else {
        let e = es[0];
        assert(listable_entry(e));
        let m = entry_mode(e.0);
        let eb = entry_bytes(e.0, e.1, e.2);
        let rest = es.drop_first();
        let body = tree_body(es);
        assert(body == eb + tree_body(rest));
        let ml = m.len() as int;
        let nl = e.1.len() as int;
        let pos = start + ml + 1 + nl;
        assert(eb.len() == ml + 1 + nl + 1 + 20);
        assert forall|k: int| 0 <= k < body.len() implies s[start + k] == body[k] by {
            assert(s.subrange(start, s.len() as int)[k] == s[start + k]);
        }
        assert forall|k: int| start <= k < pos implies s[k] != 0u8 by {
            assert(s[start + (k - start)] == body[k - start]);
            assert(body[k - start] == eb[k - start]);
            if k - start < ml {
                assert(eb[k - start] == m[k - start]);
            } else if k - start == ml {
                assert(eb[k - start] == 32u8);
            } else {
                assert(eb[k - start] == e.1[k - start - ml - 1]);
            }
        }
        assert(s[start + (pos - start)] == body[pos - start]);
        assert(eb[pos - start] == 0u8);
        lemma_index_of_at(s, 0, start, pos, s.len() as int);
        assert forall|k: int| start + ml < k < pos implies s[k] != 32u8 by {
            assert(s[start + (k - start)] == body[k - start]);
            assert(body[k - start] == eb[k - start]);
            assert(eb[k - start] == e.1[k - start - ml - 1]);
        }
        assert(s[start + ml] == body[ml]);
        assert(eb[ml] == 32u8);
        lemma_last_index_of_at(s, 32, start, start + ml, pos);
        assert forall|k: int| 0 <= k < nl implies s.subrange(start + ml + 1, pos)[k] == e.1[k] by {
            assert(s[start + (ml + 1 + k)] == body[ml + 1 + k]);
            assert(eb[ml + 1 + k] == e.1[k]);
        }
        assert(s.subrange(start + ml + 1, pos) =~= e.1);
        let next = pos + 21;
        assert forall|k: int| 0 <= k < tree_body(rest).len() implies s.subrange(next, s.len() as int)[k]
            == tree_body(rest)[k] by {
            assert(s[start + (eb.len() + k)] == body[eb.len() + k]);
        }
        assert(s.subrange(next, s.len() as int) =~= tree_body(rest));
        assert forall|i: int| 0 <= i < rest.len() implies #[trigger] listable_entry(rest[i]) by {
            assert(rest[i] == es[i + 1]);
        }
        lemma_names_from(s, next, rest);
        assert(names =~= seq![e.1] + rest.map_values(|e: (bool, Seq<u8>, Seq<u8>)| e.1));
    }
}

/// `ls-tree --name-only` lists what `write-tree` wrote: the tree object of
/// entries whose names hold no NUL byte and no space, and whose object names
/// are 20 bytes long, lists the entries' names in order.
pub proof fn lemma_ls_tree_of_written_tree(es: Seq<(bool, Seq<u8>, Seq<u8>)>)
    requires
        forall|i: int| 0 <= i < es.len() ==> #[trigger] listable_entry(es[i]),
    ensures
        tree_listing(object_bytes("tree".spec_bytes(), tree_body(es))) == Ok::<
            Seq<Seq<u8>>,
            ErrorKind,
        >(es.map_values(|e: (bool, Seq<u8>, Seq<u8>)| e.1)),
{
    lemma_tree_tag();
    let body = tree_body(es);
    let s = object_bytes(tree_tag(), body);
    let d = decimal(body.len());
    lemma_decimal_digits(body.len());
    let p: int = 4 + 1 + d.len() as int;
    assert(s[p] == 0u8);
    assert forall|k: int| 0 <= k < p implies s[k] != 0u8 by {
        if k > 4 {
            assert(s[k] == d[k - 5]);
        }
    }
    lemma_index_of_at(s, 0, 0, p, s.len() as int);
    assert(s[4] == 32u8);
    lemma_index_of_at(s, 32, 0, 4, p);
    assert(s.subrange(0, 4) =~= tree_tag());
    assert(s.subrange(p + 1, s.len() as int) =~= body);
    lemma_names_from(s, p + 1, es);
}

/// The entries of a tree body from `start` on, as a checkout reads them:
/// mode (up to the first space), name (up to the next space or the NUL
/// byte) and the 20 bytes of object name after the NUL. `OutOfRange` where
/// no NUL byte follows; `NameNotFound` where the mode has no space after it;
/// `ShaAreaMissing` where fewer than 20 bytes follow the NUL.
pub open spec fn checkout_entries_from(s: Seq<u8>, start: int) -> Result<
    Seq<(Seq<u8>, Seq<u8>, Seq<u8>)>,
    ErrorKind,
>
    decreases s.len() - start,
{
    if start < 0 || start >= s.len() {
        Ok(Seq::empty())
    } else {
        match index_of(s, 0, start, s.len() as int) {
            None => Err(ErrorKind::OutOfRange),
            Some(pos) => match index_of(s, 32, start, pos) {
                None => Err(ErrorKind::NameNotFound),
                Some(sp) => {
                    if pos + 21 > s.len() {
                        Err(ErrorKind::ShaAreaMissing)
                    } else {
                        proof {
                            lemma_index_of(s, 0, start, s.len() as int);
                        }
                        let name_end = match index_of(s, 32, sp + 1, pos) {
                            Some(k) => k,
                            None => pos,
                        };
                        prefixed(
                            seq![
                                (
                                    s.subrange(start, sp),
                                    s.subrange(sp + 1, name_end),
                                    s.subrange(pos + 1, pos + 21),
                                ),
                            ],
                            checkout_entries_from(s, pos + 21),
                        )
                    }
                },
            },
        }
    }
}

/// The entries a checkout reads from a decompressed tree object: those of
/// the body after the header's NUL byte (`OutOfRange` where there is none).
pub open spec fn checkout_entries(s: Seq<u8>) -> Result<Seq<(Seq<u8>, Seq<u8>, Seq<u8>)>, ErrorKind> {
    match index_of(s, 0, 0, s.len() as int) {
        None => Err(ErrorKind::OutOfRange),
        Some(p) => checkout_entries_from(s, p + 1),
    }
}

/// A tree entry as a checkout uses it: mode, name, and hexadecimal object name.
#[derive(Debug)]
pub struct TreeEntry {
    pub mode: Vec<u8>,
    pub name: Vec<u8>,
    pub sha: String,
}

impl View for TreeEntry {
    type V = (Seq<u8>, Seq<u8>, Seq<char>);

    open spec fn view(&self) -> (Seq<u8>, Seq<u8>, Seq<char>) {
        (self.mode@, self.name@, self.sha@)
    }
}

/// An entry with its object name in hexadecimal.
pub open spec fn entry_with_hex(e: (Seq<u8>, Seq<u8>, Seq<u8>)) -> (Seq<u8>, Seq<u8>, Seq<char>) {
    (e.0, e.1, hex_lower(e.2))
}

impl TreeEntry {
    /// Whether the entry is a subtree: its mode is `40000`.
    pub fn is_tree(&self) -> (r: bool)
        ensures
            r == (self.mode@ == seq![52u8, 48u8, 48u8, 48u8, 48u8]),
    {
        let m = &self.mode;
        let r = m.len() == 5 && m[0] == 52 && m[1] == 48 && m[2] == 48 && m[3] == 48 && m[4] == 48;
        assert(r == (self.mode@ =~= seq![52u8, 48u8, 48u8, 48u8, 48u8]));
        r
    }
}

fn scan_tree_entries(s: &[u8]) -> (r: Result<Vec<TreeEntry>, GitError>)
    ensures
        match checkout_entries(s@) {
            Ok(es) => r matches Ok(v) && v@.map_values(|t: TreeEntry| t@) == es.map_values(
                |e: (Seq<u8>, Seq<u8>, Seq<u8>)| entry_with_hex(e),
            ),
            Err(k) => r matches Err(e) && e.kind_of() == k,
        },
{
    let len = s.len();
    proof {
        lemma_index_of(s@, 0, 0, len as int);
    }
    let first = match find_byte(s, 0, 0, len) {
        None => return Err(GitError::OutOfRange),
        Some(p) => p + 1,
    };
    let ghost f = |e: (Seq<u8>, Seq<u8>, Seq<u8>)| entry_with_hex(e);
    let ghost g = |t: TreeEntry| t@;
    let mut entries: Vec<TreeEntry> = Vec::new();
    let mut start = first;
    assert(prefixed(Seq::<(Seq<u8>, Seq<u8>, Seq<u8>)>::empty(), checkout_entries_from(s@, start as int))
        =~= checkout_entries_from(s@, first as int)) by {
        match checkout_entries_from(s@, first as int) {
            Ok(x) => assert(Seq::<(Seq<u8>, Seq<u8>, Seq<u8>)>::empty() + x =~= x),
            Err(_) => {},
        }
    }
    let ghost done = Seq::<(Seq<u8>, Seq<u8>, Seq<u8>)>::empty();
    loop
        invariant
            start <= len,
            len == s@.len(),
            f == (|e: (Seq<u8>, Seq<u8>, Seq<u8>)| entry_with_hex(e)),
            g == (|t: TreeEntry| t@),
            checkout_entries(s@) == checkout_entries_from(s@, first as int),
            checkout_entries_from(s@, first as int) == prefixed(
                done,
                checkout_entries_from(s@, start as int),
            ),
            entries@.map_values(g) == done.map_values(f),
        decreases len - start,
    {
        if start >= len {
            assert(done + Seq::<(Seq<u8>, Seq<u8>, Seq<u8>)>::empty() =~= done);
            return Ok(entries);
        }
        proof {
            lemma_index_of(s@, 0, start as int, len as int);
        }
        let pos = match find_byte(s, 0, start, len) {
            None => return Err(GitError::OutOfRange),
            Some(p) => p,
        };
        proof {
            lemma_index_of(s@, 32, start as int, pos as int);
        }
        let sp = match find_byte(s, 32, start, pos) {
            None => return Err(GitError::NameNotFound),
            Some(k) => k,
        };
        if len - pos < 21 {
            return Err(GitError::ShaAreaMissing);
        }
        proof {
            lemma_index_of(s@, 32, sp + 1, pos as int);
        }
        let name_end = match find_byte(s, 32, sp + 1, pos) {
            Some(k) => k,
            None => pos,
        };
        let mode = copy_range(s, start, sp);
        let name = copy_range(s, sp + 1, name_end);
        let sha_bytes = copy_range(s, pos + 1, pos + 21);
        let sha = hex_encode(sha_bytes.as_slice());
        let ghost e = (s@.subrange(start as int, sp as int), s@.subrange(sp + 1, name_end as int), s@.subrange(pos + 1, pos + 21));
        let entry = TreeEntry { mode, name, sha };
        assert(entry@ == f(e));
        let ghost before = entries@;
        entries.push(entry);
        proof {
            assert(entries@ == before.push(entry));
            assert(entries@.map_values(g) =~= before.map_values(g).push(g(entry)));
            assert(done.push(e).map_values(f) =~= done.map_values(f).push(f(e)));
            match checkout_entries_from(s@, pos + 21) {
                Ok(x) => {
                    assert(done + (seq![e] + x) =~= done.push(e) + x);
                },
                Err(_) => {},
            }
            done = done.push(e);
        }
        start = pos + 21;
    }
}

/// The entries a checkout reads from a decompressed tree object, with their
/// object names in hexadecimal. Where the header or an entry lacks its NUL
/// byte there are no entries: such objects are left out (see
/// `tree_entries_in_range`).
pub fn parse_tree_entries(data: &Vec<u8>) -> (r: Result<Vec<TreeEntry>, GitError>)
    requires
        checkout_entries(data@) != Err::<Seq<(Seq<u8>, Seq<u8>, Seq<u8>)>, ErrorKind>(
            ErrorKind::OutOfRange,
        ),
    ensures
        match checkout_entries(data@) {
            Ok(es) => r matches Ok(v) && v@.map_values(|t: TreeEntry| t@) == es.map_values(
                |e: (Seq<u8>, Seq<u8>, Seq<u8>)| entry_with_hex(e),
            ),
            Err(k) => r matches Err(e) && e.kind_of() == k,
        },
{
    scan_tree_entries(data.as_slice())
}

/// Whether `parse_tree_entries` may be called on `data`: false where the
/// header or an entry lacks its NUL byte.
pub fn tree_entries_in_range(data: &Vec<u8>) -> (r: bool)
    ensures
        r == (checkout_entries(data@) != Err::<Seq<(Seq<u8>, Seq<u8>, Seq<u8>)>, ErrorKind>(
            ErrorKind::OutOfRange,
        )),
{
    match scan_tree_entries(data.as_slice()) {
        Ok(_) => true,
        Err(e) => match e {
            GitError::OutOfRange => false,
            _ => true,
        },
    }
}

proof fn lemma_entries_from(s: Seq<u8>, start: int, es: Seq<(bool, Seq<u8>, Seq<u8>)>)
    requires
        0 <= start <= s.len(),
        s.subrange(start, s.len() as int) == tree_body(es),
        forall|i: int| 0 <= i < es.len() ==> #[trigger] listable_entry(es[i]),
    ensures
        checkout_entries_from(s, start) == Ok::<Seq<(Seq<u8>, Seq<u8>, Seq<u8>)>, ErrorKind>(
            es.map_values(|e: (bool, Seq<u8>, Seq<u8>)| (entry_mode(e.0), e.1, e.2)),
        ),
    decreases es.len(),
{
    lemma_entry_modes();
    let read = es.map_values(|e: (bool, Seq<u8>, Seq<u8>)| (entry_mode(e.0), e.1, e.2));
    if es.len() == 0 {
        assert(tree_body(es).len() == 0);
        assert(read =~= Seq::<(Seq<u8>, Seq<u8>, Seq<u8>)>::empty());
    } else {
        let e = es[0];
        assert(listable_entry(e));
        let m = entry_mode(e.0);
        let eb = entry_bytes(e.0, e.1, e.2);
        let rest = es.drop_first();
        let body = tree_body(es);
        assert(body == eb + tree_body(rest));
        let ml = m.len() as int;
        let nl = e.1.len() as int;
        let sp = start + ml;
        let pos = sp + 1 + nl;
        assert(eb.len() == ml + 1 + nl + 1 + 20);
        assert forall|k: int| 0 <= k < body.len() implies s[start + k] == body[k] by {
            assert(s.subrange(start, s.len() as int)[k] == s[start + k]);
        }
        assert forall|k: int| start <= k < pos implies s[k] != 0u8 && (k != sp ==> s[k] != 32u8) by {
            assert(s[start + (k - start)] == body[k - start]);
            assert(body[k - start] == eb[k - start]);
            if k - start < ml {
                assert(eb[k - start] == m[k - start]);
            } else if k - start == ml {
                assert(eb[k - start] == 32u8);
            } else {
                assert(eb[k - start] == e.1[k - start - ml - 1]);
            }
        }
        assert(s[start + (pos - start)] == body[pos - start]);
        assert(eb[pos - start] == 0u8);
        lemma_index_of_at(s, 0, start, pos, s.len() as int);
        assert(s[start + ml] == body[ml]);
        assert(eb[ml] == 32u8);
        lemma_index_of_at(s, 32, start, sp, pos);
        lemma_index_of(s, 32, sp + 1, pos);
        assert(index_of(s, 32, sp + 1, pos) is None);
        assert forall|k: int| 0 <= k < ml implies s.subrange(start, sp)[k] == m[k] by {
            assert(s[start + k] == body[k]);
            assert(eb[k] == m[k]);
        }
        assert(s.subrange(start, sp) =~= m);
        assert forall|k: int| 0 <= k < nl implies s.subrange(sp + 1, pos)[k] == e.1[k] by {
            assert(s[start + (ml + 1 + k)] == body[ml + 1 + k]);
            assert(eb[ml + 1 + k] == e.1[k]);
        }
        assert(s.subrange(sp + 1, pos) =~= e.1);
        assert forall|k: int| 0 <= k < 20 implies s.subrange(pos + 1, pos + 21)[k] == e.2[k] by {
            assert(s[start + (ml + 1 + nl + 1 + k)] == body[ml + 1 + nl + 1 + k]);
            assert(eb[ml + 1 + nl + 1 + k] == e.2[k]);
        }
        assert(s.subrange(pos + 1, pos + 21) =~= e.2);
        let next = pos + 21;
        assert forall|k: int| 0 <= k < tree_body(rest).len() implies s.subrange(next, s.len() as int)[k]
            == tree_body(rest)[k] by {
            assert(s[start + (eb.len() + k)] == body[eb.len() + k]);
        }
        assert(s.subrange(next, s.len() as int) =~= tree_body(rest));
        assert forall|i: int| 0 <= i < rest.len() implies #[trigger] listable_entry(rest[i]) by {
            assert(rest[i] == es[i + 1]);
        }
        lemma_entries_from(s, next, rest);
        assert(read =~= seq![(m, e.1, e.2)] + rest.map_values(
            |e: (bool, Seq<u8>, Seq<u8>)| (entry_mode(e.0), e.1, e.2),
        ));
    }
}

/// A checkout reads back what `write-tree` wrote: the tree object of entries
/// whose names hold no NUL byte and no space, and whose object names are 20
/// bytes long, yields each entry's mode, name and object name, in order.
pub proof fn lemma_checkout_of_written_tree(es: Seq<(bool, Seq<u8>, Seq<u8>)>)
    requires
        forall|i: int| 0 <= i < es.len() ==> #[trigger] listable_entry(es[i]),
    ensures
        checkout_entries(object_bytes("tree".spec_bytes(), tree_body(es))) == Ok::<
            Seq<(Seq<u8>, Seq<u8>, Seq<u8>)>,
            ErrorKind,
        >(es.map_values(|e: (bool, Seq<u8>, Seq<u8>)| (entry_mode(e.0), e.1, e.2))),
{
    lemma_tree_tag();
    let body = tree_body(es);
    let s = object_bytes(tree_tag(), body);
    let d = decimal(body.len());
    lemma_decimal_digits(body.len());
    let p: int = 4 + 1 + d.len() as int;
    assert(s[p] == 0u8);
    assert forall|k: int| 0 <= k < p implies s[k] != 0u8 by {
        if k > 4 {
            assert(s[k] == d[k - 5]);
        }
    }
    lemma_index_of_at(s, 0, 0, p, s.len() as int);
    assert(s.subrange(p + 1, s.len() as int) =~= body);
    lemma_entries_from(s, p + 1, es);
}

/// Byte strings in lexicographic order: `a` comes strictly before `b`.
pub open spec fn bytes_lt(a: Seq<u8>, b: Seq<u8>) -> bool
    decreases a.len(),
{
    if a.len() == 0 {
        b.len() > 0
    } else if b.len() == 0 {
        false
    } else if a[0] != b[0] {
        a[0] < b[0]
    } else {
        bytes_lt(a.drop_first(), b.drop_first())
    }
}

/// `a` comes before `b`, or is `b`.
pub open spec fn bytes_le(a: Seq<u8>, b: Seq<u8>) -> bool {
    bytes_lt(a, b) || a == b
}

/// The order is total: of two different byte strings one comes first.
pub proof fn lemma_bytes_lt_total(a: Seq<u8>, b: Seq<u8>)
    ensures
        !bytes_lt(a, b) ==> bytes_lt(b, a) || a == b,
    decreases a.len(),
{
    if a.len() == 0 {
        if b.len() == 0 {
            assert(a =~= b);
        }
    } else if b.len() > 0 && a[0] == b[0] {
        lemma_bytes_lt_total(a.drop_first(), b.drop_first());
        if a.drop_first() == b.drop_first() {
            assert(a.len() == a.drop_first().len() + 1);
            assert(b.len() == b.drop_first().len() + 1);
            assert(a =~= b) by {
                assert forall|i: int| 0 <= i < a.len() implies a[i] == b[i] by {
                    if i > 0 {
                        assert(a[i] == a.drop_first()[i - 1]);
                        assert(b[i] == b.drop_first()[i - 1]);
                    }
                }
            }
        }
    }
}

fn bytes_less(a: &[u8], b: &[u8]) -> (r: bool)
    ensures
        r == bytes_lt(a@, b@),
{
    let mut i: usize = 0;
    assert(a@.skip(0) =~= a@ && b@.skip(0) =~= b@);
    while i < a.len() && i < b.len() && a[i] == b[i]
        invariant
            i <= a@.len(),
            i <= b@.len(),
            bytes_lt(a@, b@) == bytes_lt(a@.skip(i as int), b@.skip(i as int)),
        decreases a@.len() - i,
    {
        assert(a@.skip(i as int).drop_first() =~= a@.skip(i + 1));
        assert(b@.skip(i as int).drop_first() =~= b@.skip(i + 1));
        i = i + 1;
    }
    if i == a.len() {
        i < b.len()
    } else if i == b.len() {
        false
    } else {
        a[i] < b[i]
    }
}

/// The order in which to take `names` so that they come in ascending
/// lexicographic byte order: each index once, each name no later than the
/// next.
pub fn sorted_order(names: &Vec<Vec<u8>>) -> (order: Vec<usize>)
    ensures
        order@.len() == names@.len(),
        forall|i: int| 0 <= i < order@.len() ==> #[trigger] order@[i] < names@.len(),
        forall|i: int, j: int| 0 <= i < j < order@.len() ==> order@[i] != order@[j],
        forall|i: int|
            0 <= i < order@.len() - 1 ==> bytes_le(
                #[trigger] names@[order@[i] as int]@,
                names@[order@[i + 1] as int]@,
            ),
{
    let mut order: Vec<usize> = Vec::new();
    let n = names.len();
    let mut k: usize = 0;
    while k < n
        invariant
            k <= n,
            n == names@.len(),
            order@.len() == k,
            forall|i: int| 0 <= i < order@.len() ==> #[trigger] order@[i] < k,
            forall|i: int, j: int| 0 <= i < j < order@.len() ==> order@[i] != order@[j],
            forall|i: int|
                0 <= i < order@.len() - 1 ==> bytes_le(
                    #[trigger] names@[order@[i] as int]@,
                    names@[order@[i + 1] as int]@,
                ),
        decreases n - k,
    {
        let mut p = order.len();
        while p > 0 && bytes_less(names[k].as_slice(), names[order[p - 1]].as_slice())
            invariant
                p <= order@.len(),
                k < n,
                n == names@.len(),
                forall|i: int| 0 <= i < order@.len() ==> #[trigger] order@[i] < k,
                p < order@.len() ==> bytes_lt(names@[k as int]@, names@[order@[p as int] as int]@),
            decreases p,
        {
            p = p - 1;
        }
        proof {
            if p > 0 {
                lemma_bytes_lt_total(names@[k as int]@, names@[order@[p - 1] as int]@);
            }
        }
        let ghost old_order = order@;
        order.insert(p, k);
        proof {
            old_order.insert_ensures(p as int, k);
            assert forall|i: int| 0 <= i < order@.len() implies #[trigger] order@[i] < k + 1 by {
                if i < p {
                    assert(order@[i] == old_order[i]);
                } else if i > p {
                    assert(order@[i] == old_order[i - 1]);
                }
            }
            assert forall|i: int, j: int| 0 <= i < j < order@.len() implies order@[i] != order@[j] by {
                if i < p {
                    assert(order@[i] == old_order[i]);
                } else if i > p {
                    assert(order@[i] == old_order[i - 1]);
                }
                if j < p {
                    assert(order@[j] == old_order[j]);
                } else if j > p {
                    assert(order@[j] == old_order[j - 1]);
                }
            }
            assert forall|i: int| 0 <= i < order@.len() - 1 implies bytes_le(
                #[trigger] names@[order@[i] as int]@,
                names@[order@[i + 1] as int]@,
            ) by {
                if i + 1 < p {
                    assert(order@[i] == old_order[i]);
                    assert(order@[i + 1] == old_order[i + 1]);
                } else if i + 1 == p {
                    assert(order@[i] == old_order[i]);
                } else if i == p {
                    assert(order@[i + 1] == old_order[i]);
                } else {
                    assert(order@[i] == old_order[i - 1]);
                    assert(order@[i + 1] == old_order[i]);
                }
            }
        }
        k = k + 1;
    }
    order
}

/// `ls-tree --name-only` lists the names of a tree written from entries
/// sorted by name in ascending order: the listing is the entries' names,
/// each no later than the next.
pub proof fn lemma_ls_tree_lists_in_order(es: Seq<(bool, Seq<u8>, Seq<u8>)>)
    requires
        forall|i: int| 0 <= i < es.len() ==> #[trigger] listable_entry(es[i]),
        forall|i: int| 0 <= i < es.len() - 1 ==> bytes_le(#[trigger] es[i].1, es[i + 1].1),
    ensures
        tree_listing(object_bytes("tree".spec_bytes(), tree_body(es))) matches Ok(names) && names.len()
            == es.len() && forall|i: int|
            0 <= i < names.len() - 1 ==> bytes_le(#[trigger] names[i], names[i + 1]),
{
    lemma_ls_tree_of_written_tree(es);
    let names = es.map_values(|e: (bool, Seq<u8>, Seq<u8>)| e.1);
    assert forall|i: int| 0 <= i < names.len() - 1 implies bytes_le(#[trigger] names[i], names[i + 1]) by {
        assert(names[i] == es[i].1);
        assert(names[i + 1] == es[i + 1].1);
    }
}

} // verus!
