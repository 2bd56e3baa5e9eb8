//! A directory as `write-tree` stores it and as a checkout writes it back:
//! the objects a work tree is stored as, and what a checkout rebuilds from
//! the stored objects.
use crate::codec::{hex_lower, sha1_digest};
use crate::object::{blob_content_of, lemma_checkout_of_object, object_bytes};
use crate::tree::{
    bytes_le, checkout_entries, entry_mode, lemma_checkout_of_written_tree, lemma_entry_modes,
    lemma_ls_tree_lists_in_order, listable_entry, tree_body, tree_listing,
};
use vstd::prelude::*;
use vstd::string::StringSliceAdditionalSpecFns;
use vstd::utf8::{is_ascii_chars, is_ascii_chars_encode_utf8};

verus! {

/// A file with its content, or a directory with its entries.
pub ghost enum WorkTree {
    File { name: Seq<u8>, content: Seq<u8> },
    Dir { name: Seq<u8>, entries: Seq<WorkTree> },
}

impl WorkTree {
    /// The name of the file or directory.
    pub open spec fn name(self) -> Seq<u8> {
        match self {
            WorkTree::File { name, .. } => name,
            WorkTree::Dir { name, .. } => name,
        }
    }
}

/// The names of `es`, in order.
pub open spec fn entry_names(es: Seq<WorkTree>) -> Seq<Seq<u8>> {
    es.map_values(|e: WorkTree| e.name())
}

/// The bytes of the type name `blob`.
pub open spec fn blob_tag() -> Seq<u8> {
    "blob".spec_bytes()
}

/// The entry that stands for `t` in its parent's tree: whether it is a
/// directory, its name, and the binary name of the object it is stored as
/// (a blob of the file's content, or the tree of the directory's entries).
pub open spec fn node_entry(t: WorkTree) -> (bool, Seq<u8>, Seq<u8>)
    decreases t,
{
    match t {
        WorkTree::File { name, content } => (false, name, sha1_digest(object_bytes(blob_tag(), content))),
        WorkTree::Dir { name, entries } => (
            true,
            name,
            sha1_digest(object_bytes("tree".spec_bytes(), tree_body(list_entries(entries)))),
        ),
    }
}

/// The entries of the tree of a directory, in the order given.
pub open spec fn list_entries(es: Seq<WorkTree>) -> Seq<(bool, Seq<u8>, Seq<u8>)>
    decreases es,
{
    if es.len() == 0 {
        Seq::empty()
    } else {
        seq![node_entry(es[0])] + list_entries(es.subrange(1, es.len() as int))
    }
}

/// The bytes of the object that `t` is stored as.
pub open spec fn node_object(t: WorkTree) -> Seq<u8> {
    match t {
        WorkTree::File { content, .. } => object_bytes(blob_tag(), content),
        WorkTree::Dir { entries, .. } => object_bytes("tree".spec_bytes(), tree_body(list_entries(entries))),
    }
}

/// `store` (object name in hexadecimal to the decompressed object) holds
/// the object of `t` and of everything inside it, under their names, each a
/// 20-byte digest (as every name `git_object_file` gives is).
pub open spec fn stored(store: Map<Seq<char>, Seq<u8>>, t: WorkTree) -> bool
    decreases t,
{
    &&& node_entry(t).2.len() == 20
    &&& store.contains_key(hex_lower(node_entry(t).2))
    &&& store[hex_lower(node_entry(t).2)] == node_object(t)
    &&& match t {
        WorkTree::File { .. } => true,
        WorkTree::Dir { entries, .. } => stored_all(store, entries),
    }
}

/// `store` holds the objects of all of `es`.
pub open spec fn stored_all(store: Map<Seq<char>, Seq<u8>>, es: Seq<WorkTree>) -> bool
    decreases es,
{
    es.len() == 0 || (stored(store, es[0]) && stored_all(store, es.subrange(1, es.len() as int)))
}

/// Names a tree can hold and read back: no NUL byte and no space, in every
/// directory.
pub open spec fn well_named(t: WorkTree) -> bool
    decreases t,
{
    &&& forall|k: int| 0 <= k < t.name().len() ==> #[trigger] t.name()[k] != 0u8 && t.name()[k] != 32u8
    &&& match t {
        WorkTree::File { .. } => true,
        WorkTree::Dir { entries, .. } => all_well_named(entries),
    }
}

/// Every one of `es` is well named.
pub open spec fn all_well_named(es: Seq<WorkTree>) -> bool
    decreases es,
{
    es.len() == 0 || (well_named(es[0]) && all_well_named(es.subrange(1, es.len() as int)))
}

/// How deep directories nest in `t`.
pub open spec fn depth(t: WorkTree) -> nat
    decreases t,
{
    match t {
        WorkTree::File { .. } => 0,
        WorkTree::Dir { entries, .. } => 1 + depth_all(entries),
    }
}

/// How deep directories nest in the deepest of `es`.
pub open spec fn depth_all(es: Seq<WorkTree>) -> nat
    decreases es,
{
    if es.len() == 0 {
        0
    } else {
        let a = depth(es[0]);
        let b = depth_all(es.subrange(1, es.len() as int));
        if a >= b {
            a
        } else {
            b
        }
    }
}

/// What a checkout rebuilds of the tree named `id` from `store`, going at
/// most `fuel` directories deep: each entry of mode `40000` is checked out
/// as a directory from its own tree, each other entry as a file with the
/// content of its blob. `None` where an object is missing or unreadable.
pub open spec fn checkout_tree_of(store: Map<Seq<char>, Seq<u8>>, id: Seq<char>, fuel: nat) -> Option<
    Seq<WorkTree>,
>
    decreases fuel, 1nat, 0nat,
{
    if fuel == 0 || !store.contains_key(id) {
        None
    } else {
        match checkout_entries(store[id]) {
            Err(_) => None,
            Ok(es) => checkout_list(store, es, fuel),
        }
    }
}

/// What a checkout rebuilds of the entries `es` from `store`.
pub open spec fn checkout_list(
    store: Map<Seq<char>, Seq<u8>>,
    es: Seq<(Seq<u8>, Seq<u8>, Seq<u8>)>,
    fuel: nat,
) -> Option<Seq<WorkTree>>
    decreases fuel, 0nat, es.len(),
{
    if es.len() == 0 {
        Some(Seq::empty())
    } else {
        let e = es[0];
        let node = if e.0 == seq![52u8, 48u8, 48u8, 48u8, 48u8] {
            if fuel == 0 {
                None
            } else {
                match checkout_tree_of(store, hex_lower(e.2), (fuel - 1) as nat) {
                    Some(sub) => Some(WorkTree::Dir { name: e.1, entries: sub }),
                    None => None,
                }
            }
        } else {
            let h = hex_lower(e.2);
            if store.contains_key(h) {
                match blob_content_of(store[h]) {
                    Ok(c) => Some(WorkTree::File { name: e.1, content: c }),
                    Err(_) => None,
                }
            } else {
                None
            }
        };
        match (node, checkout_list(store, es.subrange(1, es.len() as int), fuel)) {
            (Some(n), Some(rest)) => Some(seq![n] + rest),
            _ => None,
        }
    }
}

/// The type name `blob`, spelled out in ASCII.
pub proof fn lemma_blob_tag()
    ensures
        blob_tag() == seq![98u8, 108u8, 111u8, 98u8],
{
    reveal_strlit("blob");
    is_ascii_chars_encode_utf8("blob"@);
    assert(is_ascii_chars("blob"@));
    assert(blob_tag() =~= seq![98u8, 108u8, 111u8, 98u8]);
}

/// An entry as a checkout reads it back: mode, name and binary object name.
pub open spec fn read_back(e: (bool, Seq<u8>, Seq<u8>)) -> (Seq<u8>, Seq<u8>, Seq<u8>) {
    (entry_mode(e.0), e.1, e.2)
}

/// The entries of a directory's tree, one for each of `es`, in order; each
/// can be listed and read back where `es` are well named and stored.
pub proof fn lemma_list_entries(store: Map<Seq<char>, Seq<u8>>, es: Seq<WorkTree>)
    ensures
        list_entries(es).len() == es.len(),
        forall|i: int| 0 <= i < es.len() ==> #[trigger] list_entries(es)[i] == node_entry(es[i]),
        all_well_named(es) && stored_all(store, es) ==> forall|i: int|
            0 <= i < es.len() ==> #[trigger] listable_entry(list_entries(es)[i]),
    decreases es.len(),
{
    if es.len() > 0 {
        let rest = es.subrange(1, es.len() as int);
        lemma_list_entries(store, rest);
        assert forall|i: int| 0 <= i < es.len() implies #[trigger] list_entries(es)[i] == node_entry(
            es[i],
        ) by {
            if i > 0 {
                assert(list_entries(es)[i] == list_entries(rest)[i - 1]);
                assert(rest[i - 1] == es[i]);
            }
        }
        if all_well_named(es) && stored_all(store, es) {
            assert forall|i: int| 0 <= i < es.len() implies #[trigger] listable_entry(
                list_entries(es)[i],
            ) by {
                if i > 0 {
                    assert(list_entries(es)[i] == list_entries(rest)[i - 1]);
                } else {
                    let t = es[0];
                    assert(well_named(t));
                    assert(stored(store, t));
                    assert(node_entry(t).1 == t.name());
                }
            }
        }
    }
}

proof fn lemma_checkout_list(store: Map<Seq<char>, Seq<u8>>, es: Seq<WorkTree>, fuel: nat)
    requires
        stored_all(store, es),
        all_well_named(es),
        depth_all(es) < fuel,
    ensures
        checkout_list(store, list_entries(es).map_values(|e: (bool, Seq<u8>, Seq<u8>)| read_back(e)), fuel)
            == Some(es),
    decreases es, 0nat,
{
    let m = list_entries(es).map_values(|e: (bool, Seq<u8>, Seq<u8>)| read_back(e));
    lemma_list_entries(store, es);
    if es.len() == 0 {
        assert(es =~= Seq::<WorkTree>::empty());
    } else {
        lemma_entry_modes();
        lemma_blob_tag();
        let t = es[0];
        let rest = es.subrange(1, es.len() as int);
        let mr = list_entries(rest).map_values(|e: (bool, Seq<u8>, Seq<u8>)| read_back(e));
        lemma_list_entries(store, rest);
        assert(m.subrange(1, m.len() as int) =~= mr) by {
            assert forall|i: int| 0 <= i < mr.len() implies m.subrange(1, m.len() as int)[i] == mr[i] by {
                assert(list_entries(es)[i + 1] == node_entry(es[i + 1]));
                assert(list_entries(rest)[i] == node_entry(rest[i]));
                assert(rest[i] == es[i + 1]);
            }
        }
        assert(m[0] == read_back(node_entry(t)));
        assert(depth(t) <= depth_all(es));
        assert(depth_all(rest) <= depth_all(es));
        lemma_checkout_list(store, rest, fuel);
        assert(checkout_list(store, mr, fuel) == Some(rest));
        let h = hex_lower(node_entry(t).2);
        assert(stored(store, t));
        assert(store.contains_key(h) && store[h] == node_object(t));
        match t {
            WorkTree::File { name, content } => {
                assert(m[0].0 != seq![52u8, 48u8, 48u8, 48u8, 48u8]) by {
                    assert(m[0].0[0] == 49u8);
                }
                lemma_checkout_of_object(blob_tag(), content);
                assert(blob_content_of(store[h]) == Ok::<Seq<u8>, crate::error::ErrorKind>(content));
                assert(checkout_list(store, m, fuel) == Some(seq![t] + rest));
            },
            WorkTree::Dir { name, entries } => {
                assert(m[0].0 == seq![52u8, 48u8, 48u8, 48u8, 48u8]);
                assert(well_named(t));
                lemma_checkout_dir(store, t, (fuel - 1) as nat);
                assert(checkout_tree_of(store, h, (fuel - 1) as nat) == Some(entries));
                assert(checkout_list(store, m, fuel) == Some(seq![t] + rest));
            },
        }
        assert(seq![t] + rest =~= es);
    }
}

/// A checkout rebuilds a stored directory: from a store that holds the
/// objects of a well-named directory `t`, checking out the tree named by
/// `t`'s object name, at least `depth(t)` directories deep, gives back `t`'s
/// entries: the same names, the same nesting and the same file contents.
pub proof fn lemma_checkout_dir(store: Map<Seq<char>, Seq<u8>>, t: WorkTree, fuel: nat)
    requires
        t is Dir,
        stored(store, t),
        well_named(t),
        depth(t) <= fuel,
    ensures
        checkout_tree_of(store, hex_lower(node_entry(t).2), fuel) == Some(t->entries),
    decreases t, 1nat,
{
    let entries = t->entries;
    let le = list_entries(entries);
    lemma_list_entries(store, entries);
    lemma_checkout_of_written_tree(le);
    assert(le.map_values(|e: (bool, Seq<u8>, Seq<u8>)| (entry_mode(e.0), e.1, e.2)) =~= le.map_values(
        |e: (bool, Seq<u8>, Seq<u8>)| read_back(e),
    ));
    lemma_checkout_list(store, entries, fuel);
}

/// `ls-tree --name-only` of a stored directory whose entries come sorted
/// by name (as `write-tree` sorts them) lists the entries' names, each no
/// later than the next.
pub proof fn lemma_ls_tree_of_stored_dir(store: Map<Seq<char>, Seq<u8>>, t: WorkTree)
    requires
        t is Dir,
        stored(store, t),
        well_named(t),
        forall|i: int|
            0 <= i < t->entries.len() - 1 ==> bytes_le(
                #[trigger] t->entries[i].name(),
                t->entries[i + 1].name(),
            ),
    ensures
        tree_listing(store[hex_lower(node_entry(t).2)]) == Ok::<Seq<Seq<u8>>, crate::error::ErrorKind>(
            entry_names(t->entries),
        ),
        forall|i: int|
            0 <= i < t->entries.len() - 1 ==> bytes_le(
                #[trigger] entry_names(t->entries)[i],
                entry_names(t->entries)[i + 1],
            ),
{
    let entries = t->entries;
    let le = list_entries(entries);
    lemma_list_entries(store, entries);
    assert forall|i: int| 0 <= i < le.len() - 1 implies bytes_le(#[trigger] le[i].1, le[i + 1].1) by {
        assert(le[i] == node_entry(entries[i]));
        assert(le[i + 1] == node_entry(entries[i + 1]));
        assert(node_entry(entries[i]).1 == entries[i].name());
        assert(node_entry(entries[i + 1]).1 == entries[i + 1].name());
    }
    lemma_ls_tree_lists_in_order(le);
    crate::tree::lemma_ls_tree_of_written_tree(le);
    assert(le.map_values(|e: (bool, Seq<u8>, Seq<u8>)| e.1) =~= entry_names(entries));
}

} // verus!
