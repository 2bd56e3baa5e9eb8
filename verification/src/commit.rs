//! Commit objects (`commit-tree`).
use crate::codec::{zlib_deflate, zlib_inflate};
use crate::object::{git_object_file, object_bytes, object_id, ObjectFile};
use crate::scan::push_all;
use vstd::prelude::*;
use vstd::string::StringSliceAdditionalSpecFns;
use vstd::utf8::{is_ascii_chars, is_ascii_chars_encode_utf8};

verus! {

/// The content of a commit of `tree` with parent `parent` and message
/// `message`, under the fixed author and committer lines.
pub open spec fn commit_content_of(tree: Seq<u8>, parent: Seq<u8>, message: Seq<u8>) -> Seq<u8> {
    "tree ".spec_bytes() + tree + "\nparent ".spec_bytes() + parent + "\n".spec_bytes()
        + "author Admin <admin@example.com> 1652217488 +0300\ncommitter Name <committer@example.com> 1652224514 +0300".spec_bytes()
        + "\n\n".spec_bytes() + message + "\n".spec_bytes()
}

/// The content of the commit of `tree_sha` with parent `parent_commit_sha`
/// and message `data`.
pub fn commit_content(tree_sha: &str, parent_commit_sha: &str, data: &str) -> (r: Vec<u8>)
    ensures
        r@ == commit_content_of(tree_sha.spec_bytes(), parent_commit_sha.spec_bytes(), data.spec_bytes()),
{
    let mut out: Vec<u8> = Vec::new();
    push_all(&mut out, "tree ".as_bytes());
    push_all(&mut out, tree_sha.as_bytes());
    push_all(&mut out, "\nparent ".as_bytes());
    push_all(&mut out, parent_commit_sha.as_bytes());
    push_all(&mut out, "\n".as_bytes());
    push_all(
        &mut out,
        "author Admin <admin@example.com> 1652217488 +0300\ncommitter Name <committer@example.com> 1652224514 +0300".as_bytes(),
    );
    push_all(&mut out, "\n\n".as_bytes());
    push_all(&mut out, data.as_bytes());
    push_all(&mut out, "\n".as_bytes());
    out
}

/// The commit object of `(tree, parent, message)`: its name and its
/// compressed file, from which decompression gives the object back. Fails
/// exactly where compressing the commit object fails.
pub fn create_commit(args: (&str, &str, &str)) -> (r: Result<ObjectFile, std::io::Error>)
    ensures
        r is Ok <==> zlib_deflate(
            object_bytes(
                "commit".spec_bytes(),
                commit_content_of(args.0.spec_bytes(), args.1.spec_bytes(), args.2.spec_bytes()),
            ),
        ) is Some,
        r matches Ok(f) ==> {
            let content = commit_content_of(
                args.0.spec_bytes(),
                args.1.spec_bytes(),
                args.2.spec_bytes(),
            );
            &&& f.hash@ == object_id("commit".spec_bytes(), content)
            &&& zlib_deflate(object_bytes("commit".spec_bytes(), content)) == Some(f.compressed@)
            &&& zlib_inflate(f.compressed@) == Some(object_bytes("commit".spec_bytes(), content))
        },
{
    let (tree_sha, parent_commit_sha, data) = args;
    let content = commit_content(tree_sha, parent_commit_sha, data);
    git_object_file("commit", &content)
}

/// The literals a commit object begins with, spelled out in ASCII.
pub proof fn lemma_commit_literals()
    ensures
        "commit".spec_bytes() == seq![99u8, 111u8, 109u8, 109u8, 105u8, 116u8],
        "tree ".spec_bytes() == seq![116u8, 114u8, 101u8, 101u8, 32u8],
        "\nparent ".spec_bytes().len() == 8,
        "\nparent ".spec_bytes()[0] == 10u8,
{
    reveal_strlit("commit");
    reveal_strlit("tree ");
    reveal_strlit("\nparent ");
    is_ascii_chars_encode_utf8("commit"@);
    is_ascii_chars_encode_utf8("tree "@);
    is_ascii_chars_encode_utf8("\nparent "@);
    assert(is_ascii_chars("commit"@));
    assert(is_ascii_chars("tree "@));
    assert(is_ascii_chars("\nparent "@));
    assert("commit".spec_bytes() =~= seq![99u8, 111u8, 109u8, 109u8, 105u8, 116u8]);
    assert("tree ".spec_bytes() =~= seq![116u8, 114u8, 101u8, 101u8, 32u8]);
}

/// A commit keeps every part it is made of, whole and in place: it starts
/// `tree <tree>\nparent <parent>\n`, ends `\n\n<message>\n`, and between
/// them holds only the fixed 105-byte author and committer lines.
pub proof fn lemma_commit_keeps_parts(tree: Seq<u8>, parent: Seq<u8>, message: Seq<u8>)
    ensures
        ({
            let c = commit_content_of(tree, parent, message);
            let tl = tree.len() as int;
            let pl = parent.len() as int;
            let ml = message.len() as int;
            &&& c.len() == tl + pl + ml + 122
            &&& c.subrange(0, 5) == seq![116u8, 114u8, 101u8, 101u8, 32u8]
            &&& c.subrange(5, 5 + tl) == tree
            &&& c.subrange(5 + tl, 13 + tl) == seq![10u8, 112u8, 97u8, 114u8, 101u8, 110u8, 116u8, 32u8]
            &&& c.subrange(13 + tl, 13 + tl + pl) == parent
            &&& c[13 + tl + pl] == 10u8
            &&& c.subrange(c.len() - ml - 3, c.len() as int) == seq![10u8, 10u8] + message + seq![10u8]
        }),
{
    lemma_commit_literals();
    let meta = "author Admin <admin@example.com> 1652217488 +0300\ncommitter Name <committer@example.com> 1652224514 +0300";
    reveal_strlit("author Admin <admin@example.com> 1652217488 +0300\ncommitter Name <committer@example.com> 1652224514 +0300");
    reveal_strlit("\n");
    reveal_strlit("\n\n");
    reveal_strlit("\nparent ");
    is_ascii_chars_encode_utf8(meta@);
    is_ascii_chars_encode_utf8("\n"@);
    is_ascii_chars_encode_utf8("\n\n"@);
    is_ascii_chars_encode_utf8("\nparent "@);
    assert(is_ascii_chars(meta@));
    assert(is_ascii_chars("\n"@));
    assert(is_ascii_chars("\n\n"@));
    assert(is_ascii_chars("\nparent "@));
    assert("\n".spec_bytes() =~= seq![10u8]);
    assert("\n\n".spec_bytes() =~= seq![10u8, 10u8]);
    assert("\nparent ".spec_bytes() =~= seq![10u8, 112u8, 97u8, 114u8, 101u8, 110u8, 116u8, 32u8]);
    assert(meta.spec_bytes().len() == 105);
    let c = commit_content_of(tree, parent, message);
    let tl = tree.len() as int;
    let pl = parent.len() as int;
    let ml = message.len() as int;
    let head = "tree ".spec_bytes() + tree + "\nparent ".spec_bytes() + parent + "\n".spec_bytes()
        + meta.spec_bytes();
    assert(c == head + (seq![10u8, 10u8] + message + seq![10u8]));
    assert(c.subrange(0, 5) =~= seq![116u8, 114u8, 101u8, 101u8, 32u8]);
    assert(c.subrange(5, 5 + tl) =~= tree);
    assert(c.subrange(5 + tl, 13 + tl) =~= seq![10u8, 112u8, 97u8, 114u8, 101u8, 110u8, 116u8, 32u8]);
    assert(c.subrange(13 + tl, 13 + tl + pl) =~= parent);
    assert(c.subrange(c.len() - ml - 3, c.len() as int) =~= seq![10u8, 10u8] + message + seq![10u8]);
}

} // verus!
