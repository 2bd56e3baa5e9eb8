use git_starter_rust::commit::{commit_content, create_commit};
use git_starter_rust::error::ErrorKind;
use git_starter_rust::object::{
    blob_content, encode_object, git_object_file, make_hash, object_payload, zlib_decode,
    zlib_encode,
};

#[test]
fn encode_object_header() {
    let bytes = encode_object("blob", &b"hello world\n".to_vec());
    assert_eq!(bytes, b"blob 12\0hello world\n".to_vec());
    let bytes = encode_object("tree", &Vec::new());
    assert_eq!(bytes, b"tree 0\0".to_vec());
}

#[test]
fn make_hash_known_values() {
    assert_eq!(
        make_hash(&b"blob 12\0hello world\n".to_vec()).unwrap(),
        "3b18e512dba79e4c8300dd08aeb37f8e728b8dad"
    );
    assert_eq!(
        make_hash(&b"blob 0\0".to_vec()).unwrap(),
        "e69de29bb2d1d6434b8b29ae775ad8c2e48c5391"
    );
}

#[test]
fn zlib_round_trip() {
    let data = b"some content that is compressed".to_vec();
    let packed = zlib_encode(&data).unwrap();
    assert_ne!(packed, data);
    assert_eq!(zlib_decode(&packed).unwrap(), data);
}

#[test]
fn zlib_decode_rejects_garbage() {
    assert!(zlib_decode(&b"not a zlib stream".to_vec()).is_err());
}

#[test]
fn object_file_names_and_stores() {
    let f = git_object_file("blob", &b"hello world\n".to_vec()).unwrap();
    assert_eq!(f.hash, "3b18e512dba79e4c8300dd08aeb37f8e728b8dad");
    assert_eq!(zlib_decode(&f.compressed).unwrap(), b"blob 12\0hello world\n".to_vec());
}

#[test]
fn hash_object_then_cat_file() {
    let content = b"hello world\n".to_vec();
    let f = git_object_file("blob", &content).unwrap();
    let decoded = zlib_decode(&f.compressed).unwrap();
    assert_eq!(object_payload(&decoded), content);
}

#[test]
fn cat_file_payload_after_last_slash() {
    assert_eq!(object_payload(&b"blob 7\0a/b\0cd".to_vec()), b"cd".to_vec());
    assert_eq!(object_payload(&b"blob 3\0x/yz".to_vec()), b"z".to_vec());
}

#[test]
fn blob_content_after_header() {
    assert_eq!(blob_content(&b"blob 3\0abc".to_vec()).unwrap(), b"abc".to_vec());
    assert_eq!(
        blob_content(&b"no header".to_vec()).unwrap_err().kind(),
        ErrorKind::ContentNotFound
    );
}

#[test]
fn commit_content_layout() {
    let c = commit_content("t", "p", "msg");
    assert_eq!(
        c,
        b"tree t\nparent p\nauthor Admin <admin@example.com> 1652217488 +0300\ncommitter Name <committer@example.com> 1652224514 +0300\n\nmsg\n".to_vec()
    );
}

#[test]
fn create_commit_names_object() {
    let f = create_commit((
        "4b825dc642cb6eb9a060e54bf8d69288fbee4904",
        "3b18e512dba79e4c8300dd08aeb37f8e728b8dad",
        "hello",
    ))
    .unwrap();
    assert_eq!(f.hash, "e297bac693778d729b0e11daf7f8137619615d1b");
    let decoded = zlib_decode(&f.compressed).unwrap();
    assert!(decoded.starts_with(b"commit 207\0tree 4b825dc642cb6eb9a060e54bf8d69288fbee4904\n"));
}

#[test]
fn make_hash_is_forty_lower_hex_digits() {
    let h = make_hash(&b"anything at all".to_vec()).unwrap();
    assert_eq!(h.len(), 40);
    assert!(h.chars().all(|c| c.is_ascii_digit() || ('a'..='f').contains(&c)));
}
