use git_starter_rust::error::ErrorKind;
use git_starter_rust::object::{git_object_file, zlib_decode};
use git_starter_rust::tree::{
    parse_tree_entries, parse_tree_names, sorted_order, tree_entries_in_range, tree_names_in_range,
    tree_object_content, DirEntry,
};

fn sample_entries() -> Vec<DirEntry> {
    vec![
        DirEntry {
            is_dir: true,
            name: "dir".to_string(),
            hash: "000102030405060708090a0b0c0d0e0f10111213".to_string(),
        },
        DirEntry {
            is_dir: false,
            name: "file.txt".to_string(),
            hash: "1415161718191A1B1C1D1E1F2021222324252627".to_string(),
        },
    ]
}

fn sample_body() -> Vec<u8> {
    let mut body = b"40000 dir\0".to_vec();
    body.extend(0u8..20);
    body.extend_from_slice(b"100644 file.txt\0");
    body.extend(20u8..40);
    body
}

#[test]
fn tree_content_of_entries() {
    assert_eq!(tree_object_content(&sample_entries()).unwrap(), sample_body());
}

#[test]
fn tree_content_rejects_bad_hex() {
    let entries = vec![DirEntry { is_dir: false, name: "a".to_string(), hash: "xyz".to_string() }];
    assert_eq!(tree_object_content(&entries).unwrap_err().kind(), ErrorKind::Hex);
}

#[test]
fn written_tree_hash() {
    let f = git_object_file("tree", &sample_body()).unwrap();
    assert_eq!(f.hash, "e62a31ad29f10d12224e87ed6a9fcf7bd9afd9d0");
}

#[test]
fn ls_tree_of_written_tree() {
    let f = git_object_file("tree", &tree_object_content(&sample_entries()).unwrap()).unwrap();
    let decoded = zlib_decode(&f.compressed).unwrap();
    assert!(tree_names_in_range(&decoded));
    assert_eq!(
        parse_tree_names(&decoded).unwrap(),
        vec![b"dir".to_vec(), b"file.txt".to_vec()]
    );
}

#[test]
fn ls_tree_errors() {
    let blob = b"blob 3\0abc".to_vec();
    assert_eq!(parse_tree_names(&blob).unwrap_err().kind(), ErrorKind::NotTreeObject);
    let headless = b"tree 3".to_vec();
    assert_eq!(parse_tree_names(&headless).unwrap_err().kind(), ErrorKind::NoObjectHeader);
    let cut = b"tree 9\0100644 a\0abc".to_vec();
    assert!(!tree_names_in_range(&cut));
}

#[test]
fn checkout_reads_written_tree() {
    let mut data = b"tree 46\0".to_vec();
    data.extend(sample_body());
    assert!(tree_entries_in_range(&data));
    let entries = parse_tree_entries(&data).unwrap();
    assert_eq!(entries.len(), 2);
    assert_eq!(entries[0].mode, b"40000".to_vec());
    assert_eq!(entries[0].name, b"dir".to_vec());
    assert_eq!(entries[0].sha, "000102030405060708090a0b0c0d0e0f10111213");
    assert!(entries[0].is_tree());
    assert_eq!(entries[1].mode, b"100644".to_vec());
    assert_eq!(entries[1].name, b"file.txt".to_vec());
    assert_eq!(entries[1].sha, "1415161718191a1b1c1d1e1f2021222324252627");
    assert!(!entries[1].is_tree());
}

#[test]
fn checkout_entry_errors() {
    let no_space = b"tree 1\0abc\0".to_vec();
    assert_eq!(parse_tree_entries(&no_space).unwrap_err().kind(), ErrorKind::NameNotFound);
    let short_sha = b"tree 1\0100644 a\0abc".to_vec();
    assert_eq!(parse_tree_entries(&short_sha).unwrap_err().kind(), ErrorKind::ShaAreaMissing);
    assert!(!tree_entries_in_range(&b"tree 1".to_vec()));
    assert!(!tree_entries_in_range(&b"tree 1\0100644 a".to_vec()));
}

#[test]
fn sorted_order_by_name_bytes() {
    let names = vec![b"src".to_vec(), b"Cargo.toml".to_vec(), b"a".to_vec(), b"ab".to_vec(), b"".to_vec()];
    assert_eq!(sorted_order(&names), vec![4, 1, 2, 3, 0]);
    assert_eq!(sorted_order(&Vec::new()), Vec::<usize>::new());
}
