use git_starter_rust::clone::{
    commit_tree_id, find_pack_hash, next_pack_object, object_type_name, pack_header, parse_pack,
    upload_pack_request, PackObject,
};
use git_starter_rust::delta::{decode_usize, delta_body_start, undeltified};
use git_starter_rust::error::{ErrorKind, GitError};
use git_starter_rust::object::{make_hash, zlib_encode};

fn hex_to_bytes(s: &str) -> Vec<u8> {
    (0..s.len()).step_by(2).map(|i| u8::from_str_radix(&s[i..i + 2], 16).unwrap()).collect()
}

#[test]
fn decode_usize_selected_bytes() {
    let data = [0x10u8, 0x20, 0x30];
    let mut seek = 0usize;
    assert_eq!(decode_usize(0b101, &mut seek, &data).unwrap(), 0x20_0010);
    assert_eq!(seek, 2);
    let mut seek = 1usize;
    assert_eq!(decode_usize(0, &mut seek, &data).unwrap(), 0);
    assert_eq!(seek, 1);
}

#[test]
fn decode_usize_missing_byte() {
    let data = [0x10u8];
    let mut seek = 0usize;
    let e = decode_usize(0b11, &mut seek, &data).unwrap_err();
    assert_eq!(e.kind(), ErrorKind::IndexMissing);
    assert_eq!(seek, 1);
}

#[test]
fn undeltified_copy_and_insert() {
    let base = b"hello world";
    let delta = [11u8, 7, 0x91, 6, 5, 2, b'!', b'?'];
    assert_eq!(undeltified(&delta, base).unwrap(), b"world!?".to_vec());
}

#[test]
fn undeltified_errors() {
    let base = b"abc";
    let too_far = [3u8, 3, 0x91, 2, 5];
    assert_eq!(undeltified(&too_far, base).unwrap_err().kind(), ErrorKind::RangeMissing);
    let cut_field = [3u8, 3, 0x91, 0];
    assert_eq!(undeltified(&cut_field, base).unwrap_err().kind(), ErrorKind::IndexMissing);
    let long_insert = [3u8, 3, 5, b'a'];
    assert_eq!(undeltified(&long_insert, base).unwrap_err().kind(), ErrorKind::RangeMissing);
}

#[test]
fn delta_size_fields() {
    assert_eq!(delta_body_start(&[0xC8, 0x01, 0x05, 0x00]), Some(3));
    assert_eq!(delta_body_start(&[0x80]), None);
    assert_eq!(delta_body_start(&[0x05]), None);
    // a byte of exactly 128 ends a size field
    assert_eq!(delta_body_start(&[128, 128]), Some(2));
}

fn response(count: u32, objects: &[u8]) -> Vec<u8> {
    let mut r = b"0008NAK\nPACK\0\0\0\x02".to_vec();
    r.extend_from_slice(&count.to_be_bytes());
    r.extend_from_slice(objects);
    r.extend_from_slice(&[0u8; 20]);
    r
}

fn blob_then_delta() -> Vec<u8> {
    let blob = vec![b'a'; 200];
    let mut objects = vec![0xB8u8, 12];
    objects.extend(zlib_encode(&blob).unwrap());
    // the next object is read 200 bytes (the blob's length) after the size field
    objects.resize(2 + 200, 0);
    objects.push(0x75);
    objects.extend(hex_to_bytes("1d33d17ad3abab24046a78cf5a4abc31e69865b3"));
    let delta = vec![0xC8u8, 0x01, 5, 0x91, 0, 3, 2, b'x', b'y'];
    objects.extend(zlib_encode(&delta).unwrap());
    response(2, &objects)
}

#[test]
fn parse_pack_blob_and_ref_delta() {
    let objs = parse_pack(&blob_then_delta()).unwrap();
    assert_eq!(objs.len(), 2);
    assert_eq!(objs[0].kind, 3);
    assert_eq!(objs[0].content, vec![b'a'; 200]);
    assert_eq!(objs[0].id, "1d33d17ad3abab24046a78cf5a4abc31e69865b3");
    assert_eq!(objs[1].kind, 3);
    assert_eq!(objs[1].content, b"aaaxy".to_vec());
    assert_eq!(objs[1].id, "2fad47474978fe4270758461b0769b060919b6f2");
}

#[test]
fn pack_objects_named_by_content() {
    for o in parse_pack(&blob_then_delta()).unwrap() {
        let mut bytes = format!("{} {}\0", object_type_name(o.kind), o.content.len()).into_bytes();
        bytes.extend_from_slice(&o.content);
        assert_eq!(make_hash(&bytes).unwrap(), o.id);
    }
}

#[test]
fn next_pack_object_steps() {
    let (count, data) = pack_header(&blob_then_delta()).unwrap();
    assert_eq!(count, 2);
    let (first, next) = next_pack_object(&data, 0, &Vec::new()).unwrap();
    assert_eq!(next, 202);
    let known: Vec<PackObject> = vec![first];
    let (second, _) = next_pack_object(&data, next, &known).unwrap();
    assert_eq!(second.content, b"aaaxy".to_vec());
}

#[test]
fn ref_delta_without_base() {
    let (_, data) = pack_header(&blob_then_delta()).unwrap();
    let e = next_pack_object(&data, 202, &Vec::new()).unwrap_err();
    assert_eq!(e.kind(), ErrorKind::OutOfRange);
}

#[test]
fn pack_header_lengths() {
    match pack_header(&[0u8; 10]) {
        Err(GitError::ResponseTooShort(n)) => assert_eq!(n, 10),
        _ => panic!("expected a short response"),
    }
    assert_eq!(pack_header(&[0u8; 30]).unwrap_err().kind(), ErrorKind::OutOfRange);
    let (count, data) = pack_header(&response(0, b"")).unwrap();
    assert_eq!(count, 0);
    assert!(data.is_empty());
    assert!(parse_pack(&response(0, b"")).unwrap().is_empty());
}

#[test]
fn corrupt_object_stream() {
    let e = parse_pack(&response(1, &[0x35, 1, 2, 3, 4, 5, 6])).unwrap_err();
    assert_eq!(e.kind(), ErrorKind::Io);
}

#[test]
fn find_pack_hash_in_advertisement() {
    let body = "001e# service=git-upload-pack\n0000\
                00fa47b37f1a82bfe85f6d8df52b6258b75e4343b7fd HEAD\0multi_ack\n\
                003f47b37f1a82bfe85f6d8df52b6258b75e4343b7fd refs/heads/master\n0000";
    assert_eq!(
        find_pack_hash(body.as_bytes()).unwrap(),
        b"47b37f1a82bfe85f6d8df52b6258b75e4343b7fd".to_vec()
    );
}

#[test]
fn find_pack_hash_without_master() {
    let body = "003f47b37f1a82bfe85f6d8df52b6258b75e4343b7fd refs/heads/main\n";
    assert_eq!(find_pack_hash(body.as_bytes()).unwrap_err().kind(), ErrorKind::NotSha);
}

#[test]
fn upload_request_body() {
    assert_eq!(
        upload_pack_request(b"47b37f1a82bfe85f6d8df52b6258b75e4343b7fd"),
        b"0032want 47b37f1a82bfe85f6d8df52b6258b75e4343b7fd\n00000009done\n".to_vec()
    );
}

#[test]
fn commit_tree_id_first_line() {
    let data = b"commit 10\0tree abc\nparent def\n".to_vec();
    assert_eq!(commit_tree_id(&data), b"abc".to_vec());
    assert_eq!(commit_tree_id(&b"single".to_vec()), b"single".to_vec());
}

#[test]
fn parse_pack_short_response_size() {
    match parse_pack(&vec![0u8; 7]) {
        Err(GitError::ResponseTooShort(n)) => assert_eq!(n, 7),
        _ => panic!("expected a short response"),
    }
}
