use flate2::write::ZlibEncoder;
use flate2::Compression;
use git_remote_base::objects::{
    collect_references, collect_references_from_loose_object, parse_size, read_commit,
    read_loose_object, read_object_header, read_tree, read_tree_entry, DecodeError, ObjectType,
};
use std::io::Write;

fn compress(data: &[u8]) -> Vec<u8> {
    let mut encoder = ZlibEncoder::new(Vec::new(), Compression::default());
    encoder.write_all(data).unwrap();
    encoder.finish().unwrap()
}

fn object(kind: &str, body: &[u8]) -> Vec<u8> {
    let mut data = format!("{} {}\0", kind, body.len()).into_bytes();
    data.extend_from_slice(body);
    data
}

fn entry(mode: &str, name: &str, hash: &str) -> Vec<u8> {
    let mut data = format!("{} {}\0", mode, name).into_bytes();
    data.extend_from_slice(&hex::decode(hash).unwrap());
    data
}

fn commit_body() -> Vec<u8> {
    b"tree d4e7691a046ef7d6dfc4bbf3862fff92f3641dd5\n\
parent 69c3f5e740fd83a1e5d08f05055b3c4c1c98040d\n\
author A U Thor <author@example.com> 1700000000 +1000\n\
committer A U Thor <author@example.com> 1700000000 +1000\n\
\n\
Add the helper.\n"
        .to_vec()
}

const ELEVEN: [(&str, &str, &str); 11] = [
    ("100644", "404.html", "c472b4ea0a781061dab1f394627222735d4215bd"),
    ("100644", "_config.yml", "12f97a480985b12fa2c6654d601ce260ce63b38a"),
    ("40000", "_drafts", "697458dce5850b4e134b11d940d49ac124f74b37"),
    ("40000", "_includes", "610986f34246d351aa1ff8a0481f30ee6db14971"),
    ("40000", "_layouts", "14e993c397283385b2db77c2626ecf3660f1d9ea"),
    ("40000", "_posts", "e2e4392673a78eca0e2b39a6d63a83064b09689b"),
    ("40000", "_sass", "e64f70132181aba02f2e657c5787ffb32536a3d1"),
    ("100644", "about.md", "8cd655b97ace9c117ae2090411a797b15cf68294"),
    ("40000", "assets", "2603ca6a57793ef890b81eee3f02b1f1eb93d0f6"),
    ("100644", "feed.xml", "e1791c9c70132438dd51fe2f0db45f88f01e24ca"),
    ("100644", "index.md", "7cad4a33f9b2a6cf06b9d99aec9f636d4011b54a"),
];

fn eleven_entries() -> Vec<u8> {
    let mut body = Vec::new();
    for (mode, name, hash) in ELEVEN.iter() {
        body.extend(entry(mode, name, hash));
    }
    body
}

#[test]
fn decode_commit() {
    let body = commit_body();
    let buffer = object("commit", &body);
    let header = read_object_header(&buffer).unwrap();
    assert!(matches!(header.object_type, ObjectType::Commit { tree: _, parents: _ }));
    assert_eq!(header.size, body.len());
    assert_eq!(buffer.len() - format!("commit {}\0", body.len()).len(), header.size);
    let expected_tree = "d4e7691a046ef7d6dfc4bbf3862fff92f3641dd5".to_string();
    let expected_parent = "69c3f5e740fd83a1e5d08f05055b3c4c1c98040d".to_string();
    if let ObjectType::Commit { tree, parents } = header.object_type {
        assert_eq!(tree, Some(expected_tree));
        assert_eq!(parents, vec![expected_parent]);
    }
}

#[test]
fn decode_commit_from_path() {
    let compressed = compress(&object("commit", &commit_body()));
    let object = read_loose_object(&compressed).expect("Test data should be readable.");
    assert!(matches!(object, ObjectType::Commit { tree: _, parents: _ }));
    let expected_tree = "d4e7691a046ef7d6dfc4bbf3862fff92f3641dd5".to_string();
    let expected_parent = "69c3f5e740fd83a1e5d08f05055b3c4c1c98040d".to_string();
    if let ObjectType::Commit { tree, parents } = object {
        assert_eq!(tree, Some(expected_tree));
        assert_eq!(parents, vec![expected_parent]);
    }
}

#[test]
fn decode_tree() {
    let body = entry("100644", "fetch_vcdist.py", "45115f4b2a86b84dc323cbba9e53017f57dc8dc1");
    let buffer = object("tree", &body);
    assert!(buffer.starts_with(b"tree "));
    let header = read_object_header(&buffer).unwrap();
    assert_eq!(header.size, 43);
    let size_terminator = buffer.iter().position(|b| *b == 0).expect("Found terminator");
    let entry = read_tree_entry(&buffer[size_terminator + 1..]).expect("Entry");
    assert_eq!(entry.name, "fetch_vcdist.py");
    assert_eq!(entry.mode, "100644");
    assert_eq!(entry.hash, "45115f4b2a86b84dc323cbba9e53017f57dc8dc1");
    assert_eq!(entry.size, 43);
}

#[test]
fn decode_tree_multiple_entries() {
    let body = eleven_entries();
    let buffer = object("tree", &body);
    assert!(buffer.starts_with(b"tree "));
    let size_terminator = buffer.iter().position(|b| *b == 0).expect("Found terminator");
    let entry = read_tree_entry(&buffer[size_terminator + 1..]).expect("Entry");
    assert_eq!(entry.name, "404.html");
    assert_eq!(entry.mode, "100644");
    assert_eq!(entry.hash, "c472b4ea0a781061dab1f394627222735d4215bd");
    // The next entry starts where this one ends.
    let second_entry = read_tree_entry(&buffer[size_terminator + 1 + entry.size..]).expect("Entry");
    assert_eq!(second_entry.name, "_config.yml");
    assert_eq!(second_entry.mode, "100644");
    assert_eq!(second_entry.hash, "12f97a480985b12fa2c6654d601ce260ce63b38a");
}

#[test]
fn decode_tree_from_path() {
    let body = entry("100644", "fetch_vcdist.py", "45115f4b2a86b84dc323cbba9e53017f57dc8dc1");
    let compressed = compress(&object("tree", &body));
    let object = read_loose_object(&compressed).expect("Test data should be readable.");
    assert!(matches!(object, ObjectType::Tree { entries: _ }));
    let references = collect_references(&object).unwrap();
    assert_eq!(references, vec!["45115f4b2a86b84dc323cbba9e53017f57dc8dc1".to_string()]);
}

#[test]
fn decode_tree_multiple_entries_from_path() {
    let compressed = compress(&object("tree", &eleven_entries()));
    let object = read_loose_object(&compressed).expect("Test data should be readable.");
    assert!(matches!(object, ObjectType::Tree { entries: _ }));
    let expected: Vec<String> = ELEVEN.iter().map(|e| e.2.to_string()).collect();
    let references = collect_references(&object).unwrap();
    assert_eq!(references.len(), expected.len());
    assert_eq!(references, expected);
}

#[test]
fn tree_entries_keep_modes_and_names_in_order() {
    let entries = read_tree(&eleven_entries()).unwrap();
    assert_eq!(entries.len(), 11);
    for (got, want) in entries.iter().zip(ELEVEN.iter()) {
        assert_eq!(got.mode, want.0);
        assert_eq!(got.name, want.1);
        assert_eq!(got.hash, want.2);
    }
}

#[test]
fn tree_entry_with_raw_bytes_that_are_not_utf8() {
    // The hash bytes are not text, and must not be read as such.
    let body = entry("100644", "a b", "ff00fefd80818283848586878889909192939495");
    let entries = read_tree(&body).unwrap();
    assert_eq!(entries.len(), 1);
    assert_eq!(entries[0].name, "a b");
    assert_eq!(entries[0].hash, "ff00fefd80818283848586878889909192939495");
}

#[test]
fn empty_tree_has_no_entries() {
    let header = read_object_header(b"tree 0\0").unwrap();
    match header.object_type {
        ObjectType::Tree { entries } => assert!(entries.is_empty()),
        _ => panic!("expected a tree"),
    }
}

#[test]
fn commit_with_many_parents_keeps_their_order() {
    let body = b"tree aaaa\nparent p1\nparent p2\nparent p3\nauthor x\nparent p4\n";
    match read_commit(body).unwrap() {
        ObjectType::Commit { tree, parents } => {
            assert_eq!(tree, Some("aaaa".to_string()));
            assert_eq!(parents, vec!["p1".to_string(), "p2".to_string(), "p3".to_string()]);
        }
        _ => panic!("expected a commit"),
    }
}

#[test]
fn commit_without_parents() {
    let body = b"tree 0123\nauthor x\n\nfirst\n";
    match read_commit(body).unwrap() {
        ObjectType::Commit { tree, parents } => {
            assert_eq!(tree, Some("0123".to_string()));
            assert!(parents.is_empty());
        }
        _ => panic!("expected a commit"),
    }
}

#[test]
fn commit_lines_ending_in_crlf() {
    let body = b"tree abcd\r\nparent ef01\r\n";
    match read_commit(body).unwrap() {
        ObjectType::Commit { tree, parents } => {
            assert_eq!(tree, Some("abcd".to_string()));
            assert_eq!(parents, vec!["ef01".to_string()]);
        }
        _ => panic!("expected a commit"),
    }
}

#[test]
fn commit_without_tree_line() {
    let body = b"author x\nparent p1\n";
    match read_commit(body).unwrap() {
        ObjectType::Commit { tree, parents } => {
            assert_eq!(tree, None);
            assert_eq!(parents, vec!["p1".to_string()]);
        }
        _ => panic!("expected a commit"),
    }
    match read_commit(b"").unwrap() {
        ObjectType::Commit { tree, parents } => {
            assert_eq!(tree, None);
            assert!(parents.is_empty());
        }
        _ => panic!("expected a commit"),
    }
}

#[test]
fn commit_body_is_only_what_the_size_says() {
    let mut data = object("commit", b"tree abcd\n");
    data.extend_from_slice(b"parent beyond\n");
    match read_object_header(&data).unwrap().object_type {
        ObjectType::Commit { tree, parents } => {
            assert_eq!(tree, Some("abcd".to_string()));
            assert!(parents.is_empty());
        }
        _ => panic!("expected a commit"),
    }
}

#[test]
fn blob_is_a_leaf() {
    let header = read_object_header(b"blob 3\0abc").unwrap();
    assert!(matches!(header.object_type, ObjectType::Blob));
    assert_eq!(header.size, 3);
    assert!(collect_references(&header.object_type).unwrap().is_empty());
}

#[test]
fn commit_references_are_tree_then_parents() {
    let compressed = compress(&object("commit", b"tree t1\nparent p1\nparent p2\n"));
    let references = collect_references_from_loose_object(&compressed).unwrap();
    assert_eq!(references, vec!["t1".to_string(), "p1".to_string(), "p2".to_string()]);
}

#[test]
fn unknown_type_is_an_error() {
    let header = read_object_header(b"tag 3\0abc").unwrap();
    assert!(matches!(header.object_type, ObjectType::Unknown));
    assert_eq!(header.size, 0);
    let header = read_object_header(b"nospace").unwrap();
    assert!(matches!(header.object_type, ObjectType::Unknown));
    let compressed = compress(b"tag 3\0abc");
    assert_eq!(collect_references_from_loose_object(&compressed).err(), Some(DecodeError::UnknownType));
}

#[test]
fn stream_that_does_not_inflate() {
    assert_eq!(read_loose_object(b"not a zlib stream").err(), Some(DecodeError::Inflate));
    assert_eq!(
        collect_references_from_loose_object(b"not a zlib stream").err(),
        Some(DecodeError::Inflate)
    );
}

#[test]
fn header_errors() {
    assert_eq!(read_object_header(b"tree 5").err(), Some(DecodeError::MissingHeaderTerminator));
    assert_eq!(read_object_header(b"commit 50\0abc").err(), Some(DecodeError::BodyTruncated));
}

#[test]
fn tree_entry_errors() {
    assert_eq!(read_tree_entry(b"100644").err(), Some(DecodeError::EntryMissingSpace));
    assert_eq!(read_tree_entry(b"100644 name").err(), Some(DecodeError::EntryMissingNul));
    assert_eq!(read_tree_entry(b"100644 name\0short").err(), Some(DecodeError::EntryTruncated));
    let mut bad = b"100644 \xff\0".to_vec();
    bad.extend_from_slice(&[0u8; 20]);
    assert_eq!(read_tree_entry(&bad).err(), Some(DecodeError::NotUtf8));
    assert_eq!(read_object_header(&object("tree", b"100644")).err(), Some(DecodeError::EntryMissingSpace));
}

#[test]
fn commit_hash_that_is_not_utf8() {
    assert_eq!(read_commit(b"tree \xff\xfe\n").err(), Some(DecodeError::NotUtf8));
    assert_eq!(read_commit(b"tree ab\nparent \xc3\n").err(), Some(DecodeError::NotUtf8));
}

#[test]
fn size_field_is_read_leniently() {
    let field = b"x336+12abc18446744073709551616";
    assert_eq!(parse_size(field, 1, 4), 336);
    assert_eq!(parse_size(field, 4, 7), 12);
    assert_eq!(parse_size(field, 7, 10), 0);
    assert_eq!(parse_size(field, 10, field.len()), 0);
    assert_eq!(parse_size(field, 4, 5), 0);
    assert_eq!(parse_size(field, 0, 0), 0);
    assert_eq!(parse_size(b"18446744073709551615", 0, 20), usize::MAX);
}
