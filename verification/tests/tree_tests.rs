use gitstore::objects::{read_object, ObjectId, ObjectKind};
use gitstore::tree::{
    build_tree, build_tree_content, file_child, parse_tree_entries, TreeChild,
};

fn id(byte: u8) -> ObjectId {
    ObjectId { bytes: vec![byte; 20] }
}

#[test]
fn file_before_directory_sharing_its_prefix() {
    // "foo.txt" must come before the directory "foo": the directory
    // compares as "foo/", and '.' (0x2E) sorts below '/' (0x2F).
    let children = vec![
        TreeChild::Dir { name: b"foo".to_vec(), subtree: Some(id(2)) },
        TreeChild::File { name: b"foo.txt".to_vec(), executable: false, id: id(1) },
    ];
    let content = build_tree_content(children).expect("two surviving children");
    let mut expected = Vec::new();
    expected.extend_from_slice(b"100644 foo.txt\x00");
    expected.extend_from_slice(&[1u8; 20]);
    expected.extend_from_slice(b"40000 foo\x00");
    expected.extend_from_slice(&[2u8; 20]);
    assert_eq!(content, expected);
}

#[test]
fn directory_before_longer_name_with_big_byte() {
    // The directory "foo" ("foo/") sorts before the file "foobar",
    // because '/' (0x2F) sorts below 'b' (0x62).
    let children = vec![
        TreeChild::File { name: b"foobar".to_vec(), executable: false, id: id(1) },
        TreeChild::Dir { name: b"foo".to_vec(), subtree: Some(id(2)) },
    ];
    let content = build_tree_content(children).expect("two surviving children");
    let mut expected = Vec::new();
    expected.extend_from_slice(b"40000 foo\x00");
    expected.extend_from_slice(&[2u8; 20]);
    expected.extend_from_slice(b"100644 foobar\x00");
    expected.extend_from_slice(&[1u8; 20]);
    assert_eq!(content, expected);
}

#[test]
fn empty_subtrees_are_elided() {
    let children = vec![
        TreeChild::Dir { name: b"a".to_vec(), subtree: None },
        TreeChild::Dir { name: b"b".to_vec(), subtree: None },
    ];
    assert!(build_tree_content(children).is_none());
    assert!(build_tree(vec![
        TreeChild::Dir { name: b"only".to_vec(), subtree: None },
    ])
    .is_none());
    assert!(build_tree_content(Vec::new()).is_none());
}

#[test]
fn elided_subtree_leaves_siblings() {
    let children = vec![
        TreeChild::Dir { name: b"empty".to_vec(), subtree: None },
        TreeChild::File { name: b"kept".to_vec(), executable: false, id: id(7) },
    ];
    let content = build_tree_content(children).expect("one child survives");
    let mut expected = Vec::new();
    expected.extend_from_slice(b"100644 kept\x00");
    expected.extend_from_slice(&[7u8; 20]);
    assert_eq!(content, expected);
}

#[test]
fn mode_tags_follow_kind_and_permissions() {
    let children = vec![
        TreeChild::Symlink { name: b"link".to_vec(), id: id(3) },
        file_child(b"run".to_vec(), 0o100755, id(1)),
        file_child(b"data".to_vec(), 0o100644, id(2)),
    ];
    let content = build_tree_content(children).expect("three survivors");
    let mut expected = Vec::new();
    expected.extend_from_slice(b"100644 data\x00");
    expected.extend_from_slice(&[2u8; 20]);
    expected.extend_from_slice(b"120000 link\x00");
    expected.extend_from_slice(&[3u8; 20]);
    expected.extend_from_slice(b"100755 run\x00");
    expected.extend_from_slice(&[1u8; 20]);
    assert_eq!(content, expected);
}

#[test]
fn any_execute_bit_makes_the_entry_executable() {
    let c = file_child(b"x".to_vec(), 0o100700, id(1));
    assert!(matches!(c, TreeChild::File { executable: true, .. }));
    let c = file_child(b"x".to_vec(), 0o100600, id(1));
    assert!(matches!(c, TreeChild::File { executable: false, .. }));
}

#[test]
fn built_tree_object_reads_back() {
    let children = vec![
        TreeChild::File { name: b"a".to_vec(), executable: false, id: id(1) },
        TreeChild::Dir { name: b"sub".to_vec(), subtree: Some(id(2)) },
    ];
    let expected_content = build_tree_content(vec![
        TreeChild::File { name: b"a".to_vec(), executable: false, id: id(1) },
        TreeChild::Dir { name: b"sub".to_vec(), subtree: Some(id(2)) },
    ])
    .expect("content");
    let stored = build_tree(children).expect("a tree object");
    assert_eq!(stored.id.bytes.len(), 20);
    assert_eq!(&stored.rel_path[..8], b"objects/");
    let back = read_object(&stored.compressed).expect("tree object reads back");
    assert!(matches!(back.kind, ObjectKind::Tree));
    assert_eq!(back.content, expected_content);
}

#[test]
fn decode_tree_entries_round_trip() {
    let children = vec![
        TreeChild::File { name: b"beta".to_vec(), executable: true, id: id(9) },
        TreeChild::Dir { name: b"alpha".to_vec(), subtree: Some(id(8)) },
    ];
    let content = build_tree_content(children).expect("content");
    let entries = parse_tree_entries(&content).expect("well-formed tree content");
    assert_eq!(entries.len(), 2);
    assert_eq!(entries[0].mode, b"40000".to_vec());
    assert_eq!(entries[0].name, b"alpha".to_vec());
    assert_eq!(entries[0].id.bytes, vec![8u8; 20]);
    assert_eq!(entries[1].mode, b"100755".to_vec());
    assert_eq!(entries[1].name, b"beta".to_vec());
    assert_eq!(entries[1].id.bytes, vec![9u8; 20]);
}

#[test]
fn decode_rejects_truncated_tree_content() {
    let mut content = Vec::new();
    content.extend_from_slice(b"100644 short\x00");
    content.extend_from_slice(&[5u8; 10]);
    assert!(parse_tree_entries(&content).is_none());
    assert!(parse_tree_entries(&b"100644 noterminator".to_vec()).is_none());
}

#[test]
fn decode_empty_tree_content() {
    let entries = parse_tree_entries(&Vec::new()).expect("empty content decodes");
    assert_eq!(entries.len(), 0);
}
