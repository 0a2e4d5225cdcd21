use gitstore::commit::commit_content;
use gitstore::objects::{read_object, write_object, Object, ObjectKind};

#[test]
fn commit_text_with_parent() {
    let content = commit_content(
        &b"3b18e512dba79e4c8300dd08aeb37f8e728b8dad".to_vec(),
        &Some(b"e69de29bb2d1d6434b8b29ae775ad8c2e48c5391".to_vec()),
        &b"A U Thor <thor@example.com> 1700000000 +0000".to_vec(),
        &b"A U Thor <thor@example.com> 1700000000 +0000".to_vec(),
        &b"first".to_vec(),
    );
    let expected = b"tree 3b18e512dba79e4c8300dd08aeb37f8e728b8dad\n\
parent e69de29bb2d1d6434b8b29ae775ad8c2e48c5391\n\
author A U Thor <thor@example.com> 1700000000 +0000\n\
committer A U Thor <thor@example.com> 1700000000 +0000\n\
\n\
first\n";
    assert_eq!(content, expected.to_vec());
}

#[test]
fn initial_commit_has_no_parent_line() {
    let content = commit_content(
        &b"3b18e512dba79e4c8300dd08aeb37f8e728b8dad".to_vec(),
        &None,
        &b"A <a@b> 1 +0000".to_vec(),
        &b"C <c@d> 2 +0100".to_vec(),
        &b"start".to_vec(),
    );
    let expected = b"tree 3b18e512dba79e4c8300dd08aeb37f8e728b8dad\n\
author A <a@b> 1 +0000\n\
committer C <c@d> 2 +0100\n\
\n\
start\n";
    assert_eq!(content, expected.to_vec());
}

#[test]
fn commit_object_round_trips() {
    let content = commit_content(
        &b"3b18e512dba79e4c8300dd08aeb37f8e728b8dad".to_vec(),
        &None,
        &b"A <a@b> 1 +0000".to_vec(),
        &b"A <a@b> 1 +0000".to_vec(),
        &b"msg".to_vec(),
    );
    let stored = write_object(&Object { kind: ObjectKind::Commit, content: content.clone() });
    let back = read_object(&stored.compressed).expect("commit reads back");
    assert!(matches!(back.kind, ObjectKind::Commit));
    assert_eq!(back.content, content);
}
