//! The commit object's line-oriented text content. Identity and timestamp
//! strings come from the caller; this module only lays the lines out.

use vstd::prelude::*;

verus! {

/// `"tree "`.
pub open spec fn tree_line_prefix() -> Seq<u8> {
    seq![116u8, 114u8, 101u8, 101u8, 32u8]
}

/// `"parent "`.
pub open spec fn parent_line_prefix() -> Seq<u8> {
    seq![112u8, 97u8, 114u8, 101u8, 110u8, 116u8, 32u8]
}

/// `"author "`.
pub open spec fn author_line_prefix() -> Seq<u8> {
    seq![97u8, 117u8, 116u8, 104u8, 111u8, 114u8, 32u8]
}

/// `"committer "`.
pub open spec fn committer_line_prefix() -> Seq<u8> {
    seq![99u8, 111u8, 109u8, 109u8, 105u8, 116u8, 116u8, 101u8, 114u8, 32u8]
}

/// The text of a commit object: a `tree` line, a `parent` line only when
/// there is a parent, `author` and `committer` lines, a blank line, then
/// the message with a final newline.
pub open spec fn commit_content_spec(
    tree_hex: Seq<u8>,
    parent_hex: Option<Seq<u8>>,
    author: Seq<u8>,
    committer: Seq<u8>,
    message: Seq<u8>,
) -> Seq<u8> {
    tree_line_prefix() + tree_hex + seq![10u8] + (match parent_hex {
        Some(p) => parent_line_prefix() + p + seq![10u8],
        None => Seq::empty(),
    }) + author_line_prefix() + author + seq![10u8] + committer_line_prefix() + committer + seq![
        10u8,
    ] + seq![10u8] + message + seq![10u8]
}

/// Composes the content bytes of a commit object. `tree_hex` and
/// `parent_hex` are 40-digit hex object names; `author` and `committer`
/// are complete `<name> <email> <seconds> <zone>` strings from the
/// caller's identity and clock provider.
pub fn commit_content(
    tree_hex: &Vec<u8>,
    parent_hex: &Option<Vec<u8>>,
    author: &Vec<u8>,
    committer: &Vec<u8>,
    message: &Vec<u8>,
) -> (r: Vec<u8>)
    ensures
        r@ == commit_content_spec(
            tree_hex@,
            match parent_hex {
                Some(p) => Some(p@),
                None => None,
            },
            author@,
            committer@,
            message@,
        ),
{
    let mut buf: Vec<u8> = Vec::new();
    buf.push(116u8);
    buf.push(114u8);
    buf.push(101u8);
    buf.push(101u8);
    buf.push(32u8);
    buf.extend_from_slice(tree_hex.as_slice());
    buf.push(10u8);
    match parent_hex {
        Some(p) => {
            buf.push(112u8);
            buf.push(97u8);
            buf.push(114u8);
            buf.push(101u8);
            buf.push(110u8);
            buf.push(116u8);
            buf.push(32u8);
            buf.extend_from_slice(p.as_slice());
            buf.push(10u8);
        },
        None => {},
    }
    buf.push(97u8);
    buf.push(117u8);
    buf.push(116u8);
    buf.push(104u8);
    buf.push(111u8);
    buf.push(114u8);
    buf.push(32u8);
    buf.extend_from_slice(author.as_slice());
    buf.push(10u8);
    buf.push(99u8);
    buf.push(111u8);
    buf.push(109u8);
    buf.push(109u8);
    buf.push(105u8);
    buf.push(116u8);
    buf.push(116u8);
    buf.push(101u8);
    buf.push(114u8);
    buf.push(32u8);
    buf.extend_from_slice(committer.as_slice());
    buf.push(10u8);
    buf.push(10u8);
    buf.extend_from_slice(message.as_slice());
    buf.push(10u8);
    proof {
        assert(buf@ =~= commit_content_spec(
            tree_hex@,
            match parent_hex {
                Some(p) => Some(p@),
                None => None,
            },
            author@,
            committer@,
            message@,
        ));
    }
    buf
}

} // verus!
