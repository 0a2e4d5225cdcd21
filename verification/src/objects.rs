//! The content-addressable object codec: the three object kinds, the
//! canonical `"<kind> <size>\0<content>"` encoding, the SHA-1 object id,
//! the storage path derived from it, and the parse of a decompressed
//! object back into kind and content.

use crate::bytes::{
    dec_digits, dec_val, find_byte, find_byte_from, is_dec_digits, lemma_dec_digits_are_digits,
    lemma_dec_digits_len, lemma_dec_digits_val, lemma_find_byte_none, lemma_find_byte_props,
    lemma_find_byte_some, parse_dec, pow10, push_dec, subvec, bytes_eq,
};
use crate::compress::{zlib_compress, zlib_decompress, zlib_inflate};
use crate::hashing::{hex_bytes, hex_encode, lemma_hex_bytes_len, sha1_digest, sha1_of};
use vstd::prelude::*;

verus! {

/// The tag of an object: the unit of storage is a blob, a tree or a commit.
#[derive(Clone, Copy, PartialEq, Eq, Structural, Debug)]
pub enum ObjectKind {
    Blob,
    Tree,
    Commit,
}

/// How a parse of stored object bytes can fail.
#[derive(Clone, Copy, PartialEq, Eq, Structural, Debug)]
pub enum ObjectError {
    /// No terminator within the bounded header prefix, or no kind/size split.
    CorruptHeader,
    /// The kind token is not one of the three known kinds.
    UnknownKind,
    /// The size token is not a decimal number that fits in 64 bits.
    InvalidSize,
    /// The declared size disagrees with the bytes actually present.
    SizeMismatch,
}

/// The lowercase ASCII spelling of a kind, as written in object headers.
pub open spec fn kind_bytes(k: ObjectKind) -> Seq<u8> {
    match k {
        ObjectKind::Blob => seq![98u8, 108u8, 111u8, 98u8],
        ObjectKind::Tree => seq![116u8, 114u8, 101u8, 101u8],
        ObjectKind::Commit => seq![99u8, 111u8, 109u8, 109u8, 105u8, 116u8],
    }
}

/// The kind whose spelling is `s`, if any.
pub open spec fn kind_of_bytes(s: Seq<u8>) -> Option<ObjectKind> {
    if s == kind_bytes(ObjectKind::Blob) {
        Some(ObjectKind::Blob)
    } else if s == kind_bytes(ObjectKind::Tree) {
        Some(ObjectKind::Tree)
    } else if s == kind_bytes(ObjectKind::Commit) {
        Some(ObjectKind::Commit)
    } else {
        None
    }
}

/// The spelling of a kind, as an owned byte vector.
pub fn kind_label(k: ObjectKind) -> (r: Vec<u8>)
    ensures
        r@ == kind_bytes(k),
{
    let mut r: Vec<u8> = Vec::new();
    match k {
        ObjectKind::Blob => {
            r.push(98u8);
            r.push(108u8);
            r.push(111u8);
            r.push(98u8);
        },
        ObjectKind::Tree => {
            r.push(116u8);
            r.push(114u8);
            r.push(101u8);
            r.push(101u8);
        },
        ObjectKind::Commit => {
            r.push(99u8);
            r.push(111u8);
            r.push(109u8);
            r.push(109u8);
            r.push(105u8);
            r.push(116u8);
        },
    }
    proof {
        assert(r@ =~= kind_bytes(k));
    }
    r
}

/// A 20-byte SHA-1 digest: the name of an object and its storage path key.
#[derive(Debug)]
pub struct ObjectId {
    pub bytes: Vec<u8>,
}

impl View for ObjectId {
    type V = Seq<u8>;

    open spec fn view(&self) -> Seq<u8> {
        self.bytes@
    }
}

impl ObjectId {
    /// An object id is exactly 20 bytes.
    pub open spec fn wf(&self) -> bool {
        self@.len() == 20
    }
}

/// The unit of storage: a kind and the raw content bytes. The size written
/// in the header is always the exact content length.
#[derive(Debug)]
pub struct Object {
    pub kind: ObjectKind,
    pub content: Vec<u8>,
}

/// The canonical header: `"<kind> <size>\0"`.
pub open spec fn object_header(kind: ObjectKind, size: nat) -> Seq<u8> {
    kind_bytes(kind) + seq![32u8] + dec_digits(size) + seq![0u8]
}

/// The canonical uncompressed encoding of an object: header then content.
pub open spec fn object_encoding(kind: ObjectKind, content: Seq<u8>) -> Seq<u8> {
    object_header(kind, content.len()) + content
}

/// The object id: the SHA-1 digest of the canonical encoding.
pub open spec fn object_id_of(kind: ObjectKind, content: Seq<u8>) -> Seq<u8> {
    sha1_of(object_encoding(kind, content))
}

/// A header must terminate within this many bytes of the decompressed
/// stream; the longest well-formed header (`"commit"`, a space, twenty
/// digits, NUL) is 28 bytes.
pub const HEADER_SCAN_LIMIT: usize = 32;

/// What parsing a decompressed object stream yields: the kind and exactly
/// `size` content bytes, or the first applicable failure.
pub open spec fn parse_object_spec(d: Seq<u8>) -> Result<(ObjectKind, Seq<u8>), ObjectError> {
    match find_byte_from(d, 0, 0) {
        None => Err(ObjectError::CorruptHeader),
        Some(h) => {
            if h >= HEADER_SCAN_LIMIT {
                Err(ObjectError::CorruptHeader)
            } else {
                let header = d.subrange(0, h);
                match find_byte_from(header, 32u8, 0) {
                    None => Err(ObjectError::CorruptHeader),
                    Some(sp) => {
                        let kind_b = header.subrange(0, sp);
                        let size_b = header.subrange(sp + 1, h);
                        match kind_of_bytes(kind_b) {
                            None => Err(ObjectError::UnknownKind),
                            Some(kind) => {
                                if size_b.len() == 0 || !is_dec_digits(size_b) || dec_val(size_b)
                                    > u64::MAX {
                                    Err(ObjectError::InvalidSize)
                                } else if d.len() - h - 1 < dec_val(size_b) {
                                    Err(ObjectError::SizeMismatch)
                                } else {
                                    Ok((kind, d.subrange(h + 1, h + 1 + dec_val(size_b))))
                                }
                            },
                        }
                    },
                }
            }
        },
    }
}

/// Parses a decompressed object stream: the leading header up to the first
/// NUL, then exactly the declared number of content bytes, trailing bytes
/// ignored.
pub fn parse_object(d: &Vec<u8>) -> (r: Result<Object, ObjectError>)
    ensures
        match r {
            Ok(o) => parse_object_spec(d@) == Ok::<(ObjectKind, Seq<u8>), ObjectError>(
                (o.kind, o.content@),
            ),
            Err(e) => parse_object_spec(d@) == Err::<(ObjectKind, Seq<u8>), ObjectError>(e),
        },
{
    let h = match find_byte(d, 0, 0) {
        None => {
            return Err(ObjectError::CorruptHeader);
        },
        Some(h) => h,
    };
    proof {
        lemma_find_byte_props(d@, 0, 0);
    }
    if h >= HEADER_SCAN_LIMIT {
        return Err(ObjectError::CorruptHeader);
    }
    let ghost header = d@.subrange(0, h as int);
    // The first space before the NUL splits kind from size.
    let sp = match find_byte(d, 32u8, 0) {
        None => {
            proof {
                lemma_find_byte_props(d@, 32u8, 0);
                lemma_find_byte_none(header, 32u8, 0);
            }
            return Err(ObjectError::CorruptHeader);
        },
        Some(sp) => sp,
    };
    proof {
        lemma_find_byte_props(d@, 32u8, 0);
    }
    if sp >= h {
        proof {
            assert(forall|j: int| 0 <= j < header.len() ==> header[j] == d@[j]);
            lemma_find_byte_none(header, 32u8, 0);
        }
        return Err(ObjectError::CorruptHeader);
    }
    proof {
        assert(forall|j: int| 0 <= j < header.len() ==> header[j] == d@[j]);
        lemma_find_byte_some(header, 32u8, 0, sp as int);
    }
    let kind_b = subvec(d, 0, sp);
    proof {
        assert(kind_b@ =~= header.subrange(0, sp as int));
    }
    let blob_l = kind_label(ObjectKind::Blob);
    let tree_l = kind_label(ObjectKind::Tree);
    let commit_l = kind_label(ObjectKind::Commit);
    let kind = if bytes_eq(&kind_b, &blob_l) {
        ObjectKind::Blob
    } else if bytes_eq(&kind_b, &tree_l) {
        ObjectKind::Tree
    } else if bytes_eq(&kind_b, &commit_l) {
        ObjectKind::Commit
    } else {
        return Err(ObjectError::UnknownKind);
    };
    let size = match parse_dec(d, sp + 1, h) {
        None => {
            proof {
                assert(d@.subrange(sp + 1, h as int) =~= header.subrange(sp + 1, h as int));
            }
            return Err(ObjectError::InvalidSize);
        },
        Some(v) => v,
    };
    proof {
        assert(d@.subrange(sp + 1, h as int) =~= header.subrange(sp + 1, h as int));
    }
    let avail = d.len() - h - 1;
    if (avail as u64) < size {
        return Err(ObjectError::SizeMismatch);
    }
    let content = subvec(d, h + 1, h + 1 + (size as usize));
    Ok(Object { kind, content })
}

/// The canonical encoding of kind and content: `"<kind> <size>\0"` then the
/// content bytes.
pub fn encode_object(kind: ObjectKind, content: &Vec<u8>) -> (r: Vec<u8>)
    ensures
        r@ == object_encoding(kind, content@),
{
    let mut buf = kind_label(kind);
    buf.push(32u8);
    push_dec(&mut buf, content.len() as u64);
    buf.push(0);
    buf.extend_from_slice(content.as_slice());
    proof {
        assert(buf@ =~= object_encoding(kind, content@));
    }
    buf
}

/// The id under which an object with this kind and content is stored.
pub fn object_id(kind: ObjectKind, content: &Vec<u8>) -> (r: ObjectId)
    ensures
        r.wf(),
        r@ == object_id_of(kind, content@),
{
    let enc = encode_object(kind, content);
    ObjectId { bytes: sha1_digest(&enc) }
}

/// `"objects/"`, the directory all objects live under.
pub open spec fn objects_dir_prefix() -> Seq<u8> {
    seq![111u8, 98u8, 106u8, 101u8, 99u8, 116u8, 115u8, 47u8]
}

/// The storage directory of an id: `objects/` plus the first two hex digits.
pub open spec fn object_rel_dir_spec(id: Seq<u8>) -> Seq<u8>
    recommends
        id.len() == 20,
{
    objects_dir_prefix() + hex_bytes(id).subrange(0, 2)
}

/// The storage path of an id: the directory, a slash, the remaining
/// thirty-eight hex digits.
pub open spec fn object_rel_path_spec(id: Seq<u8>) -> Seq<u8>
    recommends
        id.len() == 20,
{
    object_rel_dir_spec(id) + seq![47u8] + hex_bytes(id).subrange(2, 40)
}

/// The subdirectory an object is stored in, relative to the repository
/// metadata root.
pub fn object_rel_dir(id: &ObjectId) -> (r: Vec<u8>)
    requires
        id.wf(),
    ensures
        r@ == object_rel_dir_spec(id@),
{
    let hx = hex_encode(&id.bytes);
    proof {
        lemma_hex_bytes_len(id@);
    }
    let mut r: Vec<u8> = Vec::new();
    r.push(111u8);
    r.push(98u8);
    r.push(106u8);
    r.push(101u8);
    r.push(99u8);
    r.push(116u8);
    r.push(115u8);
    r.push(47u8);
    r.push(hx[0]);
    r.push(hx[1]);
    proof {
        assert(r@ =~= object_rel_dir_spec(id@));
    }
    r
}

/// The file path an object is stored at, relative to the repository
/// metadata root.
pub fn object_rel_path(id: &ObjectId) -> (r: Vec<u8>)
    requires
        id.wf(),
    ensures
        r@ == object_rel_path_spec(id@),
{
    let hx = hex_encode(&id.bytes);
    proof {
        lemma_hex_bytes_len(id@);
    }
    let mut r = object_rel_dir(id);
    r.push(47u8);
    let rest = vstd::slice::slice_subrange(hx.as_slice(), 2, 40);
    r.extend_from_slice(rest);
    proof {
        assert(r@ =~= object_rel_path_spec(id@));
    }
    r
}

/// Everything a caller needs to persist one object: its id, the compressed
/// bytes to write, and where they go.
#[derive(Debug)]
pub struct StoredObject {
    pub id: ObjectId,
    pub compressed: Vec<u8>,
    pub rel_dir: Vec<u8>,
    pub rel_path: Vec<u8>,
}

/// Prepares an object for storage: the id is the digest of the canonical
/// encoding, and the compressed bytes decompress back to exactly that
/// encoding. The caller persists `compressed` at `rel_path` (under
/// `rel_dir`) via a temporary file, a durable flush, and an atomic rename.
pub fn write_object(obj: &Object) -> (r: StoredObject)
    ensures
        r.id.wf(),
        r.id@ == object_id_of(obj.kind, obj.content@),
        zlib_inflate(r.compressed@) == Some(object_encoding(obj.kind, obj.content@)),
        r.rel_dir@ == object_rel_dir_spec(r.id@),
        r.rel_path@ == object_rel_path_spec(r.id@),
{
    let enc = encode_object(obj.kind, &obj.content);
    let id = ObjectId { bytes: sha1_digest(&enc) };
    let compressed = zlib_compress(&enc);
    let rel_dir = object_rel_dir(&id);
    let rel_path = object_rel_path(&id);
    StoredObject { id, compressed, rel_dir, rel_path }
}

/// Decompresses stored object bytes and parses them. A stream that does not
/// decompress has no readable header.
pub fn read_object(compressed: &Vec<u8>) -> (r: Result<Object, ObjectError>)
    ensures
        match zlib_inflate(compressed@) {
            None => r == Err::<Object, ObjectError>(ObjectError::CorruptHeader),
            Some(d) => match r {
                Ok(o) => parse_object_spec(d) == Ok::<(ObjectKind, Seq<u8>), ObjectError>(
                    (o.kind, o.content@),
                ),
                Err(e) => parse_object_spec(d) == Err::<(ObjectKind, Seq<u8>), ObjectError>(e),
            },
        },
{
    match zlib_decompress(compressed) {
        None => Err(ObjectError::CorruptHeader),
        Some(d) => parse_object(&d),
    }
}

/// Builds a blob object from bytes read elsewhere, checking that the byte
/// count seen at open time matches what was actually read; a disagreement
/// means the source changed underneath the read.
pub fn blob_from_bytes(expected_size: u64, content: Vec<u8>) -> (r: Result<Object, ObjectError>)
    ensures
        content@.len() == expected_size ==> (r matches Ok(o) && o.kind == ObjectKind::Blob
            && o.content@ == content@),
        content@.len() != expected_size ==> r == Err::<Object, ObjectError>(
            ObjectError::SizeMismatch,
        ),
{
    if content.len() as u64 == expected_size {
        Ok(Object { kind: ObjectKind::Blob, content })
    } else {
        Err(ObjectError::SizeMismatch)
    }
}

/// Round-trip law: parsing the canonical encoding of any kind and content
/// yields exactly that kind and content.
pub proof fn lemma_object_round_trip(kind: ObjectKind, content: Seq<u8>)
    requires
        content.len() <= u64::MAX,
    ensures
        parse_object_spec(object_encoding(kind, content)) == Ok::<
            (ObjectKind, Seq<u8>),
            ObjectError,
        >((kind, content)),
{
    let size = content.len();
    let kb = kind_bytes(kind);
    let dd = dec_digits(size);
    let d = object_encoding(kind, content);
    let h: int = kb.len() + 1 + dd.len() as int;
    lemma_dec_digits_are_digits(size);
    assert(u64::MAX < pow10(20)) by {
        reveal_with_fuel(pow10, 21);
    }
    lemma_dec_digits_len(size, 20);
    // The first NUL of the stream is the header terminator.
    assert(d[h] == 0);
    assert forall|j: int| 0 <= j < h implies d[j] != 0 by {
        if j < kb.len() {
            assert(d[j] == kb[j]);
        } else if j == kb.len() {
            assert(d[j] == 32u8);
        } else {
            assert(d[j] == dd[j - kb.len() - 1]);
        }
    }
    lemma_find_byte_some(d, 0, 0, h);
    assert(h < HEADER_SCAN_LIMIT);
    let header = d.subrange(0, h);
    assert(header =~= kb + seq![32u8] + dd);
    // The first space of the header separates kind from size.
    assert(header[kb.len() as int] == 32u8);
    assert forall|j: int| 0 <= j < kb.len() implies header[j] != 32u8 by {
        assert(header[j] == kb[j]);
    }
    lemma_find_byte_some(header, 32u8, 0, kb.len() as int);
    assert(header.subrange(0, kb.len() as int) =~= kb);
    assert(kind_of_bytes(kb) == Some(kind)) by {
        assert(kind_bytes(ObjectKind::Blob)[0] == 98u8);
        assert(kind_bytes(ObjectKind::Tree)[0] == 116u8);
        assert(kind_bytes(ObjectKind::Commit)[0] == 99u8);
        assert(kind_bytes(ObjectKind::Commit).len() == 6);
    }
    assert(header.subrange(kb.len() + 1 as int, h as int) =~= dd);
    lemma_dec_digits_val(size);
    assert(d.len() - h - 1 == size);
    assert(d.subrange(h + 1, h + 1 + size as int) =~= content);
}

/// Content-addressing law: the id and the storage path are functions of
/// kind and content alone, so two writes of the same pair name the same id
/// and target the same path.
pub proof fn lemma_content_addressing(kind: ObjectKind, c1: Seq<u8>, c2: Seq<u8>)
    requires
        c1 == c2,
    ensures
        object_id_of(kind, c1) == object_id_of(kind, c2),
        object_rel_path_spec(object_id_of(kind, c1)) == object_rel_path_spec(
            object_id_of(kind, c2),
        ),
{
}

} // verus!
