//! The staging-index codec: the binary layout of the index file (magic,
//! version, big-endian entry records with padding, trailing whole-file
//! SHA-1), its parse and serialization, sorted insertion of a staged
//! entry, and the fail-fast lock decision of the atomic rewrite.

use crate::bytes::{
    be16_bytes, be16_val, be32_bytes, be32_val, bytes_eq, find_byte, find_byte_from, lex_cmp,
    lemma_be16_round_trip, lemma_be32_round_trip, lex_lt, lemma_find_byte_props,
    lemma_find_byte_some, lemma_lex_lt_trichotomy, push_be16, push_be32, push_zeros, read_be16, read_be32,
    subvec, zeros, Rel,
};
use crate::hashing::{sha1_digest, sha1_of};
use crate::objects::ObjectId;
use vstd::prelude::*;

verus! {

/// How an index read or rewrite can fail.
#[derive(Clone, Copy, PartialEq, Eq, Structural, Debug)]
pub enum IndexError {
    /// The four-byte header literal is not the expected magic.
    BadMagic,
    /// The version field holds anything but the one supported version.
    UnsupportedVersion,
    /// A read ran past the end of the buffer.
    TruncatedIndex,
    /// A lock file already exists: another writer holds the index.
    IndexLocked,
}

/// The one supported index format version.
pub const INDEX_VERSION: u32 = 2;

/// One staged file: ten 32-bit stat fields (truncated from the operating
/// system's 64-bit values), the blob id, the conflict stage and the path.
#[derive(Debug)]
pub struct IndexEntry {
    pub ctime_sec: u32,
    pub ctime_nsec: u32,
    pub mtime_sec: u32,
    pub mtime_nsec: u32,
    pub dev: u32,
    pub ino: u32,
    pub mode: u32,
    pub uid: u32,
    pub gid: u32,
    pub file_size: u32,
    pub sha1: ObjectId,
    pub stage: u16,
    pub path: Vec<u8>,
}

/// The mathematical value of one entry.
pub ghost struct IndexEntryModel {
    pub ctime_sec: u32,
    pub ctime_nsec: u32,
    pub mtime_sec: u32,
    pub mtime_nsec: u32,
    pub dev: u32,
    pub ino: u32,
    pub mode: u32,
    pub uid: u32,
    pub gid: u32,
    pub file_size: u32,
    pub sha1: Seq<u8>,
    pub stage: u16,
    pub path: Seq<u8>,
}

impl View for IndexEntry {
    type V = IndexEntryModel;

    open spec fn view(&self) -> IndexEntryModel {
        IndexEntryModel {
            ctime_sec: self.ctime_sec,
            ctime_nsec: self.ctime_nsec,
            mtime_sec: self.mtime_sec,
            mtime_nsec: self.mtime_nsec,
            dev: self.dev,
            ino: self.ino,
            mode: self.mode,
            uid: self.uid,
            gid: self.gid,
            file_size: self.file_size,
            sha1: self.sha1@,
            stage: self.stage,
            path: self.path@,
        }
    }
}

impl IndexEntryModel {
    /// A real digest, a two-bit stage, and a nonempty path free of NUL.
    pub open spec fn wf(&self) -> bool {
        &&& self.sha1.len() == 20
        &&& self.stage < 4
        &&& self.path.len() > 0
        &&& forall|i: int| 0 <= i < self.path.len() ==> #[trigger] self.path[i] != 0
    }
}

/// The whole staging file in memory: a version and the entries, kept in
/// ascending raw path-byte order.
#[derive(Debug)]
pub struct IndexFile {
    pub version: u32,
    pub entries: Vec<IndexEntry>,
}

/// The mathematical value of the staging file.
pub ghost struct IndexFileModel {
    pub version: u32,
    pub entries: Seq<IndexEntryModel>,
}

/// The models of a run of entries.
pub open spec fn entry_models(s: Seq<IndexEntry>) -> Seq<IndexEntryModel> {
    s.map_values(|e: IndexEntry| e@)
}

impl View for IndexFile {
    type V = IndexFileModel;

    open spec fn view(&self) -> IndexFileModel {
        IndexFileModel { version: self.version, entries: entry_models(self.entries@) }
    }
}

/// Strictly ascending raw path-byte order throughout: each path earlier
/// in the file precedes every later one.
pub open spec fn paths_ascending(s: Seq<IndexEntryModel>) -> bool {
    forall|i: int, j: int|
        0 <= i < j < s.len() ==> lex_lt((#[trigger] s[i]).path, (#[trigger] s[j]).path)
}

impl IndexFileModel {
    /// The supported version, well-formed entries, strictly ascending
    /// paths, and a count that fits its 32-bit field.
    pub open spec fn wf(&self) -> bool {
        &&& self.version == INDEX_VERSION
        &&& self.entries.len() <= u32::MAX
        &&& forall|i: int| 0 <= i < self.entries.len() ==> (#[trigger] self.entries[i]).wf()
        &&& paths_ascending(self.entries)
    }
}

/// `"DIRC"`, the four-byte magic that opens every index file.
pub open spec fn index_magic() -> Seq<u8> {
    seq![68u8, 73u8, 82u8, 67u8]
}

/// The low twelve flag bits: the path length, saturated at `0xFFF`, after
/// the length has been truncated to the field's sixteen bits.
pub open spec fn path_hint(len: nat) -> u16 {
    if len % 0x10000 < 0xFFF {
        (len % 0x10000) as u16
    } else {
        0xFFF
    }
}

/// The two-byte flags field: the stage in bits 12 and 13, the path-length
/// hint below.
pub open spec fn flags_of(e: IndexEntryModel) -> u16 {
    ((e.stage % 4) * 4096 + path_hint(e.path.len())) as u16
}

/// How many zero bytes follow the path's NUL so that the whole entry,
/// measured from the start of its metadata block, is a multiple of eight
/// bytes long.
pub open spec fn entry_padding(path_len: nat) -> nat {
    ((8 - ((62 + path_len + 1) % 8)) % 8) as nat
}

/// The on-disk bytes of one entry: the fixed 62-byte metadata block, the
/// NUL-terminated path, the padding.
#[verifier::opaque]
pub open spec fn entry_bytes(e: IndexEntryModel) -> Seq<u8> {
    stat_bytes(e) + e.sha1 + be16_bytes(flags_of(e)) + e.path + seq![0u8] + zeros(
        entry_padding(e.path.len()),
    )
}

/// The ten big-endian stat fields: 40 bytes.
pub open spec fn stat_bytes(e: IndexEntryModel) -> Seq<u8> {
    be32_bytes(e.ctime_sec) + be32_bytes(e.ctime_nsec) + be32_bytes(e.mtime_sec) + be32_bytes(
        e.mtime_nsec,
    ) + be32_bytes(e.dev) + be32_bytes(e.ino) + be32_bytes(e.mode) + be32_bytes(e.uid)
        + be32_bytes(e.gid) + be32_bytes(e.file_size)
}

/// The concatenated entry records, in order.
pub open spec fn entries_bytes(s: Seq<IndexEntryModel>) -> Seq<u8>
    decreases s.len(),
{
    if s.len() == 0 {
        Seq::empty()
    } else {
        entry_bytes(s[0]) + entries_bytes(s.drop_first())
    }
}

/// Everything before the trailing checksum: magic, version, entry count,
/// entry records.
pub open spec fn index_body_bytes(f: IndexFileModel) -> Seq<u8> {
    index_magic() + be32_bytes(f.version) + be32_bytes(f.entries.len() as u32) + entries_bytes(
        f.entries,
    )
}

/// The complete serialized index: the body, then the SHA-1 of the body.
pub open spec fn index_bytes(f: IndexFileModel) -> Seq<u8> {
    index_body_bytes(f) + sha1_of(index_body_bytes(f))
}

/// A buffer whose last twenty bytes are the SHA-1 of everything before
/// them.
pub open spec fn checksum_valid(b: Seq<u8>) -> bool {
    b.len() >= 20 && b.subrange(b.len() - 20, b.len() as int) == sha1_of(b.take(b.len() - 20))
}

/// An entry record is always a multiple of eight bytes long.
#[verifier::rlimit(50)]
pub proof fn lemma_entry_bytes_aligned(e: IndexEntryModel)
    requires
        e.sha1.len() == 20,
    ensures
        entry_bytes(e).len() == 62 + e.path.len() + 1 + entry_padding(e.path.len()),
        entry_bytes(e).len() % 8 == 0,
{
    reveal(entry_bytes);
    let t = (62 + e.path.len() + 1) as int;
    let pad = entry_padding(e.path.len()) as int;
    assert(entry_bytes(e).len() == t + pad);
    vstd::arithmetic::div_mod::lemma_fundamental_div_mod(t, 8);
    assert(t % 8 < 8) by {
        vstd::arithmetic::div_mod::lemma_mod_bound(t, 8);
    }
    if t % 8 == 0 {
        assert(pad == 0);
        assert((t + pad) % 8 == 0) by {
            vstd::arithmetic::div_mod::lemma_mod_multiples_basic(t / 8, 8);
        }
    } else {
        assert(pad == 8 - t % 8);
        assert(t + pad == 8 * (t / 8) + 8);
        assert((t + pad) % 8 == 0) by {
            vstd::arithmetic::div_mod::lemma_mod_multiples_basic(t / 8 + 1, 8);
        }
    }
}

/// The flags field of one entry: the stage in bits 12 and 13 (two bits
/// kept, the rest dropped), the path-length hint in the low twelve bits.
pub fn build_flag(stage: u16, path_length: usize) -> (r: u16)
    ensures
        r == (stage % 4) * 4096 + path_hint(path_length as nat),
{
    let stage_bits = stage & 0b11;
    let truncated = (path_length % 0x10000) as u16;
    let hint = if truncated < 0x0FFF {
        truncated
    } else {
        0x0FFF
    };
    proof {
        assert(stage & 0b11 == stage % 4) by (bit_vector);
        assert(hint <= 0xFFF);
        assert((stage_bits << 12u16) | hint == stage_bits * 4096 + hint) by (bit_vector)
            requires
                stage_bits == stage & 0b11,
                hint <= 0xFFF,
        ;
        assert(hint == path_hint(path_length as nat));
    }
    (stage_bits << 12u16) | hint
}

/// Appends the fixed 40-byte stat block of one entry.
#[verifier::rlimit(50)]
fn push_stat_bytes(buf: &mut Vec<u8>, e: &IndexEntry)
    ensures
        final(buf)@ == old(buf)@ + stat_bytes(e@),
{
    push_be32(buf, e.ctime_sec);
    push_be32(buf, e.ctime_nsec);
    push_be32(buf, e.mtime_sec);
    push_be32(buf, e.mtime_nsec);
    push_be32(buf, e.dev);
    push_be32(buf, e.ino);
    push_be32(buf, e.mode);
    push_be32(buf, e.uid);
    push_be32(buf, e.gid);
    push_be32(buf, e.file_size);
    proof {
        assert(buf@ =~= old(buf)@ + stat_bytes(e@));
    }
}

/// Appends the record of one entry.
#[verifier::rlimit(100)]
fn push_entry_bytes(buf: &mut Vec<u8>, e: &IndexEntry)
    ensures
        final(buf)@ == old(buf)@ + entry_bytes(e@),
{
    push_stat_bytes(buf, e);
    let ghost b1 = old(buf)@ + stat_bytes(e@);
    buf.extend_from_slice(e.sha1.bytes.as_slice());
    let flags = build_flag(e.stage, e.path.len());
    push_be16(buf, flags);
    proof {
        assert(flags == flags_of(e@));
        assert(buf@ == b1 + e@.sha1 + be16_bytes(flags_of(e@)));
    }
    let ghost b2 = b1 + e@.sha1 + be16_bytes(flags_of(e@));
    buf.extend_from_slice(e.path.as_slice());
    buf.push(0u8);
    let rem = (62 + 1 + (e.path.len() % 8)) % 8;
    let pad = (8 - rem) % 8;
    proof {
        let plen = e.path@.len() as int;
        vstd::arithmetic::div_mod::lemma_add_mod_noop(63, plen, 8);
        vstd::arithmetic::div_mod::lemma_mod_bound(plen, 8);
        vstd::arithmetic::div_mod::lemma_small_mod((plen % 8) as nat, 8);
        assert((63 + plen % 8) % 8 == (63 + plen) % 8);
        assert(pad == entry_padding(e.path@.len()));
    }
    push_zeros(buf, pad);
    proof {
        reveal(entry_bytes);
        assert(buf@ == b2 + e@.path + seq![0u8] + zeros(entry_padding(e@.path.len())));
        assert(buf@ =~= old(buf)@ + entry_bytes(e@));
    }
}

/// One record appended on the right extends the concatenation on the
/// right.
#[verifier::rlimit(50)]
pub proof fn lemma_entries_bytes_push(s: Seq<IndexEntryModel>, e: IndexEntryModel)
    ensures
        entries_bytes(s.push(e)) == entries_bytes(s) + entry_bytes(e),
    decreases s.len(),
{
    if s.len() == 0 {
        assert(s.push(e)[0] == e);
        assert(s.push(e).drop_first() =~= Seq::<IndexEntryModel>::empty());
        assert(entries_bytes(Seq::<IndexEntryModel>::empty()) == Seq::<u8>::empty());
        assert(entries_bytes(s.push(e)) =~= entries_bytes(s) + entry_bytes(e));
    } else {
        assert(s.push(e)[0] == s[0]);
        assert(s.push(e).drop_first() =~= s.drop_first().push(e));
        lemma_entries_bytes_push(s.drop_first(), e);
        assert(entries_bytes(s.push(e)) =~= entries_bytes(s) + entry_bytes(e));
    }
}

/// Serializes the whole staging file, trailing checksum included. Entries
/// must already stand in ascending path order; `index_insert` keeps them
/// so.
pub fn serialize_index(f: &IndexFile) -> (r: Vec<u8>)
    requires
        f@.wf(),
    ensures
        r@ == index_bytes(f@),
        checksum_valid(r@),
{
    let mut buf: Vec<u8> = Vec::new();
    buf.push(68u8);
    buf.push(73u8);
    buf.push(82u8);
    buf.push(67u8);
    push_be32(&mut buf, f.version);
    push_be32(&mut buf, f.entries.len() as u32);
    let ghost head = index_magic() + be32_bytes(f@.version) + be32_bytes(
        f@.entries.len() as u32,
    );
    proof {
        assert(buf@ =~= head + entries_bytes(f@.entries.take(0)));
    }
    let mut i: usize = 0;
    while i < f.entries.len()
        invariant
            0 <= i <= f@.entries.len(),
            f@.entries.len() == f.entries@.len(),
            buf@ == head + entries_bytes(f@.entries.take(i as int)),
            head == index_magic() + be32_bytes(f@.version) + be32_bytes(f@.entries.len() as u32),
        decreases f.entries@.len() - i,
    {
        push_entry_bytes(&mut buf, &f.entries[i]);
        proof {
            assert(f@.entries[i as int] == f.entries@[i as int]@);
            assert(f@.entries.take(i + 1) =~= f@.entries.take(i as int).push(
                f@.entries[i as int],
            ));
            lemma_entries_bytes_push(f@.entries.take(i as int), f@.entries[i as int]);
            assert(buf@ =~= head + entries_bytes(f@.entries.take(i + 1)));
        }
        i = i + 1;
    }
    proof {
        assert(f@.entries.take(i as int) =~= f@.entries);
        assert(buf@ =~= index_body_bytes(f@));
    }
    let digest = sha1_digest(&buf);
    let ghost body = buf@;
    buf.extend_from_slice(digest.as_slice());
    proof {
        assert(buf@ =~= index_bytes(f@));
        assert(buf@.take(buf@.len() - 20) =~= body);
        assert(buf@.subrange(buf@.len() - 20, buf@.len() as int) =~= sha1_of(body));
    }
    buf
}

/// Whether the last twenty bytes of a serialized index are the SHA-1 of
/// everything before them: the whole-file integrity check.
pub fn index_checksum_ok(b: &Vec<u8>) -> (r: bool)
    ensures
        r == checksum_valid(b@),
{
    if b.len() < 20 {
        return false;
    }
    let body = subvec(b, 0, b.len() - 20);
    let digest = sha1_digest(&body);
    let trailer = subvec(b, b.len() - 20, b.len());
    proof {
        assert(b@.take(b@.len() - 20) =~= b@.subrange(0, b@.len() - 20));
    }
    bytes_eq(&trailer, &digest)
}

/// The decision at the heart of the atomic rewrite: a second writer that
/// finds the lock file already present must fail fast with `IndexLocked`
/// and leave the real index untouched; only a writer that created the
/// lock may write and rename it over the index.
pub fn claim_index_lock(lock_exists: bool) -> (r: Result<(), IndexError>)
    ensures
        r == Ok::<(), IndexError>(()) <==> !lock_exists,
        lock_exists ==> r == Err::<(), IndexError>(IndexError::IndexLocked),
{
    if lock_exists {
        Err(IndexError::IndexLocked)
    } else {
        Ok(())
    }
}

/// Builds a stage-0 entry from the 64-bit stat fields the operating
/// system reports, keeping only the low 32 bits of each oversized field:
/// the documented, deliberately lossy truncation of the on-disk format.
pub fn entry_from_stats(
    ctime_sec: u64,
    ctime_nsec: u64,
    mtime_sec: u64,
    mtime_nsec: u64,
    dev: u64,
    ino: u64,
    mode: u32,
    uid: u32,
    gid: u32,
    file_size: u64,
    sha1: ObjectId,
    path: Vec<u8>,
) -> (e: IndexEntry)
    ensures
        e@.ctime_sec == ctime_sec % 0x100000000,
        e@.ctime_nsec == ctime_nsec % 0x100000000,
        e@.mtime_sec == mtime_sec % 0x100000000,
        e@.mtime_nsec == mtime_nsec % 0x100000000,
        e@.dev == dev % 0x100000000,
        e@.ino == ino % 0x100000000,
        e@.mode == mode,
        e@.uid == uid,
        e@.gid == gid,
        e@.file_size == file_size % 0x100000000,
        e@.sha1 == sha1@,
        e@.stage == 0,
        e@.path == path@,
{
    IndexEntry {
        ctime_sec: (ctime_sec % 0x100000000) as u32,
        ctime_nsec: (ctime_nsec % 0x100000000) as u32,
        mtime_sec: (mtime_sec % 0x100000000) as u32,
        mtime_nsec: (mtime_nsec % 0x100000000) as u32,
        dev: (dev % 0x100000000) as u32,
        ino: (ino % 0x100000000) as u32,
        mode,
        uid,
        gid,
        file_size: (file_size % 0x100000000) as u32,
        sha1,
        stage: 0,
        path,
    }
}

/// `e` placed into the path-sorted entry run: after every entry whose
/// path precedes `e`'s, replacing the entry with the same path if one is
/// there.
pub open spec fn insert_entry_spec(s: Seq<IndexEntryModel>, e: IndexEntryModel) -> Seq<
    IndexEntryModel,
>
    decreases s.len(),
{
    if s.len() == 0 {
        seq![e]
    } else if lex_lt(s[0].path, e.path) {
        seq![s[0]] + insert_entry_spec(s.drop_first(), e)
    } else if s[0].path == e.path {
        seq![e] + s.drop_first()
    } else {
        seq![e] + s
    }
}

/// Stages one entry: finds its sorted position, replaces an existing
/// entry with the same path, inserts otherwise. The version is untouched.
pub fn index_insert(f: &mut IndexFile, e: IndexEntry)
    ensures
        final(f)@.entries == insert_entry_spec(old(f)@.entries, e@),
        final(f).version == old(f).version,
{
    let ghost m = f@.entries;
    let ghost em = e@;
    let mut i: usize = 0;
    proof {
        assert(m.take(0) =~= Seq::<IndexEntryModel>::empty());
        assert(m.skip(0) =~= m);
    }
    while i < f.entries.len()
        invariant
            0 <= i <= m.len(),
            m == old(f)@.entries,
            f@.entries == m,
            f.version == old(f).version,
            f.entries@.len() == m.len(),
            em == e@,
            e@.path == e.path@,
            insert_entry_spec(m, e@) == m.take(i as int) + insert_entry_spec(
                m.skip(i as int),
                e@,
            ),
            forall|j: int| 0 <= j < i ==> lex_lt((#[trigger] m[j]).path, e@.path),
        ensures
            0 <= i <= m.len(),
            f@.entries == m,
            f.version == old(f).version,
            f.entries@.len() == m.len(),
            insert_entry_spec(m, e@) == m.take(i as int) + insert_entry_spec(
                m.skip(i as int),
                e@,
            ),
            i < m.len() ==> !lex_lt(m[i as int].path, e@.path) && m[i as int].path != e@.path,
        decreases m.len() - i,
    {
        proof {
            assert(m[i as int] == f.entries@[i as int]@);
            assert(m.skip(i as int)[0] == m[i as int]);
        }
        let cmp = lex_cmp(&f.entries[i].path, &e.path);
        proof {
            lemma_lex_lt_trichotomy(f.entries@[i as int].path@, e.path@);
        }
        match cmp {
            Rel::Lt => {
                proof {
                    assert(m.skip(i as int).drop_first() =~= m.skip(i + 1));
                    assert(m.take(i as int) + insert_entry_spec(m.skip(i as int), e@) =~= m.take(
                        i + 1,
                    ) + insert_entry_spec(m.skip(i + 1), e@));
                }
                i = i + 1;
            },
            Rel::Eq => {
                proof {
                    assert(m.skip(i as int)[0].path == em.path);
                    assert(m.skip(i as int).drop_first() =~= m.skip(i + 1));
                    assert(insert_entry_spec(m.skip(i as int), em) =~= seq![em] + m.skip(i + 1));
                }
                f.entries.set(i, e);
                proof {
                    assert(entry_models(f.entries@) =~= m.take(i as int) + (seq![em] + m.skip(
                        i + 1,
                    )));
                    assert(insert_entry_spec(m, em) == m.take(i as int) + (seq![em] + m.skip(
                        i + 1,
                    )));
                    assert(entry_models(f.entries@) == insert_entry_spec(m, em));
                }
                return ;
            },
            Rel::Gt => {
                proof {
                    assert(!lex_lt(m[i as int].path, e@.path));
                    assert(m[i as int].path != e@.path);
                }
                break ;
            },
        }
    }
    proof {
        if i < m.len() {
            assert(m.skip(i as int)[0] == m[i as int]);
            assert(insert_entry_spec(m.skip(i as int), e@) =~= seq![e@] + m.skip(i as int));
        } else {
            assert(m.skip(i as int).len() == 0);
        }
    }
    f.entries.insert(i, e);
    proof {
        assert(entry_models(f.entries@) =~= m.take(i as int) + (seq![e@] + m.skip(i as int)));
        assert(insert_entry_spec(m, e@) =~= m.take(i as int) + (seq![e@] + m.skip(i as int)));
    }
}


/// The entry whose record starts at `pos` with its path's NUL at `pe`.
pub open spec fn parsed_entry(b: Seq<u8>, pos: int, pe: int) -> IndexEntryModel {
    IndexEntryModel {
        ctime_sec: be32_val(b.subrange(pos, pos + 4)),
        ctime_nsec: be32_val(b.subrange(pos + 4, pos + 8)),
        mtime_sec: be32_val(b.subrange(pos + 8, pos + 12)),
        mtime_nsec: be32_val(b.subrange(pos + 12, pos + 16)),
        dev: be32_val(b.subrange(pos + 16, pos + 20)),
        ino: be32_val(b.subrange(pos + 20, pos + 24)),
        mode: be32_val(b.subrange(pos + 24, pos + 28)),
        uid: be32_val(b.subrange(pos + 28, pos + 32)),
        gid: be32_val(b.subrange(pos + 32, pos + 36)),
        file_size: be32_val(b.subrange(pos + 36, pos + 40)),
        sha1: b.subrange(pos + 40, pos + 60),
        stage: ((be16_val(b.subrange(pos + 60, pos + 62)) / 4096) % 4) as u16,
        path: b.subrange(pos + 62, pe),
    }
}

/// What reading `n` entry records from `pos` yields: each record is the
/// fixed metadata block, the path up to its NUL, and the padding; any
/// read past the end of the buffer fails.
pub open spec fn parse_entries_spec(b: Seq<u8>, pos: int, n: nat) -> Result<
    Seq<IndexEntryModel>,
    IndexError,
>
    decreases n,
{
    if n == 0 {
        Ok(Seq::empty())
    } else if pos < 0 || pos + 62 > b.len() {
        Err(IndexError::TruncatedIndex)
    } else {
        match find_byte_from(b, 0u8, pos + 62) {
            None => Err(IndexError::TruncatedIndex),
            Some(pe) => {
                let pad = entry_padding((pe - (pos + 62)) as nat);
                if pe + 1 + pad > b.len() {
                    Err(IndexError::TruncatedIndex)
                } else {
                    match parse_entries_spec(b, pe + 1 + pad, (n - 1) as nat) {
                        Ok(rest) => Ok(seq![parsed_entry(b, pos, pe)] + rest),
                        Err(x) => Err(x),
                    }
                }
            },
        }
    }
}

/// What parsing a whole index buffer yields: magic, version, count, then
/// the entries; trailing bytes (the checksum) are not read here.
pub open spec fn parse_index_spec(b: Seq<u8>) -> Result<IndexFileModel, IndexError> {
    if b.len() < 4 {
        Err(IndexError::TruncatedIndex)
    } else if b.subrange(0, 4) != index_magic() {
        Err(IndexError::BadMagic)
    } else if b.len() < 8 {
        Err(IndexError::TruncatedIndex)
    } else if be32_val(b.subrange(4, 8)) != INDEX_VERSION {
        Err(IndexError::UnsupportedVersion)
    } else if b.len() < 12 {
        Err(IndexError::TruncatedIndex)
    } else {
        match parse_entries_spec(b, 12, be32_val(b.subrange(8, 12)) as nat) {
            Ok(es) => Ok(IndexFileModel { version: INDEX_VERSION, entries: es }),
            Err(x) => Err(x),
        }
    }
}

/// An accumulator of already parsed entries prepended to the rest of a
/// parse.
pub open spec fn prepend_parsed(
    acc: Seq<IndexEntryModel>,
    r: Result<Seq<IndexEntryModel>, IndexError>,
) -> Result<Seq<IndexEntryModel>, IndexError> {
    match r {
        Ok(rest) => Ok(acc + rest),
        Err(x) => Err(x),
    }
}

/// Parses a serialized index: validates the magic and the version, then
/// reads exactly the declared number of entries. The trailing checksum is
/// checked separately by `index_checksum_ok`.
#[verifier::rlimit(100)]
pub fn parse_index(b: &Vec<u8>) -> (r: Result<IndexFile, IndexError>)
    ensures
        match r {
            Ok(f) => parse_index_spec(b@) == Ok::<IndexFileModel, IndexError>(f@),
            Err(e) => parse_index_spec(b@) == Err::<IndexFileModel, IndexError>(e),
        },
{
    if b.len() < 4 {
        return Err(IndexError::TruncatedIndex);
    }
    proof {
        let s = b@.subrange(0, 4);
        assert(s[0] == b@[0] && s[1] == b@[1] && s[2] == b@[2] && s[3] == b@[3]);
    }
    if !(b[0] == 68 && b[1] == 73 && b[2] == 82 && b[3] == 67) {
        return Err(IndexError::BadMagic);
    }
    proof {
        assert(b@.subrange(0, 4) =~= index_magic());
    }
    if b.len() < 8 {
        return Err(IndexError::TruncatedIndex);
    }
    let version = read_be32(b, 4);
    if version != INDEX_VERSION {
        return Err(IndexError::UnsupportedVersion);
    }
    if b.len() < 12 {
        return Err(IndexError::TruncatedIndex);
    }
    let count = read_be32(b, 8);
    let mut entries: Vec<IndexEntry> = Vec::new();
    let mut pos: usize = 12;
    let mut i: u32 = 0;
    proof {
        assert(entry_models(entries@) =~= Seq::<IndexEntryModel>::empty());
        assert(prepend_parsed(
            entry_models(entries@),
            parse_entries_spec(b@, 12, count as nat),
        ) == parse_entries_spec(b@, 12, count as nat));
    }
    while i < count
        invariant
            12 <= pos <= b@.len(),
            i <= count,
            b@.len() >= 12,
            b@.subrange(0, 4) == index_magic(),
            be32_val(b@.subrange(4, 8)) == INDEX_VERSION,
            version == INDEX_VERSION,
            count == be32_val(b@.subrange(8, 12)),
            entry_models(entries@).len() == i,
            parse_entries_spec(b@, 12, count as nat) == prepend_parsed(
                entry_models(entries@),
                parse_entries_spec(b@, pos as int, (count - i) as nat),
            ),
        decreases count - i,
    {
        let ghost n_left = (count - i) as nat;
        let ghost p0 = pos as int;
        let ghost acc0 = entry_models(entries@);
        if b.len() - pos < 62 {
            return Err(IndexError::TruncatedIndex);
        }
        let pe = match find_byte(b, 0u8, pos + 62) {
            None => {
                return Err(IndexError::TruncatedIndex);
            },
            Some(pe) => pe,
        };
        proof {
            lemma_find_byte_props(b@, 0u8, pos + 62);
        }
        let plen = pe - (pos + 62);
        let rem = (62 + 1 + (plen % 8)) % 8;
        let pad = (8 - rem) % 8;
        proof {
            vstd::arithmetic::div_mod::lemma_add_mod_noop(63, plen as int, 8);
            vstd::arithmetic::div_mod::lemma_mod_bound(plen as int, 8);
            vstd::arithmetic::div_mod::lemma_small_mod((plen as int % 8) as nat, 8);
            assert(pad == entry_padding(plen as nat));
        }
        if b.len() - (pe + 1) < pad {
            return Err(IndexError::TruncatedIndex);
        }
        let entry = IndexEntry {
            ctime_sec: read_be32(b, pos),
            ctime_nsec: read_be32(b, pos + 4),
            mtime_sec: read_be32(b, pos + 8),
            mtime_nsec: read_be32(b, pos + 12),
            dev: read_be32(b, pos + 16),
            ino: read_be32(b, pos + 20),
            mode: read_be32(b, pos + 24),
            uid: read_be32(b, pos + 28),
            gid: read_be32(b, pos + 32),
            file_size: read_be32(b, pos + 36),
            sha1: ObjectId { bytes: subvec(b, pos + 40, pos + 60) },
            stage: (read_be16(b, pos + 60) / 4096) % 4,
            path: subvec(b, pos + 62, pe),
        };
        proof {
            assert(entry@ == parsed_entry(b@, p0, pe as int));
        }
        entries.push(entry);
        pos = pe + 1 + pad;
        i = i + 1;
        proof {
            assert(parse_entries_spec(b@, p0, n_left) == (match parse_entries_spec(
                b@,
                pos as int,
                (n_left - 1) as nat,
            ) {
                Ok(rest) => Ok::<Seq<IndexEntryModel>, IndexError>(
                    seq![parsed_entry(b@, p0, pe as int)] + rest,
                ),
                Err(x) => Err(x),
            }));
            assert(entry_models(entries@) =~= acc0.push(entry@));
            let tail = parse_entries_spec(b@, pos as int, (n_left - 1) as nat);
            if tail is Ok {
                let rest = tail->Ok_0;
                assert(acc0 + (seq![entry@] + rest) =~= acc0.push(entry@) + rest);
            }
            assert(prepend_parsed(acc0, parse_entries_spec(b@, p0, n_left)) == prepend_parsed(
                entry_models(entries@),
                tail,
            ));
        }
    }
    proof {
        assert(parse_entries_spec(b@, pos as int, 0) == Ok::<Seq<IndexEntryModel>, IndexError>(
            Seq::empty(),
        ));
        assert(entry_models(entries@) + Seq::<IndexEntryModel>::empty() =~= entry_models(
            entries@,
        ));
    }
    Ok(IndexFile { version, entries })
}


/// Where each field lies inside one entry record.
#[verifier::rlimit(100)]
proof fn lemma_entry_bytes_fields(e: IndexEntryModel)
    requires
        e.sha1.len() == 20,
    ensures
        entry_bytes(e).len() == 63 + e.path.len() + entry_padding(e.path.len()),
        entry_bytes(e).subrange(0, 4) == be32_bytes(e.ctime_sec),
        entry_bytes(e).subrange(4, 8) == be32_bytes(e.ctime_nsec),
        entry_bytes(e).subrange(8, 12) == be32_bytes(e.mtime_sec),
        entry_bytes(e).subrange(12, 16) == be32_bytes(e.mtime_nsec),
        entry_bytes(e).subrange(16, 20) == be32_bytes(e.dev),
        entry_bytes(e).subrange(20, 24) == be32_bytes(e.ino),
        entry_bytes(e).subrange(24, 28) == be32_bytes(e.mode),
        entry_bytes(e).subrange(28, 32) == be32_bytes(e.uid),
        entry_bytes(e).subrange(32, 36) == be32_bytes(e.gid),
        entry_bytes(e).subrange(36, 40) == be32_bytes(e.file_size),
        entry_bytes(e).subrange(40, 60) == e.sha1,
        entry_bytes(e).subrange(60, 62) == be16_bytes(flags_of(e)),
        entry_bytes(e).subrange(62, 62 + e.path.len() as int) == e.path,
        entry_bytes(e)[62 + e.path.len() as int] == 0,
        forall|j: int| 0 <= j < e.path.len() ==> entry_bytes(e)[62 + j] == e.path[j],
{
    reveal(entry_bytes);
    let eb = entry_bytes(e);
    assert(stat_bytes(e).len() == 40);
    assert(eb.len() == 63 + e.path.len() + entry_padding(e.path.len()));
    assert(eb.subrange(0, 40) =~= stat_bytes(e));
    assert(eb.subrange(0, 4) =~= be32_bytes(e.ctime_sec));
    assert(eb.subrange(4, 8) =~= be32_bytes(e.ctime_nsec));
    assert(eb.subrange(8, 12) =~= be32_bytes(e.mtime_sec));
    assert(eb.subrange(12, 16) =~= be32_bytes(e.mtime_nsec));
    assert(eb.subrange(16, 20) =~= be32_bytes(e.dev));
    assert(eb.subrange(20, 24) =~= be32_bytes(e.ino));
    assert(eb.subrange(24, 28) =~= be32_bytes(e.mode));
    assert(eb.subrange(28, 32) =~= be32_bytes(e.uid));
    assert(eb.subrange(32, 36) =~= be32_bytes(e.gid));
    assert(eb.subrange(36, 40) =~= be32_bytes(e.file_size));
    assert(eb.subrange(40, 60) =~= e.sha1);
    assert(eb.subrange(60, 62) =~= be16_bytes(flags_of(e)));
    assert(eb.subrange(62, 62 + e.path.len() as int) =~= e.path);
}

/// Parsing one serialized record at its position yields exactly the
/// entry and hands the position after its padding to the rest.
#[verifier::rlimit(100)]
proof fn lemma_parse_one_entry(b: Seq<u8>, pos: int, e: IndexEntryModel, n: nat)
    requires
        e.wf(),
        n >= 1,
        0 <= pos,
        pos + entry_bytes(e).len() <= b.len(),
        b.subrange(pos, pos + entry_bytes(e).len() as int) == entry_bytes(e),
    ensures
        parse_entries_spec(b, pos, n) == (match parse_entries_spec(
            b,
            pos + entry_bytes(e).len() as int,
            (n - 1) as nat,
        ) {
            Ok(rest) => Ok::<Seq<IndexEntryModel>, IndexError>(seq![e] + rest),
            Err(x) => Err::<Seq<IndexEntryModel>, IndexError>(x),
        }),
{
    lemma_entry_bytes_fields(e);
    let eb = entry_bytes(e);
    let plen = e.path.len() as int;
    let pad = entry_padding(e.path.len()) as int;
    assert forall|k: int| 0 <= k < eb.len() implies b[pos + k] == eb[k] by {
        assert(b.subrange(pos, pos + eb.len() as int)[k] == b[pos + k]);
    }
    // The first NUL at or after the metadata block ends the path.
    let pe = pos + 62 + plen;
    assert(b[pe] == 0);
    assert forall|j: int| pos + 62 <= j < pe implies b[j] != 0 by {
        assert(eb[62 + (j - pos - 62)] == e.path[j - pos - 62]);
    }
    lemma_find_byte_some(b, 0u8, pos + 62, pe);
    assert(entry_padding((pe - (pos + 62)) as nat) == pad);
    assert(pe + 1 + pad == pos + eb.len());
    // Each field reads back what was written.
    let q = parsed_entry(b, pos, pe);
    assert(b.subrange(pos, pos + 4) =~= eb.subrange(0, 4));
    assert(b.subrange(pos + 4, pos + 8) =~= eb.subrange(4, 8));
    assert(b.subrange(pos + 8, pos + 12) =~= eb.subrange(8, 12));
    assert(b.subrange(pos + 12, pos + 16) =~= eb.subrange(12, 16));
    assert(b.subrange(pos + 16, pos + 20) =~= eb.subrange(16, 20));
    assert(b.subrange(pos + 20, pos + 24) =~= eb.subrange(20, 24));
    assert(b.subrange(pos + 24, pos + 28) =~= eb.subrange(24, 28));
    assert(b.subrange(pos + 28, pos + 32) =~= eb.subrange(28, 32));
    assert(b.subrange(pos + 32, pos + 36) =~= eb.subrange(32, 36));
    assert(b.subrange(pos + 36, pos + 40) =~= eb.subrange(36, 40));
    assert(b.subrange(pos + 40, pos + 60) =~= eb.subrange(40, 60));
    assert(b.subrange(pos + 60, pos + 62) =~= eb.subrange(60, 62));
    assert(b.subrange(pos + 62, pe) =~= eb.subrange(62, 62 + plen));
    lemma_be32_round_trip(e.ctime_sec);
    lemma_be32_round_trip(e.ctime_nsec);
    lemma_be32_round_trip(e.mtime_sec);
    lemma_be32_round_trip(e.mtime_nsec);
    lemma_be32_round_trip(e.dev);
    lemma_be32_round_trip(e.ino);
    lemma_be32_round_trip(e.mode);
    lemma_be32_round_trip(e.uid);
    lemma_be32_round_trip(e.gid);
    lemma_be32_round_trip(e.file_size);
    lemma_be16_round_trip(flags_of(e));
    // The stage comes back out of the flags field.
    let hint = path_hint(e.path.len());
    assert(hint < 4096);
    assert(flags_of(e) == e.stage * 4096 + hint);
    assert((e.stage * 4096 + hint) / 4096 == e.stage) by (nonlinear_arith)
        requires
            0 <= e.stage,
            0 <= hint < 4096,
    ;
    assert(q.stage == e.stage);
    assert(q == e);
}

/// A serialized run of well-formed entries parses back to exactly those
/// entries, whatever bytes follow it.
proof fn lemma_parse_entries_round_trip(entries: Seq<IndexEntryModel>, b: Seq<u8>, pos: int)
    requires
        forall|i: int| 0 <= i < entries.len() ==> (#[trigger] entries[i]).wf(),
        0 <= pos,
        pos + entries_bytes(entries).len() <= b.len(),
        b.subrange(pos, pos + entries_bytes(entries).len() as int) == entries_bytes(entries),
    ensures
        parse_entries_spec(b, pos, entries.len()) == Ok::<Seq<IndexEntryModel>, IndexError>(
            entries,
        ),
    decreases entries.len(),
{
    if entries.len() == 0 {
        assert(parse_entries_spec(b, pos, 0) == Ok::<Seq<IndexEntryModel>, IndexError>(
            Seq::empty(),
        ));
        assert(entries =~= Seq::<IndexEntryModel>::empty());
    } else {
        let e = entries[0];
        let rest = entries.drop_first();
        let eb = entry_bytes(e);
        let total = entries_bytes(entries).len() as int;
        assert(entries_bytes(entries) == eb + entries_bytes(rest));
        assert forall|k: int| 0 <= k < total implies b[pos + k] == entries_bytes(entries)[k] by {
            assert(b.subrange(pos, pos + total)[k] == b[pos + k]);
        }
        assert(b.subrange(pos, pos + eb.len() as int) =~= eb);
        lemma_parse_one_entry(b, pos, e, entries.len());
        let rb = entries_bytes(rest);
        assert forall|k: int|
            0 <= k < rb.len() implies b.subrange(
            pos + eb.len() as int,
            pos + eb.len() as int + rb.len() as int,
        )[k] == rb[k] by {
            assert(b[pos + eb.len() as int + k] == entries_bytes(entries)[eb.len() as int + k]);
            assert((eb + rb)[eb.len() as int + k] == rb[k]);
        }
        assert(b.subrange(pos + eb.len() as int, pos + eb.len() as int + rb.len() as int)
            =~= rb);
        lemma_parse_entries_round_trip(rest, b, pos + eb.len() as int);
        assert(seq![e] + rest =~= entries);
    }
}

/// Round-trip law: a well-formed staging file serialized and parsed back
/// is itself, entry for entry and byte field for byte field.
#[verifier::rlimit(100)]
pub proof fn lemma_index_round_trip(f: IndexFileModel)
    requires
        f.wf(),
    ensures
        parse_index_spec(index_bytes(f)) == Ok::<IndexFileModel, IndexError>(f),
{
    let body = index_body_bytes(f);
    let b = index_bytes(f);
    let count = f.entries.len() as u32;
    assert(body.len() >= 12);
    assert(b.len() >= 12);
    assert forall|k: int| 0 <= k < body.len() implies b[k] == body[k] by {}
    assert(b.subrange(0, 4) =~= index_magic());
    assert(b.subrange(4, 8) =~= be32_bytes(f.version));
    assert(b.subrange(8, 12) =~= be32_bytes(count));
    lemma_be32_round_trip(f.version);
    lemma_be32_round_trip(count);
    assert(count as nat == f.entries.len());
    assert(b.subrange(12, 12 + entries_bytes(f.entries).len() as int) =~= entries_bytes(
        f.entries,
    ));
    lemma_parse_entries_round_trip(f.entries, b, 12);
    assert(parse_index_spec(b) == Ok::<IndexFileModel, IndexError>(
        IndexFileModel { version: INDEX_VERSION, entries: f.entries },
    ));
    assert(IndexFileModel { version: INDEX_VERSION, entries: f.entries } == f);
}


/// Sorted insertion keeps the paths strictly ascending, adds nothing but
/// the new entry, and grows the run by at most one.
proof fn lemma_insert_entry_sorted(s: Seq<IndexEntryModel>, e: IndexEntryModel)
    requires
        paths_ascending(s),
    ensures
        paths_ascending(insert_entry_spec(s, e)),
        forall|i: int|
            0 <= i < insert_entry_spec(s, e).len() ==> (#[trigger] insert_entry_spec(s, e)[i]
                == e || s.contains(insert_entry_spec(s, e)[i])),
        insert_entry_spec(s, e).len() <= s.len() + 1,
    decreases s.len(),
{
    let r = insert_entry_spec(s, e);
    if s.len() == 0 {
    } else if lex_lt(s[0].path, e.path) {
        let rest = s.drop_first();
        assert(paths_ascending(rest)) by {
            assert forall|i: int, j: int| 0 <= i < j < rest.len() implies lex_lt(
                (#[trigger] rest[i]).path,
                (#[trigger] rest[j]).path,
            ) by {
                assert(rest[i] == s[i + 1] && rest[j] == s[j + 1]);
            }
        }
        lemma_insert_entry_sorted(rest, e);
        let rr = insert_entry_spec(rest, e);
        assert forall|i: int, j: int| 0 <= i < j < r.len() implies lex_lt(
            (#[trigger] r[i]).path,
            (#[trigger] r[j]).path,
        ) by {
            if i == 0 {
                assert(r[0] == s[0]);
                assert(r[j] == rr[j - 1]);
                if rr[j - 1] == e {
                } else {
                    let rv = rr[j - 1];
                    assert(rest.contains(rv));
                    let k = choose|k: int| 0 <= k < rest.len() && rest[k] == rv;
                    assert(s[k + 1] == rv);
                    assert(lex_lt(s[0].path, s[k + 1].path));
                }
            } else {
                assert(r[i] == rr[i - 1] && r[j] == rr[j - 1]);
            }
        }
        assert forall|i: int| 0 <= i < r.len() implies (#[trigger] r[i] == e || s.contains(
            r[i],
        )) by {
            if i == 0 {
                assert(s[0] == r[0]);
                assert(s.contains(s[0]));
            } else {
                assert(r[i] == rr[i - 1]);
                if rr[i - 1] != e {
                    let rv = rr[i - 1];
                    let k = choose|k: int| 0 <= k < rest.len() && rest[k] == rv;
                    assert(s[k + 1] == rv);
                }
            }
        }
    } else if s[0].path == e.path {
        let rest = s.drop_first();
        assert forall|i: int, j: int| 0 <= i < j < r.len() implies lex_lt(
            (#[trigger] r[i]).path,
            (#[trigger] r[j]).path,
        ) by {
            if i == 0 {
                assert(r[j] == s[j]);
                assert(lex_lt(s[0].path, s[j].path));
            } else {
                assert(r[i] == s[i] && r[j] == s[j]);
            }
        }
        assert forall|i: int| 0 <= i < r.len() implies (#[trigger] r[i] == e || s.contains(
            r[i],
        )) by {
            if i > 0 {
                assert(r[i] == s[i]);
            }
        }
    } else {
        lemma_lex_lt_trichotomy(s[0].path, e.path);
        assert(lex_lt(e.path, s[0].path));
        assert forall|i: int, j: int| 0 <= i < j < r.len() implies lex_lt(
            (#[trigger] r[i]).path,
            (#[trigger] r[j]).path,
        ) by {
            if i == 0 {
                assert(r[j] == s[j - 1]);
                if j - 1 > 0 {
                    assert(lex_lt(s[0].path, s[j - 1].path));
                    crate::bytes::lemma_lex_lt_transitive(e.path, s[0].path, s[j - 1].path);
                }
            } else {
                assert(r[i] == s[i - 1] && r[j] == s[j - 1]);
            }
        }
        assert forall|i: int| 0 <= i < r.len() implies (#[trigger] r[i] == e || s.contains(
            r[i],
        )) by {
            if i > 0 {
                assert(r[i] == s[i - 1]);
            }
        }
    }
}

/// Staging law: inserting a well-formed entry into a well-formed file
/// keeps the file well formed — the paths stay strictly ascending and an
/// entry with the inserted path appears only once.
pub proof fn lemma_insert_preserves_wf(f: IndexFileModel, e: IndexEntryModel)
    requires
        f.wf(),
        e.wf(),
        f.entries.len() < u32::MAX,
    ensures
        (IndexFileModel { version: f.version, entries: insert_entry_spec(f.entries, e) }).wf(),
{
    lemma_insert_entry_sorted(f.entries, e);
    let r = insert_entry_spec(f.entries, e);
    assert forall|i: int| 0 <= i < r.len() implies (#[trigger] r[i]).wf() by {
        if r[i] != e {
            assert(f.entries.contains(r[i]));
            let k = choose|k: int| 0 <= k < f.entries.len() && f.entries[k] == r[i];
            assert(f.entries[k].wf());
        }
    }
}

} // verus!
