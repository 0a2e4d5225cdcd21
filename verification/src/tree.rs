//! The tree builder: turns one directory level of resolved children into
//! the canonical sorted tree encoding, eliding empty subtrees, and decodes
//! tree content back into entries. The caller walks the file system and
//! resolves each child (blobs persisted, subtrees built recursively)
//! before handing the level to `build_tree`.

use crate::bytes::{
    find_byte, find_byte_from, lemma_find_byte_props, lemma_find_byte_some,
    lemma_lex_lt_trichotomy, lex_cmp, lex_lt,
    subvec, Rel,
};
use crate::compress::zlib_inflate;
use crate::objects::{
    object_encoding, object_id_of, object_rel_dir_spec, object_rel_path_spec, write_object, Object,
    ObjectId, ObjectKind, StoredObject,
};
use vstd::prelude::*;

verus! {

/// One resolved child of the directory level being encoded: a regular
/// file or symlink whose blob already has an id, or a subdirectory whose
/// subtree has been built (`None` when the subtree came out empty).
#[derive(Debug)]
pub enum TreeChild {
    File { name: Vec<u8>, executable: bool, id: ObjectId },
    Symlink { name: Vec<u8>, id: ObjectId },
    Dir { name: Vec<u8>, subtree: Option<ObjectId> },
}

impl TreeChild {
    /// The child's file name, as raw bytes.
    pub open spec fn name_spec(&self) -> Seq<u8> {
        match self {
            TreeChild::File { name, .. } => name@,
            TreeChild::Symlink { name, .. } => name@,
            TreeChild::Dir { name, .. } => name@,
        }
    }

    /// A child earns a tree entry unless it is a directory whose subtree
    /// was empty: such a child is elided entirely.
    pub open spec fn survives(&self) -> bool {
        !(self matches TreeChild::Dir { subtree: None, .. })
    }

    /// The mode tag written before the name: `40000` directory, `100755`
    /// executable file, `100644` regular file, `120000` symlink.
    pub open spec fn mode_spec(&self) -> Seq<u8> {
        match self {
            TreeChild::Dir { .. } => seq![52u8, 48u8, 48u8, 48u8, 48u8],
            TreeChild::File { executable, .. } => if *executable {
                seq![49u8, 48u8, 48u8, 55u8, 53u8, 53u8]
            } else {
                seq![49u8, 48u8, 48u8, 54u8, 52u8, 52u8]
            },
            TreeChild::Symlink { .. } => seq![49u8, 50u8, 48u8, 48u8, 48u8, 48u8],
        }
    }

    /// The 20 raw id bytes written after the name.
    pub open spec fn id_spec(&self) -> Seq<u8>
        recommends
            self.survives(),
    {
        match self {
            TreeChild::File { id, .. } => id@,
            TreeChild::Symlink { id, .. } => id@,
            TreeChild::Dir { subtree, .. } => match subtree {
                Some(id) => id@,
                None => Seq::empty(),
            },
        }
    }

    /// The byte string the child sorts by: a directory compares as if its
    /// name ended in `/`, which places it after any file whose name is a
    /// strict prefix of the directory's name plus a byte below `/`.
    pub open spec fn sort_key(&self) -> Seq<u8> {
        match self {
            TreeChild::Dir { name, .. } => name@ + seq![47u8],
            TreeChild::File { name, .. } => name@,
            TreeChild::Symlink { name, .. } => name@,
        }
    }

    /// A surviving child is well formed when its id is a real digest and
    /// its name holds no NUL, the byte that ends the name on disk.
    pub open spec fn wf(&self) -> bool {
        self.survives() ==> {
            &&& self.id_spec().len() == 20
            &&& forall|i: int|
                0 <= i < self.name_spec().len() ==> #[trigger] self.name_spec()[i] != 0
        }
    }
}

/// Non-strict order on children by sort key.
pub open spec fn key_le(a: TreeChild, b: TreeChild) -> bool {
    lex_lt(a.sort_key(), b.sort_key()) || a.sort_key() == b.sort_key()
}

/// `c` placed into an already sorted run: after every element it does not
/// precede, before the rest.
pub open spec fn insert_sorted(s: Seq<TreeChild>, c: TreeChild) -> Seq<TreeChild>
    decreases s.len(),
{
    if s.len() == 0 {
        seq![c]
    } else if key_le(s[0], c) {
        seq![s[0]] + insert_sorted(s.drop_first(), c)
    } else {
        seq![c] + s
    }
}

/// Insertion sort of a child sequence by sort key, processing left to
/// right.
pub open spec fn sort_children(s: Seq<TreeChild>) -> Seq<TreeChild>
    decreases s.len(),
{
    if s.len() == 0 {
        Seq::empty()
    } else {
        insert_sorted(sort_children(s.drop_last()), s.last())
    }
}

/// The children that earn a tree entry, in their given order.
pub open spec fn surviving(s: Seq<TreeChild>) -> Seq<TreeChild> {
    s.filter(|c: TreeChild| c.survives())
}

/// One encoded entry: `<mode> SP <name> NUL <20 id bytes>`.
pub open spec fn entry_encoding(c: TreeChild) -> Seq<u8>
    recommends
        c.survives(),
{
    c.mode_spec() + seq![32u8] + c.name_spec() + seq![0u8] + c.id_spec()
}

/// The content of a tree object: the entries in order, nothing between
/// them.
pub open spec fn tree_encoding(s: Seq<TreeChild>) -> Seq<u8>
    decreases s.len(),
{
    if s.len() == 0 {
        Seq::empty()
    } else {
        tree_encoding(s.drop_last()) + entry_encoding(s.last())
    }
}

/// Ascending by sort key throughout.
pub open spec fn sorted_by_key(s: Seq<TreeChild>) -> bool {
    forall|i: int, j: int| 0 <= i < j < s.len() ==> key_le(#[trigger] s[i], #[trigger] s[j])
}

pub proof fn lemma_insert_sorted_len(s: Seq<TreeChild>, c: TreeChild)
    ensures
        insert_sorted(s, c).len() == s.len() + 1,
    decreases s.len(),
{
    if s.len() > 0 && key_le(s[0], c) {
        lemma_insert_sorted_len(s.drop_first(), c);
    }
}

pub proof fn lemma_sort_children_len(s: Seq<TreeChild>)
    ensures
        sort_children(s).len() == s.len(),
    decreases s.len(),
{
    if s.len() > 0 {
        lemma_sort_children_len(s.drop_last());
        lemma_insert_sorted_len(sort_children(s.drop_last()), s.last());
    }
}

/// Every element of the insertion result is `c` or an element of `s`.
pub proof fn lemma_insert_sorted_membership(s: Seq<TreeChild>, c: TreeChild)
    ensures
        forall|i: int|
            0 <= i < insert_sorted(s, c).len() ==> (#[trigger] insert_sorted(s, c)[i] == c
                || s.contains(insert_sorted(s, c)[i])),
    decreases s.len(),
{
    let r = insert_sorted(s, c);
    if s.len() == 0 {
    } else if key_le(s[0], c) {
        lemma_insert_sorted_membership(s.drop_first(), c);
        let rr = insert_sorted(s.drop_first(), c);
        assert forall|i: int| 0 <= i < r.len() implies (#[trigger] r[i] == c || s.contains(
            r[i],
        )) by {
            if i == 0 {
                assert(r[0] == s[0]);
                assert(s.contains(s[0]));
            } else {
                assert(r[i] == rr[i - 1]);
                if rr[i - 1] != c {
                    let rv = rr[i - 1];
                    let j = choose|j: int|
                        0 <= j < s.drop_first().len() && s.drop_first()[j] == rv;
                    assert(s[j + 1] == rr[i - 1]);
                }
            }
        }
    } else {
        assert forall|i: int| 0 <= i < r.len() implies (#[trigger] r[i] == c || s.contains(
            r[i],
        )) by {
            if i > 0 {
                assert(r[i] == s[i - 1]);
            }
        }
    }
}

/// Every element of the sorted sequence is an element of `s`.
pub proof fn lemma_sort_children_membership(s: Seq<TreeChild>)
    ensures
        forall|i: int|
            0 <= i < sort_children(s).len() ==> s.contains(#[trigger] sort_children(s)[i]),
    decreases s.len(),
{
    if s.len() > 0 {
        lemma_sort_children_membership(s.drop_last());
        lemma_insert_sorted_membership(sort_children(s.drop_last()), s.last());
        let sorted_rest = sort_children(s.drop_last());
        let r = sort_children(s);
        assert forall|i: int| 0 <= i < r.len() implies s.contains(#[trigger] r[i]) by {
            if r[i] == s.last() {
                assert(s[s.len() - 1] == s.last());
            } else {
                assert(sorted_rest.contains(r[i]));
                let j = choose|j: int|
                    0 <= j < sorted_rest.len() && sorted_rest[j] == r[i];
                assert(s.drop_last().contains(sorted_rest[j]));
                let k = choose|k: int|
                    0 <= k < s.drop_last().len() && s.drop_last()[k] == sorted_rest[j];
                assert(s[k] == r[i]);
            }
        }
    }
}

/// Every surviving child is one of the given children, and survives.
pub proof fn lemma_surviving_subset(s: Seq<TreeChild>)
    ensures
        forall|i: int|
            0 <= i < surviving(s).len() ==> s.contains(#[trigger] surviving(s)[i]) && surviving(
                s,
            )[i].survives(),
    decreases s.len(),
{
    reveal(Seq::filter);
    if s.len() > 0 {
        lemma_surviving_subset(s.drop_last());
        let prev = surviving(s.drop_last());
        assert forall|i: int| 0 <= i < surviving(s).len() implies s.contains(
            #[trigger] surviving(s)[i],
        ) && surviving(s)[i].survives() by {
            if i < prev.len() {
                assert(surviving(s)[i] == prev[i]);
                assert(s.drop_last().contains(prev[i]));
                let j = choose|j: int| 0 <= j < s.drop_last().len() && s.drop_last()[j] == prev[i];
                assert(s[j] == prev[i]);
            } else {
                assert(surviving(s)[i] == s.last());
                assert(s[s.len() - 1] == s.last());
            }
        }
    }
}

/// Whether this child earns a tree entry.
pub fn child_survives(c: &TreeChild) -> (r: bool)
    ensures
        r == c.survives(),
{
    match c {
        TreeChild::Dir { subtree: None, .. } => false,
        _ => true,
    }
}

/// The child's name.
pub fn child_name(c: &TreeChild) -> (r: &Vec<u8>)
    ensures
        r@ == c.name_spec(),
{
    match c {
        TreeChild::File { name, .. } => name,
        TreeChild::Symlink { name, .. } => name,
        TreeChild::Dir { name, .. } => name,
    }
}

/// The byte string the child sorts by.
pub fn child_key(c: &TreeChild) -> (r: Vec<u8>)
    ensures
        r@ == c.sort_key(),
{
    let name = child_name(c);
    let mut k = subvec(name, 0, name.len());
    match c {
        TreeChild::Dir { .. } => {
            k.push(47u8);
        },
        _ => {},
    }
    proof {
        assert(k@ =~= c.sort_key());
    }
    k
}

/// Appends `<mode> SP <name> NUL <id>` for one surviving child.
fn push_entry(buf: &mut Vec<u8>, c: &TreeChild)
    requires
        c.survives(),
    ensures
        final(buf)@ == old(buf)@ + entry_encoding(*c),
{
    match c {
        TreeChild::Dir { .. } => {
            buf.push(52u8);
            buf.push(48u8);
            buf.push(48u8);
            buf.push(48u8);
            buf.push(48u8);
        },
        TreeChild::File { executable, .. } => {
            buf.push(49u8);
            buf.push(48u8);
            buf.push(48u8);
            if *executable {
                buf.push(55u8);
                buf.push(53u8);
                buf.push(53u8);
            } else {
                buf.push(54u8);
                buf.push(52u8);
                buf.push(52u8);
            }
        },
        TreeChild::Symlink { .. } => {
            buf.push(49u8);
            buf.push(50u8);
            buf.push(48u8);
            buf.push(48u8);
            buf.push(48u8);
            buf.push(48u8);
        },
    }
    buf.push(32u8);
    buf.extend_from_slice(child_name(c).as_slice());
    buf.push(0u8);
    match c {
        TreeChild::File { id, .. } => buf.extend_from_slice(id.bytes.as_slice()),
        TreeChild::Symlink { id, .. } => buf.extend_from_slice(id.bytes.as_slice()),
        TreeChild::Dir { subtree, .. } => match subtree {
            Some(id) => buf.extend_from_slice(id.bytes.as_slice()),
            None => proof {
                assert(false);
            },
        },
    }
    proof {
        assert(buf@ =~= old(buf)@ + entry_encoding(*c));
    }
}

/// Places `c` into the sorted run, after every element it does not
/// precede.
fn insert_child(sorted: &mut Vec<TreeChild>, c: TreeChild)
    ensures
        final(sorted)@ == insert_sorted(old(sorted)@, c),
{
    let ghost s = sorted@;
    let ck = child_key(&c);
    let mut i: usize = 0;
    proof {
        assert(s.take(0) =~= Seq::<TreeChild>::empty());
        assert(s.skip(0) =~= s);
    }
    while i < sorted.len()
        invariant
            0 <= i <= sorted@.len(),
            sorted@ == s,
            ck@ == c.sort_key(),
            insert_sorted(s, c) == s.take(i as int) + insert_sorted(s.skip(i as int), c),
            forall|j: int| 0 <= j < i ==> key_le(#[trigger] s[j], c),
        ensures
            0 <= i <= s.len(),
            sorted@ == s,
            insert_sorted(s, c) == s.take(i as int) + insert_sorted(s.skip(i as int), c),
            i < s.len() ==> !key_le(s[i as int], c),
        decreases sorted@.len() - i,
    {
        let ki = child_key(&sorted[i]);
        let cmp = lex_cmp(&ki, &ck);
        proof {
            lemma_lex_lt_trichotomy(ki@, ck@);
        }
        if matches!(cmp, Rel::Gt) {
            proof {
                assert(lex_lt(ck@, ki@));
                assert(!key_le(s[i as int], c));
            }
            break ;
        }
        proof {
            assert(key_le(s[i as int], c));
            assert(s.skip(i as int)[0] == s[i as int]);
            assert(s.skip(i as int).drop_first() =~= s.skip(i + 1));
            assert(s.take(i as int) + insert_sorted(s.skip(i as int), c) =~= s.take(i + 1)
                + insert_sorted(s.skip(i + 1), c));
        }
        i = i + 1;
    }
    proof {
        if i < s.len() {
            assert(s.skip(i as int)[0] == s[i as int]);
            assert(seq![c] + s.skip(i as int) =~= insert_sorted(s.skip(i as int), c));
        } else {
            assert(s.skip(i as int).len() == 0);
        }
        assert(s.take(i as int) + seq![c] + s.skip(i as int) =~= s.insert(i as int, c));
        assert(insert_sorted(s, c) =~= s.insert(i as int, c));
    }
    sorted.insert(i, c);
}

/// The sorted, encoded content of a tree object for one directory level,
/// or `None` when no child survives: an empty level never becomes a tree
/// object.
pub fn build_tree_content(children: Vec<TreeChild>) -> (r: Option<Vec<u8>>)
    requires
        forall|i: int| 0 <= i < children@.len() ==> (#[trigger] children@[i]).wf(),
    ensures
        match r {
            None => surviving(children@).len() == 0,
            Some(content) => surviving(children@).len() > 0 && content@ == tree_encoding(
                sort_children(surviving(children@)),
            ),
        },
{
    let ghost orig = children@;
    let mut rest = children;
    let mut sorted_v: Vec<TreeChild> = Vec::new();
    let ghost mut k: int = 0;
    proof {
        assert(rest@ =~= orig.skip(0));
        assert(orig.take(0) =~= Seq::<TreeChild>::empty());
        reveal(Seq::filter);
        assert(sorted_v@ =~= sort_children(surviving(orig.take(0))));
    }
    while rest.len() > 0
        invariant
            0 <= k <= orig.len(),
            rest@ == orig.skip(k),
            sorted_v@ == sort_children(surviving(orig.take(k))),
            forall|i: int| 0 <= i < orig.len() ==> (#[trigger] orig[i]).wf(),
        decreases rest@.len(),
    {
        let c = rest.remove(0);
        proof {
            assert(c == orig[k]);
            assert(rest@ =~= orig.skip(k + 1));
        }
        let ghost prev = surviving(orig.take(k));
        if child_survives(&c) {
            insert_child(&mut sorted_v, c);
        }
        proof {
            reveal(Seq::filter);
            assert(orig.take(k + 1).drop_last() =~= orig.take(k));
            assert(orig.take(k + 1).last() == orig[k]);
            if c.survives() {
                assert(surviving(orig.take(k + 1)) =~= prev.push(c));
                assert(prev.push(c).drop_last() =~= prev);
                assert(sort_children(prev.push(c)) == insert_sorted(sort_children(prev), c));
            } else {
                assert(surviving(orig.take(k + 1)) =~= prev);
            }
            k = k + 1;
        }
    }
    proof {
        assert(orig.take(k) =~= orig);
        lemma_sort_children_len(surviving(orig));
    }
    if sorted_v.len() == 0 {
        return None;
    }
    // Every sorted element came from the surviving children, so each one
    // survives and carries a 20-byte id.
    proof {
        lemma_sort_children_membership(surviving(orig));
        lemma_surviving_subset(orig);
        assert forall|i: int| 0 <= i < sorted_v@.len() implies (#[trigger] sorted_v@[i]).survives()
            && sorted_v@[i].wf() by {
            assert(surviving(orig).contains(sorted_v@[i]));
            let j = choose|j: int|
                0 <= j < surviving(orig).len() && surviving(orig)[j] == sorted_v@[i];
            assert(orig.contains(surviving(orig)[j]));
            let m = choose|m: int| 0 <= m < orig.len() && orig[m] == surviving(orig)[j];
            assert(orig[m].wf());
        };
    }
    let mut content: Vec<u8> = Vec::new();
    let mut i: usize = 0;
    proof {
        assert(sorted_v@.take(0) =~= Seq::<TreeChild>::empty());
    }
    while i < sorted_v.len()
        invariant
            0 <= i <= sorted_v@.len(),
            content@ == tree_encoding(sorted_v@.take(i as int)),
            forall|j: int|
                0 <= j < sorted_v@.len() ==> (#[trigger] sorted_v@[j]).survives(),
        decreases sorted_v@.len() - i,
    {
        push_entry(&mut content, &sorted_v[i]);
        proof {
            assert(sorted_v@.take(i + 1).drop_last() =~= sorted_v@.take(i as int));
            assert(sorted_v@.take(i + 1).last() == sorted_v@[i as int]);
        }
        i = i + 1;
    }
    proof {
        assert(sorted_v@.take(i as int) =~= sorted_v@);
    }
    Some(content)
}

/// Builds the tree object for one directory level and prepares it for
/// storage, or elides the level entirely when no child survives.
pub fn build_tree(children: Vec<TreeChild>) -> (r: Option<StoredObject>)
    requires
        forall|i: int| 0 <= i < children@.len() ==> (#[trigger] children@[i]).wf(),
    ensures
        match r {
            None => surviving(children@).len() == 0,
            Some(s) => {
                let content = tree_encoding(sort_children(surviving(children@)));
                &&& surviving(children@).len() > 0
                &&& s.id.wf()
                &&& s.id@ == object_id_of(ObjectKind::Tree, content)
                &&& zlib_inflate(s.compressed@) == Some(
                    object_encoding(ObjectKind::Tree, content),
                )
                &&& s.rel_dir@ == object_rel_dir_spec(s.id@)
                &&& s.rel_path@ == object_rel_path_spec(s.id@)
            },
        },
{
    match build_tree_content(children) {
        None => None,
        Some(content) => Some(write_object(&Object { kind: ObjectKind::Tree, content })),
    }
}

/// A regular-file child from its permission bits: any of the three
/// execute bits makes the tree entry executable.
pub fn file_child(name: Vec<u8>, permission_bits: u32, id: ObjectId) -> (c: TreeChild)
    ensures
        c == (TreeChild::File { name, executable: permission_bits & 0o111 != 0, id }),
{
    TreeChild::File { name, executable: permission_bits & 0o111 != 0, id }
}


/// Any two children compare one way or the other.
proof fn lemma_key_le_total(a: TreeChild, b: TreeChild)
    ensures
        key_le(a, b) || key_le(b, a),
{
    lemma_lex_lt_trichotomy(a.sort_key(), b.sort_key());
}

/// The order on children is transitive.
proof fn lemma_key_le_trans(a: TreeChild, b: TreeChild, c: TreeChild)
    requires
        key_le(a, b),
        key_le(b, c),
    ensures
        key_le(a, c),
{
    if lex_lt(a.sort_key(), b.sort_key()) && lex_lt(b.sort_key(), c.sort_key()) {
        crate::bytes::lemma_lex_lt_transitive(a.sort_key(), b.sort_key(), c.sort_key());
    }
}

/// Inserting into a sorted run keeps it sorted.
proof fn lemma_insert_sorted_sorted(s: Seq<TreeChild>, c: TreeChild)
    requires
        sorted_by_key(s),
    ensures
        sorted_by_key(insert_sorted(s, c)),
    decreases s.len(),
{
    let r = insert_sorted(s, c);
    if s.len() == 0 {
    } else if key_le(s[0], c) {
        assert(sorted_by_key(s.drop_first())) by {
            assert forall|i: int, j: int|
                0 <= i < j < s.drop_first().len() implies key_le(
                #[trigger] s.drop_first()[i],
                #[trigger] s.drop_first()[j],
            ) by {
                assert(s.drop_first()[i] == s[i + 1] && s.drop_first()[j] == s[j + 1]);
            }
        }
        lemma_insert_sorted_sorted(s.drop_first(), c);
        lemma_insert_sorted_membership(s.drop_first(), c);
        let rr = insert_sorted(s.drop_first(), c);
        assert forall|i: int, j: int| 0 <= i < j < r.len() implies key_le(
            #[trigger] r[i],
            #[trigger] r[j],
        ) by {
            if i == 0 {
                assert(r[0] == s[0]);
                assert(r[j] == rr[j - 1]);
                if rr[j - 1] == c {
                } else {
                    let rv = rr[j - 1];
                    assert(s.drop_first().contains(rv));
                    let k = choose|k: int|
                        0 <= k < s.drop_first().len() && s.drop_first()[k] == rv;
                    assert(s[k + 1] == rv);
                    assert(key_le(s[0], s[k + 1]));
                }
            } else {
                assert(r[i] == rr[i - 1] && r[j] == rr[j - 1]);
            }
        }
    } else {
        lemma_key_le_total(s[0], c);
        assert forall|i: int, j: int| 0 <= i < j < r.len() implies key_le(
            #[trigger] r[i],
            #[trigger] r[j],
        ) by {
            if i == 0 {
                assert(r[0] == c);
                assert(r[j] == s[j - 1]);
                if j - 1 > 0 {
                    lemma_key_le_trans(c, s[0], s[j - 1]);
                }
            } else {
                assert(r[i] == s[i - 1] && r[j] == s[j - 1]);
            }
        }
    }
}

/// Ordering law: the canonical sort leaves the children ascending by
/// sort key, so in an encoded tree every entry's key precedes the next
/// one's (a directory's key being its name with `/` appended).
pub proof fn lemma_sort_children_sorted(s: Seq<TreeChild>)
    ensures
        sorted_by_key(sort_children(s)),
    decreases s.len(),
{
    if s.len() > 0 {
        lemma_sort_children_sorted(s.drop_last());
        lemma_insert_sorted_sorted(sort_children(s.drop_last()), s.last());
    }
}

/// One decoded tree entry: the mode tag, the name, the raw id bytes.
#[derive(Debug)]
pub struct TreeEntry {
    pub mode: Vec<u8>,
    pub name: Vec<u8>,
    pub id: ObjectId,
}

/// The mathematical value of one decoded entry.
pub ghost struct TreeEntryModel {
    pub mode: Seq<u8>,
    pub name: Seq<u8>,
    pub id: Seq<u8>,
}

impl View for TreeEntry {
    type V = TreeEntryModel;

    open spec fn view(&self) -> TreeEntryModel {
        TreeEntryModel { mode: self.mode@, name: self.name@, id: self.id@ }
    }
}

/// The models of a run of decoded entries.
pub open spec fn tree_entry_models(s: Seq<TreeEntry>) -> Seq<TreeEntryModel> {
    s.map_values(|e: TreeEntry| e@)
}

/// What decoding tree content from `pos` yields: `<mode> SP <name> NUL`
/// and 20 id bytes per entry until the content ends, or nothing when an
/// entry is cut short.
pub open spec fn parse_tree_spec(b: Seq<u8>, pos: int) -> Option<Seq<TreeEntryModel>>
    decreases b.len() - pos,
    via parse_tree_spec_dec
{
    if pos < 0 || pos > b.len() {
        None
    } else if pos == b.len() {
        Some(Seq::empty())
    } else {
        match find_byte_from(b, 32u8, pos) {
            None => None,
            Some(sp) => match find_byte_from(b, 0u8, sp + 1) {
                None => None,
                Some(ne) => {
                    if ne + 21 > b.len() {
                        None
                    } else {
                        let entry = TreeEntryModel {
                            mode: b.subrange(pos, sp),
                            name: b.subrange(sp + 1, ne),
                            id: b.subrange(ne + 1, ne + 21),
                        };
                        match parse_tree_spec(b, ne + 21) {
                            Some(rest) => Some(seq![entry] + rest),
                            None => None,
                        }
                    }
                },
            },
        }
    }
}

#[via_fn]
proof fn parse_tree_spec_dec(b: Seq<u8>, pos: int) {
    if 0 <= pos && pos < b.len() {
        lemma_find_byte_props(b, 32u8, pos);
        if find_byte_from(b, 32u8, pos) is Some {
            let sp = find_byte_from(b, 32u8, pos)->Some_0;
            lemma_find_byte_props(b, 0u8, sp + 1);
        }
    }
}

/// Decodes the content of a tree object into its entries: each is a mode
/// up to the first space, a name up to the following NUL, and 20 raw id
/// bytes; content that cuts an entry short decodes to nothing.
pub fn parse_tree_entries(b: &Vec<u8>) -> (r: Option<Vec<TreeEntry>>)
    ensures
        match r {
            Some(es) => parse_tree_spec(b@, 0) == Some(tree_entry_models(es@)),
            None => parse_tree_spec(b@, 0) == None::<Seq<TreeEntryModel>>,
        },
{
    let mut entries: Vec<TreeEntry> = Vec::new();
    let mut pos: usize = 0;
    proof {
        assert(tree_entry_models(entries@) =~= Seq::<TreeEntryModel>::empty());
    }
    while pos < b.len()
        invariant
            0 <= pos <= b@.len(),
            parse_tree_spec(b@, 0) == (match parse_tree_spec(b@, pos as int) {
                Some(rest) => Some::<Seq<TreeEntryModel>>(tree_entry_models(entries@) + rest),
                None => None::<Seq<TreeEntryModel>>,
            }),
        decreases b@.len() - pos,
    {
        let ghost p0 = pos as int;
        let ghost acc0 = tree_entry_models(entries@);
        let sp = match find_byte(b, 32u8, pos) {
            None => {
                return None;
            },
            Some(sp) => sp,
        };
        proof {
            lemma_find_byte_props(b@, 32u8, p0);
        }
        let ne = match find_byte(b, 0u8, sp + 1) {
            None => {
                return None;
            },
            Some(ne) => ne,
        };
        proof {
            lemma_find_byte_props(b@, 0u8, sp + 1);
        }
        if b.len() - (ne + 1) < 20 {
            return None;
        }
        let entry = TreeEntry {
            mode: subvec(b, pos, sp),
            name: subvec(b, sp + 1, ne),
            id: ObjectId { bytes: subvec(b, ne + 1, ne + 21) },
        };
        entries.push(entry);
        pos = ne + 21;
        proof {
            let tail = parse_tree_spec(b@, pos as int);
            assert(tree_entry_models(entries@) =~= acc0.push(entries@.last()@));
            if tail is Some {
                let rest = tail->Some_0;
                assert(acc0 + (seq![entries@.last()@] + rest) =~= acc0.push(entries@.last()@)
                    + rest);
            }
        }
    }
    proof {
        assert(parse_tree_spec(b@, pos as int) == Some(Seq::<TreeEntryModel>::empty()));
        assert(tree_entry_models(entries@) + Seq::<TreeEntryModel>::empty() =~= tree_entry_models(
            entries@,
        ));
    }
    Some(entries)
}


/// The decoded form of one encoded child.
pub open spec fn child_entry_model(c: TreeChild) -> TreeEntryModel {
    TreeEntryModel { mode: c.mode_spec(), name: c.name_spec(), id: c.id_spec() }
}

/// Every mode tag is five or six ASCII digits.
proof fn lemma_mode_bytes(c: TreeChild)
    ensures
        5 <= c.mode_spec().len() <= 6,
        forall|j: int| 0 <= j < c.mode_spec().len() ==> 48 <= #[trigger] c.mode_spec()[j] <= 57,
{
}

/// Decoding one encoded child at its position yields exactly its mode,
/// name and id, and hands the following position to the rest.
#[verifier::rlimit(100)]
proof fn lemma_parse_tree_one(b: Seq<u8>, pos: int, c: TreeChild)
    requires
        c.survives(),
        c.wf(),
        0 <= pos,
        pos + entry_encoding(c).len() <= b.len(),
        b.subrange(pos, pos + entry_encoding(c).len() as int) == entry_encoding(c),
    ensures
        parse_tree_spec(b, pos) == (match parse_tree_spec(
            b,
            pos + entry_encoding(c).len() as int,
        ) {
            Some(rest) => Some(seq![child_entry_model(c)] + rest),
            None => None::<Seq<TreeEntryModel>>,
        }),
{
    lemma_mode_bytes(c);
    let eb = entry_encoding(c);
    let ml = c.mode_spec().len() as int;
    let nl = c.name_spec().len() as int;
    let t2 = c.mode_spec() + seq![32u8];
    let t3 = t2 + c.name_spec();
    let t4 = t3 + seq![0u8];
    assert(eb == t4 + c.id_spec());
    assert(eb.len() == ml + 1 + nl + 1 + 20);
    // Where each piece of the record lies.
    assert forall|q: int| 0 <= q < ml implies eb[q] == c.mode_spec()[q] by {
        assert(eb[q] == t4[q]);
        assert(t4[q] == t3[q]);
        assert(t3[q] == t2[q]);
        assert(t2[q] == c.mode_spec()[q]);
    }
    assert(eb[ml] == 32u8) by {
        assert(eb[ml] == t4[ml]);
        assert(t4[ml] == t3[ml]);
        assert(t3[ml] == t2[ml]);
        assert(t2[ml] == seq![32u8][0]);
    }
    assert forall|q: int| 0 <= q < nl implies eb[ml + 1 + q] == c.name_spec()[q] by {
        assert(eb[ml + 1 + q] == t4[ml + 1 + q]);
        assert(t4[ml + 1 + q] == t3[ml + 1 + q]);
        assert(t3[ml + 1 + q] == c.name_spec()[q]);
    }
    assert(eb[ml + 1 + nl] == 0u8) by {
        assert(eb[ml + 1 + nl] == t4[ml + 1 + nl]);
        assert(t4[ml + 1 + nl] == seq![0u8][0]);
    }
    assert forall|q: int| 0 <= q < 20 implies eb[ml + 1 + nl + 1 + q] == c.id_spec()[q] by {
        assert(eb[ml + 1 + nl + 1 + q] == c.id_spec()[q]);
    }
    assert forall|k: int| 0 <= k < eb.len() implies b[pos + k] == eb[k] by {
        assert(b.subrange(pos, pos + eb.len() as int)[k] == b[pos + k]);
    }
    // The first space ends the mode tag.
    let sp = pos + ml;
    assert(b[sp] == 32);
    assert forall|j: int| pos <= j < sp implies b[j] != 32 by {
        assert(b[pos + (j - pos)] == eb[j - pos]);
        assert(eb[j - pos] == c.mode_spec()[j - pos]);
    }
    lemma_find_byte_some(b, 32u8, pos, sp);
    // The first NUL after the space ends the name.
    let ne = sp + 1 + nl;
    assert(b[ne] == 0);
    assert forall|j: int| sp + 1 <= j < ne implies b[j] != 0 by {
        assert(b[pos + (j - pos)] == eb[j - pos]);
        assert(eb[ml + 1 + (j - pos - ml - 1)] == c.name_spec()[j - pos - ml - 1]);
    }
    lemma_find_byte_some(b, 0u8, sp + 1, ne);
    assert(ne + 21 == pos + eb.len());
    assert(b.subrange(pos, sp) =~= c.mode_spec());
    assert(b.subrange(sp + 1, ne) =~= c.name_spec());
    assert(b.subrange(ne + 1, ne + 21) =~= c.id_spec());
}

/// The encoding of a nonempty run starts with its first entry.
proof fn lemma_tree_encoding_head(s: Seq<TreeChild>)
    requires
        s.len() > 0,
    ensures
        tree_encoding(s) == entry_encoding(s[0]) + tree_encoding(s.drop_first()),
    decreases s.len(),
{
    if s.len() == 1 {
        assert(s.drop_last() =~= Seq::<TreeChild>::empty());
        assert(s.drop_first() =~= Seq::<TreeChild>::empty());
        assert(tree_encoding(Seq::<TreeChild>::empty()) == Seq::<u8>::empty());
        assert(tree_encoding(s) =~= entry_encoding(s[0]) + tree_encoding(s.drop_first()));
    } else {
        lemma_tree_encoding_head(s.drop_last());
        assert(s.drop_last()[0] == s[0]);
        assert(s.drop_first().drop_last() =~= s.drop_last().drop_first());
        assert(s.drop_first().last() == s.last());
        assert(tree_encoding(s) =~= entry_encoding(s[0]) + tree_encoding(s.drop_first()));
    }
}

/// An encoded run of surviving, well-formed children that fills the rest
/// of the buffer decodes back to exactly those children's entries.
proof fn lemma_parse_tree_run(cs: Seq<TreeChild>, b: Seq<u8>, pos: int)
    requires
        forall|i: int|
            0 <= i < cs.len() ==> (#[trigger] cs[i]).survives() && cs[i].wf(),
        0 <= pos,
        pos + tree_encoding(cs).len() == b.len(),
        b.subrange(pos, b.len() as int) == tree_encoding(cs),
    ensures
        parse_tree_spec(b, pos) == Some(
            cs.map_values(|c: TreeChild| child_entry_model(c)),
        ),
    decreases cs.len(),
{
    if cs.len() == 0 {
        assert(cs.map_values(|c: TreeChild| child_entry_model(c)) =~= Seq::<
            TreeEntryModel,
        >::empty());
    } else {
        let c = cs[0];
        let rest = cs.drop_first();
        lemma_tree_encoding_head(cs);
        let eb = entry_encoding(c);
        let total = tree_encoding(cs).len() as int;
        assert forall|k: int| 0 <= k < total implies b[pos + k] == tree_encoding(cs)[k] by {
            assert(b.subrange(pos, b.len() as int)[k] == b[pos + k]);
        }
        assert(b.subrange(pos, pos + eb.len() as int) =~= eb);
        lemma_parse_tree_one(b, pos, c);
        let rb = tree_encoding(rest);
        assert forall|k: int|
            0 <= k < rb.len() implies b.subrange(pos + eb.len() as int, b.len() as int)[k]
            == rb[k] by {
            assert(b[pos + eb.len() as int + k] == tree_encoding(cs)[eb.len() as int + k]);
            assert((eb + rb)[eb.len() as int + k] == rb[k]);
        }
        assert(b.subrange(pos + eb.len() as int, b.len() as int) =~= rb);
        lemma_parse_tree_run(rest, b, pos + eb.len() as int);
        assert(seq![child_entry_model(c)] + rest.map_values(
            |x: TreeChild| child_entry_model(x),
        ) =~= cs.map_values(|x: TreeChild| child_entry_model(x)));
    }
}

/// Round-trip law: the canonical tree encoding of surviving, well-formed
/// children decodes back to exactly their modes, names and ids, in order.
pub proof fn lemma_tree_round_trip(cs: Seq<TreeChild>)
    requires
        forall|i: int|
            0 <= i < cs.len() ==> (#[trigger] cs[i]).survives() && cs[i].wf(),
    ensures
        parse_tree_spec(tree_encoding(cs), 0) == Some(
            cs.map_values(|c: TreeChild| child_entry_model(c)),
        ),
{
    let b = tree_encoding(cs);
    assert(b.subrange(0, b.len() as int) =~= b);
    lemma_parse_tree_run(cs, b, 0);
}

} // verus!
