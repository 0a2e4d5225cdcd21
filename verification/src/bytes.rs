//! Byte-string primitives shared by the object, tree and index codecs:
//! lexicographic order on raw bytes, big-endian integer fields, decimal
//! digit strings, and searching for a terminator byte.

use vstd::prelude::*;

verus! {

/// Strict lexicographic order on byte strings (raw byte comparison; a
/// strict prefix sorts before any extension of it).
pub open spec fn lex_lt(a: Seq<u8>, b: Seq<u8>) -> bool
    decreases a.len(),
{
    if b.len() == 0 {
        false
    } else if a.len() == 0 {
        true
    } else if a[0] < b[0] {
        true
    } else if a[0] > b[0] {
        false
    } else {
        lex_lt(a.drop_first(), b.drop_first())
    }
}

/// Of two byte strings, exactly one of `lex_lt(a, b)`, `a == b`,
/// `lex_lt(b, a)` holds.
pub proof fn lemma_lex_lt_trichotomy(a: Seq<u8>, b: Seq<u8>)
    ensures
        lex_lt(a, b) || a == b || lex_lt(b, a),
        lex_lt(a, b) ==> a != b && !lex_lt(b, a),
        a == b ==> !lex_lt(a, b) && !lex_lt(b, a),
    decreases a.len(),
{
    if a.len() == 0 || b.len() == 0 {
        if a.len() == b.len() {
            assert(a =~= b);
        }
    } else if a[0] == b[0] {
        lemma_lex_lt_trichotomy(a.drop_first(), b.drop_first());
        if a.drop_first() == b.drop_first() {
            assert forall|i: int| 0 <= i < a.len() implies a[i] == b[i] by {
                if i >= 1 {
                    assert(a.drop_first()[i - 1] == b.drop_first()[i - 1]);
                }
            }
            assert(a =~= b);
        }
        if a == b {
            assert(a.drop_first() =~= b.drop_first());
        }
    } else {
        if a == b {
            assert(a[0] == b[0]);
        }
    }
}

/// The order is transitive.
pub proof fn lemma_lex_lt_transitive(a: Seq<u8>, b: Seq<u8>, c: Seq<u8>)
    requires
        lex_lt(a, b),
        lex_lt(b, c),
    ensures
        lex_lt(a, c),
    decreases a.len(),
{
    if a.len() == 0 {
    } else {
        if a[0] == b[0] && b[0] == c[0] {
            lemma_lex_lt_transitive(a.drop_first(), b.drop_first(), c.drop_first());
        }
    }
}

/// Three-way comparison result for raw byte strings.
#[derive(Clone, Copy, PartialEq, Eq, Structural, Debug)]
pub enum Rel {
    Lt,
    Eq,
    Gt,
}

/// Compares two byte strings in raw lexicographic order.
pub fn lex_cmp(a: &Vec<u8>, b: &Vec<u8>) -> (r: Rel)
    ensures
        r == Rel::Lt ==> lex_lt(a@, b@),
        r == Rel::Eq ==> a@ == b@,
        r == Rel::Gt ==> lex_lt(b@, a@),
{
    let mut i: usize = 0;
    let n = if a.len() < b.len() {
        a.len()
    } else {
        b.len()
    };
    proof {
        assert(a@.skip(0) =~= a@);
        assert(b@.skip(0) =~= b@);
        assert(a@.take(0) =~= b@.take(0));
    }
    while i < n
        invariant
            0 <= i <= n,
            n == if a@.len() < b@.len() {
                a@.len()
            } else {
                b@.len()
            },
            a@.take(i as int) == b@.take(i as int),
            lex_lt(a@, b@) == lex_lt(a@.skip(i as int), b@.skip(i as int)),
            lex_lt(b@, a@) == lex_lt(b@.skip(i as int), a@.skip(i as int)),
        decreases n - i,
    {
        let x = a[i];
        let y = b[i];
        proof {
            assert(a@.skip(i as int)[0] == a@[i as int]);
            assert(b@.skip(i as int)[0] == b@[i as int]);
        }
        if x < y {
            return Rel::Lt;
        }
        if x > y {
            return Rel::Gt;
        }
        proof {
            assert(a@.skip(i as int).drop_first() =~= a@.skip(i + 1));
            assert(b@.skip(i as int).drop_first() =~= b@.skip(i + 1));
            assert(a@.take(i + 1) =~= a@.take(i as int).push(a@[i as int]));
            assert(b@.take(i + 1) =~= b@.take(i as int).push(b@[i as int]));
        }
        i = i + 1;
    }
    proof {
        assert(a@.skip(i as int).len() == 0 || b@.skip(i as int).len() == 0);
    }
    if a.len() == b.len() {
        proof {
            assert(a@ =~= b@) by {
                assert(a@.take(i as int) =~= a@);
                assert(b@.take(i as int) =~= b@);
            }
        }
        Rel::Eq
    } else if a.len() < b.len() {
        Rel::Lt
    } else {
        Rel::Gt
    }
}

/// The four bytes of `n` in big-endian order.
pub open spec fn be32_bytes(n: u32) -> Seq<u8> {
    seq![
        (n / 0x1000000) as u8,
        ((n / 0x10000) % 0x100) as u8,
        ((n / 0x100) % 0x100) as u8,
        (n % 0x100) as u8,
    ]
}

/// The value of a four-byte big-endian field.
pub open spec fn be32_val(s: Seq<u8>) -> u32
    recommends
        s.len() == 4,
{
    (s[0] * 0x1000000 + s[1] * 0x10000 + s[2] * 0x100 + s[3]) as u32
}

pub proof fn lemma_be32_round_trip(n: u32)
    ensures
        be32_val(be32_bytes(n)) == n,
{
    assert(be32_val(be32_bytes(n)) == n) by (bit_vector);
}

/// The two bytes of `n` in big-endian order.
pub open spec fn be16_bytes(n: u16) -> Seq<u8> {
    seq![(n / 0x100) as u8, (n % 0x100) as u8]
}

/// The value of a two-byte big-endian field.
pub open spec fn be16_val(s: Seq<u8>) -> u16
    recommends
        s.len() == 2,
{
    (s[0] * 0x100 + s[1]) as u16
}

pub proof fn lemma_be16_round_trip(n: u16)
    ensures
        be16_val(be16_bytes(n)) == n,
{
    assert(be16_val(be16_bytes(n)) == n) by (bit_vector);
}

/// Appends the big-endian encoding of `n`.
pub fn push_be32(buf: &mut Vec<u8>, n: u32)
    ensures
        final(buf)@ == old(buf)@ + be32_bytes(n),
{
    buf.push((n / 0x1000000) as u8);
    buf.push(((n / 0x10000) % 0x100) as u8);
    buf.push(((n / 0x100) % 0x100) as u8);
    buf.push((n % 0x100) as u8);
    proof {
        assert(buf@ =~= old(buf)@ + be32_bytes(n));
    }
}

/// Appends the big-endian encoding of `n`.
pub fn push_be16(buf: &mut Vec<u8>, n: u16)
    ensures
        final(buf)@ == old(buf)@ + be16_bytes(n),
{
    buf.push((n / 0x100) as u8);
    buf.push((n % 0x100) as u8);
    proof {
        assert(buf@ =~= old(buf)@ + be16_bytes(n));
    }
}

/// Reads the four-byte big-endian field at `pos`.
pub fn read_be32(b: &Vec<u8>, pos: usize) -> (r: u32)
    requires
        pos + 4 <= b.len(),
    ensures
        r == be32_val(b@.subrange(pos as int, pos + 4)),
{
    let r = (b[pos] as u32) * 0x1000000 + (b[pos + 1] as u32) * 0x10000 + (b[pos + 2] as u32)
        * 0x100 + (b[pos + 3] as u32);
    proof {
        let s = b@.subrange(pos as int, pos + 4);
        assert(s[0] == b@[pos as int]);
        assert(s[1] == b@[pos + 1] && s[2] == b@[pos + 2] && s[3] == b@[pos + 3]);
    }
    r
}

/// Reads the two-byte big-endian field at `pos`.
pub fn read_be16(b: &Vec<u8>, pos: usize) -> (r: u16)
    requires
        pos + 2 <= b.len(),
    ensures
        r == be16_val(b@.subrange(pos as int, pos + 2)),
{
    let r = (b[pos] as u16) * 0x100 + (b[pos + 1] as u16);
    proof {
        let s = b@.subrange(pos as int, pos + 2);
        assert(s[0] == b@[pos as int] && s[1] == b@[pos + 1]);
    }
    r
}

/// The ASCII decimal digit string of `n`, most significant digit first,
/// with no sign and no leading zeros (`0` is written as one digit).
pub open spec fn dec_digits(n: nat) -> Seq<u8>
    decreases n,
{
    if n < 10 {
        seq![(48 + n) as u8]
    } else {
        dec_digits(n / 10) + seq![(48 + n % 10) as u8]
    }
}

/// All bytes of `s` are ASCII decimal digits.
pub open spec fn is_dec_digits(s: Seq<u8>) -> bool {
    forall|i: int| 0 <= i < s.len() ==> 48 <= #[trigger] s[i] <= 57
}

/// The numeric value of an ASCII decimal digit string.
pub open spec fn dec_val(s: Seq<u8>) -> nat
    decreases s.len(),
{
    if s.len() == 0 {
        0
    } else {
        dec_val(s.drop_last()) * 10 + (if s.last() >= 48 {
            (s.last() - 48) as nat
        } else {
            0
        })
    }
}

pub proof fn lemma_dec_digits_are_digits(n: nat)
    ensures
        is_dec_digits(dec_digits(n)),
        dec_digits(n).len() >= 1,
    decreases n,
{
    if n >= 10 {
        lemma_dec_digits_are_digits(n / 10);
    }
}

pub proof fn lemma_dec_digits_val(n: nat)
    ensures
        dec_val(dec_digits(n)) == n,
    decreases n,
{
    if n < 10 {
        assert(dec_digits(n).drop_last() =~= Seq::<u8>::empty());
        assert(dec_digits(n).last() == (48 + n) as u8);
        assert(dec_val(Seq::<u8>::empty()) == 0);
    } else {
        lemma_dec_digits_val(n / 10);
        assert(dec_digits(n).drop_last() =~= dec_digits(n / 10));
        assert(dec_digits(n).last() == (48 + n % 10) as u8);
        assert(dec_val(dec_digits(n)) == (n / 10) * 10 + n % 10);
        assert(n == (n / 10) * 10 + n % 10) by {
            vstd::arithmetic::div_mod::lemma_fundamental_div_mod(n as int, 10);
        }
    }
}

/// Ten to the `k`.
pub open spec fn pow10(k: nat) -> nat
    decreases k,
{
    if k == 0 {
        1
    } else {
        10 * pow10((k - 1) as nat)
    }
}

/// A value below `pow10(k)` needs at most `k` digits.
pub proof fn lemma_dec_digits_len(n: nat, k: nat)
    requires
        k >= 1,
        n < pow10(k),
    ensures
        dec_digits(n).len() <= k,
    decreases n,
{
    if n >= 10 {
        assert(pow10(k) == 10 * pow10((k - 1) as nat));
        lemma_dec_digits_len(n / 10, (k - 1) as nat);
    }
}

/// Appends the decimal digit string of `n`.
pub fn push_dec(buf: &mut Vec<u8>, n: u64)
    ensures
        final(buf)@ == old(buf)@ + dec_digits(n as nat),
    decreases n,
{
    if n < 10 {
        buf.push(48 + n as u8);
        proof {
            assert(buf@ =~= old(buf)@ + dec_digits(n as nat));
        }
    } else {
        push_dec(buf, n / 10);
        buf.push(48 + (n % 10) as u8);
        proof {
            assert(buf@ =~= old(buf)@ + dec_digits(n as nat));
        }
    }
}

/// `dec_val` of a longer digit prefix is at least that of a shorter one.
proof fn lemma_dec_val_take_step(s: Seq<u8>, i: int)
    requires
        0 <= i < s.len(),
    ensures
        dec_val(s.take(i + 1)) == dec_val(s.take(i)) * 10 + (if s[i] >= 48 {
            (s[i] - 48) as nat
        } else {
            0
        }),
{
    assert(s.take(i + 1).drop_last() =~= s.take(i));
    assert(s.take(i + 1).last() == s[i]);
}

proof fn lemma_dec_val_monotone(s: Seq<u8>, i: int)
    requires
        0 <= i <= s.len(),
    ensures
        dec_val(s.take(i)) <= dec_val(s),
    decreases s.len() - i,
{
    if i == s.len() {
        assert(s.take(i) =~= s);
    } else {
        lemma_dec_val_take_step(s, i);
        lemma_dec_val_monotone(s, i + 1);
    }
}

/// Parses the decimal digit string `b[start..end]` as a `u64`.
/// Returns `Some` exactly on a nonempty, all-digit field whose value fits.
pub fn parse_dec(b: &Vec<u8>, start: usize, end: usize) -> (r: Option<u64>)
    requires
        start <= end <= b@.len(),
    ensures
        ({
            let s = b@.subrange(start as int, end as int);
            match r {
                Some(v) => s.len() > 0 && is_dec_digits(s) && v == dec_val(s) && dec_val(s)
                    <= u64::MAX,
                None => s.len() == 0 || !is_dec_digits(s) || dec_val(s) > u64::MAX,
            }
        }),
{
    let ghost s = b@.subrange(start as int, end as int);
    if start == end {
        return None;
    }
    let mut val: u64 = 0;
    let mut i: usize = start;
    while i < end
        invariant
            start <= i <= end <= b@.len(),
            s == b@.subrange(start as int, end as int),
            is_dec_digits(s.take(i - start)),
            val == dec_val(s.take(i - start)),
        decreases end - i,
    {
        let c = b[i];
        proof {
            assert(s[i - start] == b@[i as int]);
        }
        if c < 48 || c > 57 {
            return None;
        }
        let d = (c - 48) as u64;
        proof {
            lemma_dec_val_take_step(s, i - start);
        }
        if val > (u64::MAX - d) / 10 {
            proof {
                lemma_dec_val_monotone(s, i - start + 1);
            }
            return None;
        }
        val = val * 10 + d;
        proof {
            assert(s.take(i - start + 1) =~= s.take(i - start).push(s[i - start]));
            assert(is_dec_digits(s.take(i - start + 1)));
        }
        i = i + 1;
    }
    proof {
        assert(s.take(i - start) =~= s);
    }
    Some(val)
}

/// The index of the first occurrence of `v` in `b` at or after `from`.
pub open spec fn find_byte_from(b: Seq<u8>, v: u8, from: int) -> Option<int>
    decreases b.len() - from,
{
    if from < 0 || from >= b.len() {
        None
    } else if b[from] == v {
        Some(from)
    } else {
        find_byte_from(b, v, from + 1)
    }
}

/// Characterizes `find_byte_from` when an occurrence exists.
pub proof fn lemma_find_byte_some(b: Seq<u8>, v: u8, from: int, k: int)
    requires
        0 <= from <= k < b.len(),
        b[k] == v,
        forall|j: int| from <= j < k ==> b[j] != v,
    ensures
        find_byte_from(b, v, from) == Some(k),
    decreases k - from,
{
    if from < k {
        lemma_find_byte_some(b, v, from + 1, k);
    }
}

/// Characterizes `find_byte_from` when no occurrence exists.
pub proof fn lemma_find_byte_none(b: Seq<u8>, v: u8, from: int)
    requires
        0 <= from,
        forall|j: int| from <= j < b.len() ==> b[j] != v,
    ensures
        find_byte_from(b, v, from) == None::<int>,
    decreases b.len() - from,
{
    if from < b.len() {
        lemma_find_byte_none(b, v, from + 1);
    }
}

/// What `find_byte_from` returns is an occurrence, and the first one.
pub proof fn lemma_find_byte_props(b: Seq<u8>, v: u8, from: int)
    requires
        0 <= from,
    ensures
        match find_byte_from(b, v, from) {
            Some(k) => from <= k < b.len() && b[k] == v && forall|j: int|
                from <= j < k ==> b[j] != v,
            None => forall|j: int| from <= j < b.len() ==> b[j] != v,
        },
    decreases b.len() - from,
{
    if from < b.len() && b[from] != v {
        lemma_find_byte_props(b, v, from + 1);
    }
}

/// Scans `b` for the first occurrence of `v` at or after `from`.
pub fn find_byte(b: &Vec<u8>, v: u8, from: usize) -> (r: Option<usize>)
    ensures
        match r {
            Some(k) => find_byte_from(b@, v, from as int) == Some(k as int),
            None => find_byte_from(b@, v, from as int) == None::<int>,
        },
{
    let mut i: usize = from;
    if i >= b.len() {
        return None;
    }
    while i < b.len()
        invariant
            from <= i <= b@.len(),
            forall|j: int| from <= j < i ==> b@[j] != v,
        decreases b@.len() - i,
    {
        if b[i] == v {
            proof {
                lemma_find_byte_some(b@, v, from as int, i as int);
            }
            return Some(i);
        }
        i = i + 1;
    }
    proof {
        lemma_find_byte_none(b@, v, from as int);
    }
    None
}

/// A run of `n` zero bytes.
pub open spec fn zeros(n: nat) -> Seq<u8> {
    Seq::new(n, |i: int| 0u8)
}

/// Appends `n` zero bytes.
pub fn push_zeros(buf: &mut Vec<u8>, n: usize)
    ensures
        final(buf)@ == old(buf)@ + zeros(n as nat),
{
    let mut i: usize = 0;
    while i < n
        invariant
            0 <= i <= n,
            buf@ == old(buf)@ + zeros(i as nat),
        decreases n - i,
    {
        buf.push(0);
        proof {
            assert(buf@ =~= old(buf)@ + zeros((i + 1) as nat));
        }
        i = i + 1;
    }
}

/// Whether two byte vectors hold the same bytes.
pub fn bytes_eq(a: &Vec<u8>, b: &Vec<u8>) -> (r: bool)
    ensures
        r == (a@ == b@),
{
    if a.len() != b.len() {
        return false;
    }
    let mut i: usize = 0;
    while i < a.len()
        invariant
            0 <= i <= a@.len(),
            a@.len() == b@.len(),
            forall|j: int| 0 <= j < i ==> a@[j] == b@[j],
        decreases a@.len() - i,
    {
        if a[i] != b[i] {
            return false;
        }
        i = i + 1;
    }
    proof {
        assert(a@ =~= b@);
    }
    true
}

/// Copies `b[start..end]` into a fresh vector.
pub fn subvec(b: &Vec<u8>, start: usize, end: usize) -> (r: Vec<u8>)
    requires
        start <= end <= b@.len(),
    ensures
        r@ == b@.subrange(start as int, end as int),
{
    let s = vstd::slice::slice_subrange(b.as_slice(), start, end);
    vstd::slice::slice_to_vec(s)
}

} // verus!
