//! Fixed-width integers in byte strings, little-endian (the database file and the
//! snapshot file) and big-endian (PostgreSQL `COPY BINARY` and the wire protocol).
use vstd::prelude::*;
use vstd::slice::slice_subrange;

verus! {

// ── Little-endian reads ──────────────────────────────────────────────────────

/// The unsigned 16-bit number stored least significant byte first at `s[i..i + 2]`.
pub open spec fn le16(s: Seq<u8>, i: int) -> int {
    s[i] + 0x100 * s[i + 1]
}

/// The unsigned 32-bit number stored least significant byte first at `s[i..i + 4]`.
pub open spec fn le32(s: Seq<u8>, i: int) -> int {
    s[i] + 0x100 * s[i + 1] + 0x1_0000 * s[i + 2] + 0x100_0000 * s[i + 3]
}

/// The unsigned 64-bit number stored least significant byte first at `s[i..i + 8]`.
pub open spec fn le64(s: Seq<u8>, i: int) -> int {
    le32(s, i) + 0x1_0000_0000 * le32(s, i + 4)
}

/// The number that `bits` bits stand for in two's complement.
pub open spec fn signed(n: int, bits: nat) -> int
    recommends
        bits == 8 || bits == 16 || bits == 32 || bits == 64,
{
    if bits == 8 {
        if n < 0x80 { n } else { n - 0x100 }
    } else if bits == 16 {
        if n < 0x8000 { n } else { n - 0x1_0000 }
    } else if bits == 32 {
        if n < 0x8000_0000 { n } else { n - 0x1_0000_0000 }
    } else {
        if n < 0x8000_0000_0000_0000 { n } else { n - 0x1_0000_0000_0000_0000 }
    }
}

pub fn get_u16(s: &[u8], i: usize) -> (r: u16)
    requires
        i + 2 <= s@.len(),
    ensures
        r == le16(s@, i as int),
{
    s[i] as u16 + 0x100 * (s[i + 1] as u16)
}

pub fn get_u32(s: &[u8], i: usize) -> (r: u32)
    requires
        i + 4 <= s@.len(),
    ensures
        r == le32(s@, i as int),
{
    s[i] as u32 + 0x100 * (s[i + 1] as u32) + 0x1_0000 * (s[i + 2] as u32) + 0x100_0000 * (s[i
        + 3] as u32)
}

pub fn get_u64(s: &[u8], i: usize) -> (r: u64)
    requires
        i + 8 <= s@.len(),
    ensures
        r == le64(s@, i as int),
{
    let lo: u32 = get_u32(s, i);
    assert(s.len() <= usize::MAX);
    let hi: u32 = get_u32(s, i + 4);
    lo as u64 + 0x1_0000_0000 * (hi as u64)
}

pub fn to_i8(v: u8) -> (r: i8)
    ensures
        r == signed(v as int, 8),
{
    if v < 0x80 {
        v as i8
    } else {
        (v as i16 - 0x100) as i8
    }
}

pub fn to_i16(v: u16) -> (r: i16)
    ensures
        r == signed(v as int, 16),
{
    if v < 0x8000 {
        v as i16
    } else {
        (v as i32 - 0x1_0000) as i16
    }
}

pub fn to_i32(v: u32) -> (r: i32)
    ensures
        r == signed(v as int, 32),
{
    if v < 0x8000_0000 {
        v as i32
    } else {
        (v as i64 - 0x1_0000_0000) as i32
    }
}

pub fn to_i64(v: u64) -> (r: i64)
    ensures
        r == signed(v as int, 64),
{
    if v < 0x8000_0000_0000_0000 {
        v as i64
    } else {
        (v as i128 - 0x1_0000_0000_0000_0000) as i64
    }
}

// ── Writes ───────────────────────────────────────────────────────────────────

/// Byte `k` of a number below 2^32, counted from the least significant one.
#[verifier::opaque]
pub open spec fn byte_of(n: int, k: nat) -> u8 {
    (if k == 0 {
        n % 0x100
    } else if k == 1 {
        n / 0x100 % 0x100
    } else if k == 2 {
        n / 0x1_0000 % 0x100
    } else {
        n / 0x100_0000 % 0x100
    }) as u8
}

/// The 16 low bits of `n`, most significant byte first. A negative `n` stands for its
/// two's complement.
pub open spec fn be16(n: int) -> Seq<u8> {
    let m = n % 0x1_0000;
    seq![byte_of(m, 1), byte_of(m, 0)]
}

/// The 32 low bits of `n`, most significant byte first.
pub open spec fn be32(n: int) -> Seq<u8> {
    let m = n % 0x1_0000_0000;
    seq![byte_of(m, 3), byte_of(m, 2), byte_of(m, 1), byte_of(m, 0)]
}

/// The 64 low bits of `n`, most significant byte first.
pub open spec fn be64(n: int) -> Seq<u8> {
    be32(n / 0x1_0000_0000) + be32(n)
}

/// The 32 low bits of `n`, least significant byte first.
pub open spec fn le32_bytes(n: int) -> Seq<u8> {
    let m = n % 0x1_0000_0000;
    seq![byte_of(m, 0), byte_of(m, 1), byte_of(m, 2), byte_of(m, 3)]
}

/// The 64 low bits of `n`, least significant byte first.
pub open spec fn le64_bytes(n: int) -> Seq<u8> {
    le32_bytes(n) + le32_bytes(n / 0x1_0000_0000)
}

/// The unsigned 32-bit number stored most significant byte first at `s[i..i + 4]`.
pub open spec fn be32_at(s: Seq<u8>, i: int) -> int {
    0x100_0000 * s[i] + 0x1_0000 * s[i + 1] + 0x100 * s[i + 2] + s[i + 3]
}

pub fn get_u32_be(s: &[u8], i: usize) -> (r: u32)
    requires
        i + 4 <= s@.len(),
    ensures
        r == be32_at(s@, i as int),
{
    0x100_0000 * (s[i] as u32) + 0x1_0000 * (s[i + 1] as u32) + 0x100 * (s[i + 2] as u32) + (s[i
        + 3] as u32)
}

pub fn push_be16(out: &mut Vec<u8>, v: i16)
    ensures
        final(out)@ == old(out)@ + be16(v as int),
{
    let u: u16 = if v < 0 {
        (v as i32 + 0x1_0000) as u16
    } else {
        v as u16
    };
    proof {
        reveal(byte_of);
        assert(u == v as int % 0x1_0000);
    }
    out.push((u / 0x100) as u8);
    out.push((u % 0x100) as u8);
    assert(out@ =~= old(out)@ + be16(v as int));
}

pub fn push_be32_u(out: &mut Vec<u8>, v: u32)
    ensures
        final(out)@ == old(out)@ + be32(v as int),
{
    proof {
        reveal(byte_of);
    }
    out.push((v / 0x100_0000) as u8);
    out.push((v / 0x1_0000 % 0x100) as u8);
    out.push((v / 0x100 % 0x100) as u8);
    out.push((v % 0x100) as u8);
    assert(out@ =~= old(out)@ + be32(v as int));
}

pub fn push_be32(out: &mut Vec<u8>, v: i32)
    ensures
        final(out)@ == old(out)@ + be32(v as int),
{
    let u: u32 = if v < 0 {
        (v as i64 + 0x1_0000_0000) as u32
    } else {
        v as u32
    };
    assert(u == v as int % 0x1_0000_0000);
    push_be32_u(out, u);
}

pub fn push_be64_u(out: &mut Vec<u8>, v: u64)
    ensures
        final(out)@ == old(out)@ + be64(v as int),
{
    let lo: u32 = (v % 0x1_0000_0000) as u32;
    push_be32_u(out, (v / 0x1_0000_0000) as u32);
    push_be32_u(out, lo);
    assert(be32(lo as int) == be32(v as int));
    assert(out@ =~= old(out)@ + be64(v as int));
}

pub fn push_be64(out: &mut Vec<u8>, v: i64)
    ensures
        final(out)@ == old(out)@ + be64(v as int),
{
    let u: u64 = if v < 0 {
        (v as i128 + 0x1_0000_0000_0000_0000) as u64
    } else {
        v as u64
    };
    push_be64_u(out, u);
    assert(be32(u as int) == be32(v as int));
    assert(be32(u as int / 0x1_0000_0000) == be32(v as int / 0x1_0000_0000));
}

pub fn push_le32(out: &mut Vec<u8>, v: u32)
    ensures
        final(out)@ == old(out)@ + le32_bytes(v as int),
{
    proof {
        reveal(byte_of);
    }
    out.push((v % 0x100) as u8);
    out.push((v / 0x100 % 0x100) as u8);
    out.push((v / 0x1_0000 % 0x100) as u8);
    out.push((v / 0x100_0000) as u8);
    assert(out@ =~= old(out)@ + le32_bytes(v as int));
}

pub fn push_le64(out: &mut Vec<u8>, v: u64)
    ensures
        final(out)@ == old(out)@ + le64_bytes(v as int),
{
    let lo: u32 = (v % 0x1_0000_0000) as u32;
    push_le32(out, lo);
    push_le32(out, (v / 0x1_0000_0000) as u32);
    assert(le32_bytes(lo as int) == le32_bytes(v as int));
    assert(out@ =~= old(out)@ + le64_bytes(v as int));
}

/// Appends a slice.
pub fn append(out: &mut Vec<u8>, s: &[u8])
    ensures
        final(out)@ == old(out)@ + s@,
{
    out.extend_from_slice(s);
    assert(out@ =~= old(out)@ + s@);
}

/// The bytes `s[i..j]` as a vector of their own.
pub fn copy_range(s: &[u8], i: usize, j: usize) -> (r: Vec<u8>)
    requires
        i <= j <= s@.len(),
    ensures
        r@ == s@.subrange(i as int, j as int),
{
    vstd::slice::slice_to_vec(slice_subrange(s, i, j))
}

/// The remainder of a length modulo 2^32: what a 32-bit length field can hold of it.
pub fn len32(n: usize) -> (r: u32)
    ensures
        r == n as int % 0x1_0000_0000,
{
    (n as u64 % 0x1_0000_0000) as u32
}

// ── Sums ─────────────────────────────────────────────────────────────────────

/// The sum of two numbers, or the greatest number where it does not fit.
pub open spec fn sum64(a: u64, b: u64) -> u64 {
    if a + b > u64::MAX {
        u64::MAX
    } else {
        (a + b) as u64
    }
}

/// The sum of two numbers, or the greatest number where it does not fit.
pub open spec fn sum32(a: u32, b: u32) -> u32 {
    if a + b > u32::MAX {
        u32::MAX
    } else {
        (a + b) as u32
    }
}

// ── Order ────────────────────────────────────────────────────────────────────

/// Whether `a` comes before `b` in the lexicographic order of bytes, or is equal to it.
pub open spec fn bytes_le(a: Seq<u8>, b: Seq<u8>) -> bool
    decreases a.len(),
{
    if a.len() == 0 {
        true
    } else if b.len() == 0 {
        false
    } else {
        a[0] < b[0] || (a[0] == b[0] && bytes_le(a.skip(1), b.skip(1)))
    }
}

/// Any two byte strings can be compared.
pub proof fn lemma_le_total(a: Seq<u8>, b: Seq<u8>)
    ensures
        bytes_le(a, b) || bytes_le(b, a),
    decreases a.len(),
{
    if a.len() > 0 && b.len() > 0 {
        lemma_le_total(a.skip(1), b.skip(1));
    }
}

/// Only equal byte strings come before each other.
pub proof fn lemma_le_antisymmetric(a: Seq<u8>, b: Seq<u8>)
    requires
        bytes_le(a, b),
        bytes_le(b, a),
    ensures
        a == b,
    decreases a.len(),
{
    if a.len() > 0 && b.len() > 0 {
        lemma_le_antisymmetric(a.skip(1), b.skip(1));
        assert(a =~= seq![a[0]] + a.skip(1));
        assert(b =~= seq![b[0]] + b.skip(1));
    } else {
        assert(a =~= b);
    }
}

pub proof fn lemma_le_transitive(a: Seq<u8>, b: Seq<u8>, c: Seq<u8>)
    requires
        bytes_le(a, b),
        bytes_le(b, c),
    ensures
        bytes_le(a, c),
    decreases a.len(),
{
    if a.len() > 0 && b.len() > 0 && c.len() > 0 {
        if a[0] == b[0] && b[0] == c[0] {
            lemma_le_transitive(a.skip(1), b.skip(1), c.skip(1));
        }
    }
}

/// How two byte strings compare.
#[derive(Clone, Copy, PartialEq, Eq, Structural)]
pub enum Rank {
    Before,
    Same,
    Behind,
}

/// Compares two byte strings in lexicographic order.
pub fn rank(a: &[u8], b: &[u8]) -> (r: Rank)
    ensures
        match r {
            Rank::Before => bytes_le(a@, b@) && a@ != b@,
            Rank::Same => a@ == b@,
            Rank::Behind => bytes_le(b@, a@) && a@ != b@,
        },
{
    let mut i: usize = 0;
    assert(a@.skip(0) =~= a@);
    assert(b@.skip(0) =~= b@);
    while i < a.len() && i < b.len()
        invariant
            i <= a@.len(),
            i <= b@.len(),
            forall|k: int| 0 <= k < i ==> a@[k] == b@[k],
            bytes_le(a@, b@) == bytes_le(a@.skip(i as int), b@.skip(i as int)),
            bytes_le(b@, a@) == bytes_le(b@.skip(i as int), a@.skip(i as int)),
        decreases a@.len() - i,
    {
        proof {
            assert(a@.skip(i as int).skip(1) =~= a@.skip(i + 1));
            assert(b@.skip(i as int).skip(1) =~= b@.skip(i + 1));
        }
        if a[i] < b[i] {
            return Rank::Before;
        }
        if a[i] > b[i] {
            return Rank::Behind;
        }
        i = i + 1;
    }
    if i < b.len() {
        Rank::Before
    } else if i < a.len() {
        Rank::Behind
    } else {
        assert(a@ =~= b@);
        Rank::Same
    }
}

// ── Reading back what was written ────────────────────────────────────────────

/// A 32-bit number written least significant byte first reads back as itself.
pub proof fn lemma_le32_round_trip(n: int, s: Seq<u8>, i: int)
    requires
        0 <= n < 0x1_0000_0000,
        0 <= i,
        i + 4 <= s.len(),
        s.subrange(i, i + 4) == le32_bytes(n),
    ensures
        le32(s, i) == n,
{
    reveal(byte_of);
    let w = s.subrange(i, i + 4);
    assert(w[0] == s[i] && w[1] == s[i + 1] && w[2] == s[i + 2] && w[3] == s[i + 3]);
}

/// A 64-bit number written least significant byte first reads back as itself.
pub proof fn lemma_le64_round_trip(n: int, s: Seq<u8>, i: int)
    requires
        0 <= n < 0x1_0000_0000_0000_0000,
        0 <= i,
        i + 8 <= s.len(),
        s.subrange(i, i + 8) == le64_bytes(n),
    ensures
        le64(s, i) == n,
{
    let w = s.subrange(i, i + 8);
    let lo = n % 0x1_0000_0000;
    let hi = n / 0x1_0000_0000;
    assert(s.subrange(i, i + 4) =~= w.subrange(0, 4));
    assert(w.subrange(0, 4) =~= le32_bytes(n));
    assert(le32_bytes(n) == le32_bytes(lo));
    lemma_le32_round_trip(lo, s, i);
    assert(s.subrange(i + 4, i + 8) =~= w.subrange(4, 8));
    assert(w.subrange(4, 8) =~= le32_bytes(hi));
    lemma_le32_round_trip(hi, s, i + 4);
}

/// A 32-bit number written most significant byte first reads back as itself.
pub proof fn lemma_be32_round_trip(n: int, s: Seq<u8>, i: int)
    requires
        0 <= n < 0x1_0000_0000,
        0 <= i,
        i + 4 <= s.len(),
        s.subrange(i, i + 4) == be32(n),
    ensures
        be32_at(s, i) == n,
{
    reveal(byte_of);
    let w = s.subrange(i, i + 4);
    assert(w[0] == s[i] && w[1] == s[i + 1] && w[2] == s[i + 2] && w[3] == s[i + 3]);
}

} // verus!
