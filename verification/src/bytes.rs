//! Byte-sequence vocabulary shared by every format in the crate: big- and
//! little-endian integers, in-place writes and comparisons.
use vstd::prelude::*;

verus! {

/// The two bytes of `x`, most significant first.
pub open spec fn be16_bytes(x: u16) -> Seq<u8> {
    seq![(x / 256) as u8, (x % 256) as u8]
}

/// The four bytes of `x`, most significant first.
pub open spec fn be32_bytes(x: u32) -> Seq<u8> {
    seq![
        (x / 0x100_0000) as u8,
        (x / 0x1_0000 % 256) as u8,
        (x / 0x100 % 256) as u8,
        (x % 256) as u8,
    ]
}

/// The number whose big-endian bytes are `s[i], s[i + 1]`.
pub open spec fn be16_at(s: Seq<u8>, i: int) -> int {
    s[i] * 256 + s[i + 1]
}

/// The number whose big-endian bytes are `s[i] .. s[i + 3]`.
pub open spec fn be32_at(s: Seq<u8>, i: int) -> int {
    s[i] * 0x100_0000 + s[i + 1] * 0x1_0000 + s[i + 2] * 0x100 + s[i + 3]
}

/// The two bytes of `x`, least significant first.
pub open spec fn le16_bytes(x: u16) -> Seq<u8> {
    seq![(x % 256) as u8, (x / 256) as u8]
}

/// The four bytes of `x`, least significant first.
pub open spec fn le32_bytes(x: u32) -> Seq<u8> {
    seq![
        (x % 256) as u8,
        (x / 0x100 % 256) as u8,
        (x / 0x1_0000 % 256) as u8,
        (x / 0x100_0000) as u8,
    ]
}

/// The eight bytes of `x`, least significant first.
pub open spec fn le64_bytes(x: u64) -> Seq<u8> {
    seq![
        (x % 256) as u8,
        (x / 0x100 % 256) as u8,
        (x / 0x1_0000 % 256) as u8,
        (x / 0x100_0000 % 256) as u8,
        (x / 0x1_0000_0000 % 256) as u8,
        (x / 0x100_0000_0000 % 256) as u8,
        (x / 0x1_0000_0000_0000 % 256) as u8,
        (x / 0x100_0000_0000_0000) as u8,
    ]
}

/// The number whose little-endian bytes are `s[i], s[i + 1]`.
pub open spec fn le16_at(s: Seq<u8>, i: int) -> int {
    s[i] + s[i + 1] * 256
}

/// The number whose little-endian bytes are `s[i] .. s[i + 3]`.
pub open spec fn le32_at(s: Seq<u8>, i: int) -> int {
    s[i] + s[i + 1] * 0x100 + s[i + 2] * 0x1_0000 + s[i + 3] * 0x100_0000
}

/// The number whose little-endian bytes are `s[i] .. s[i + 7]`.
pub open spec fn le64_at(s: Seq<u8>, i: int) -> int {
    le32_at(s, i) + le32_at(s, i + 4) * 0x1_0000_0000
}

/// `s` with `part` written over the bytes that start at `at`.
pub open spec fn splice(s: Seq<u8>, at: int, part: Seq<u8>) -> Seq<u8> {
    Seq::new(
        s.len(),
        |i: int|
            if at <= i < at + part.len() {
                part[i - at]
            } else {
                s[i]
            },
    )
}

/// `n` zero bytes.
pub open spec fn zeros(n: nat) -> Seq<u8> {
    Seq::new(n, |i: int| 0u8)
}

pub(crate) fn get_be16(s: &[u8], i: usize) -> (r: u16)
    requires
        i + 2 <= s.len(),
    ensures
        r == be16_at(s@, i as int),
{
    (s[i] as u16) * 256 + (s[i + 1] as u16)
}

pub(crate) fn get_be32(s: &[u8], i: usize) -> (r: u32)
    requires
        i + 4 <= s.len(),
    ensures
        r == be32_at(s@, i as int),
{
    (s[i] as u32) * 0x100_0000 + (s[i + 1] as u32) * 0x1_0000 + (s[i + 2] as u32) * 0x100 + (s[i
        + 3] as u32)
}

pub(crate) fn get_le16(s: &[u8], i: usize) -> (r: u16)
    requires
        i + 2 <= s.len(),
    ensures
        r == le16_at(s@, i as int),
{
    (s[i] as u16) + (s[i + 1] as u16) * 256
}

pub(crate) fn get_le32(s: &[u8], i: usize) -> (r: u32)
    requires
        i + 4 <= s.len(),
    ensures
        r == le32_at(s@, i as int),
{
    (s[i] as u32) + (s[i + 1] as u32) * 0x100 + (s[i + 2] as u32) * 0x1_0000 + (s[i + 3] as u32)
        * 0x100_0000
}

pub(crate) fn get_le64(s: &[u8], i: usize) -> (r: u64)
    requires
        i + 8 <= s.len(),
    ensures
        r == le64_at(s@, i as int),
{
    let low: u64 = get_le32(s, i) as u64;
    let high: u64 = get_le32(s, i + 4) as u64;
    low + high * 0x1_0000_0000
}

pub(crate) fn push_be16(v: &mut Vec<u8>, x: u16)
    ensures
        final(v)@ == old(v)@ + be16_bytes(x),
{
    v.push((x / 256) as u8);
    v.push((x % 256) as u8);
    assert(v@ =~= old(v)@ + be16_bytes(x));
}

pub(crate) fn push_be32(v: &mut Vec<u8>, x: u32)
    ensures
        final(v)@ == old(v)@ + be32_bytes(x),
{
    v.push((x / 0x100_0000) as u8);
    v.push((x / 0x1_0000 % 256) as u8);
    v.push((x / 0x100 % 256) as u8);
    v.push((x % 256) as u8);
    assert(v@ =~= old(v)@ + be32_bytes(x));
}

pub(crate) fn push_le16(v: &mut Vec<u8>, x: u16)
    ensures
        final(v)@ == old(v)@ + le16_bytes(x),
{
    v.push((x % 256) as u8);
    v.push((x / 256) as u8);
    assert(v@ =~= old(v)@ + le16_bytes(x));
}

pub(crate) fn push_le32(v: &mut Vec<u8>, x: u32)
    ensures
        final(v)@ == old(v)@ + le32_bytes(x),
{
    v.push((x % 256) as u8);
    v.push((x / 0x100 % 256) as u8);
    v.push((x / 0x1_0000 % 256) as u8);
    v.push((x / 0x100_0000) as u8);
    assert(v@ =~= old(v)@ + le32_bytes(x));
}

pub(crate) fn push_le64(v: &mut Vec<u8>, x: u64)
    ensures
        final(v)@ == old(v)@ + le64_bytes(x),
{
    v.push((x % 256) as u8);
    v.push((x / 0x100 % 256) as u8);
    v.push((x / 0x1_0000 % 256) as u8);
    v.push((x / 0x100_0000 % 256) as u8);
    v.push((x / 0x1_0000_0000 % 256) as u8);
    v.push((x / 0x100_0000_0000 % 256) as u8);
    v.push((x / 0x1_0000_0000_0000 % 256) as u8);
    v.push((x / 0x100_0000_0000_0000) as u8);
    assert(v@ =~= old(v)@ + le64_bytes(x));
}

pub(crate) fn push_all(v: &mut Vec<u8>, part: &[u8])
    ensures
        final(v)@ == old(v)@ + part@,
{
    v.extend_from_slice(part);
    assert(v@ =~= old(v)@ + part@);
}

pub(crate) fn push_zeros(v: &mut Vec<u8>, n: usize)
    requires
        old(v).len() + n <= usize::MAX,
    ensures
        final(v)@ == old(v)@ + zeros(n as nat),
{
    let len: usize = v.len() + n;
    v.resize(len, 0u8);
    assert(v@ =~= old(v)@ + zeros(n as nat));
}

/// Overwrites the bytes of `s` that start at `at` with `part`.
pub(crate) fn put(s: &mut [u8], at: usize, part: &[u8])
    requires
        at + part.len() <= old(s).len(),
    ensures
        final(s)@ == splice(old(s)@, at as int, part@),
{
    let mut i: usize = 0;
    while i < part.len()
        invariant
            i <= part.len(),
            at + part.len() <= old(s).len(),
            s@ == splice(old(s)@, at as int, part@.take(i as int)),
            s.len() == old(s).len(),
        decreases part.len() - i,
    {
        s[at + i] = part[i];
        i += 1;
        assert(s@ =~= splice(old(s)@, at as int, part@.take(i as int)));
    }
    assert(part@.take(i as int) =~= part@);
}

/// Overwrites the bytes of `v` that start at `at` with `part`.
pub(crate) fn put_vec(v: &mut Vec<u8>, at: usize, part: &[u8])
    requires
        at + part.len() <= old(v).len(),
    ensures
        final(v)@ == splice(old(v)@, at as int, part@),
{
    let mut i: usize = 0;
    while i < part.len()
        invariant
            i <= part.len(),
            at + part.len() <= old(v).len(),
            v@ == splice(old(v)@, at as int, part@.take(i as int)),
            v.len() == old(v).len(),
        decreases part.len() - i,
    {
        v[at + i] = part[i];
        i += 1;
        assert(v@ =~= splice(old(v)@, at as int, part@.take(i as int)));
    }
    assert(part@.take(i as int) =~= part@);
}

pub(crate) fn bytes_equal(a: &[u8], b: &[u8]) -> (r: bool)
    ensures
        r == (a@ == b@),
{
    if a.len() != b.len() {
        return false;
    }
    let mut i: usize = 0;
    while i < a.len()
        invariant
            i <= a.len(),
            a.len() == b.len(),
            forall|k: int| 0 <= k < i ==> a@[k] == b@[k],
        decreases a.len() - i,
    {
        if a[i] != b[i] {
            assert(a@[i as int] != b@[i as int]);
            return false;
        }
        i += 1;
    }
    assert(a@ =~= b@);
    true
}

/// Whether the bytes of `s` that start at `at` are exactly `part`.
pub(crate) fn holds_at(s: &[u8], at: usize, part: &[u8]) -> (r: bool)
    requires
        at + part.len() <= s.len(),
    ensures
        r == (s@.subrange(at as int, at + part.len()) == part@),
{
    bytes_equal(vstd::slice::slice_subrange(s, at, at + part.len()), part)
}

pub(crate) fn array4_at(s: &[u8], at: usize) -> (r: [u8; 4])
    requires
        at + 4 <= s.len(),
    ensures
        r@ == s@.subrange(at as int, at + 4),
{
    let r = [s[at], s[at + 1], s[at + 2], s[at + 3]];
    assert(r@ =~= s@.subrange(at as int, at + 4));
    r
}

pub(crate) fn array6_at(s: &[u8], at: usize) -> (r: [u8; 6])
    requires
        at + 6 <= s.len(),
    ensures
        r@ == s@.subrange(at as int, at + 6),
{
    let r = [s[at], s[at + 1], s[at + 2], s[at + 3], s[at + 4], s[at + 5]];
    assert(r@ =~= s@.subrange(at as int, at + 6));
    r
}

/// Bytes `from .. to` of `s` as a vector.
pub(crate) fn copy_range(s: &[u8], from: usize, to: usize) -> (r: Vec<u8>)
    requires
        from <= to <= s.len(),
    ensures
        r@ == s@.subrange(from as int, to as int),
{
    vstd::slice::slice_to_vec(vstd::slice::slice_subrange(s, from, to))
}

/// The first `n` bytes of `v` leave it and are returned.
pub(crate) fn drain_front(v: &mut Vec<u8>, n: usize) -> (r: Vec<u8>)
    requires
        n <= old(v).len(),
    ensures
        r@ == old(v)@.take(n as int),
        final(v)@ == old(v)@.skip(n as int),
{
    let mut rest = v.split_off(n);
    let mut head: Vec<u8> = Vec::new();
    core::mem::swap(v, &mut head);
    core::mem::swap(v, &mut rest);
    assert(head@ =~= old(v)@.take(n as int));
    assert(v@ =~= old(v)@.skip(n as int));
    head
}

/// Reading back a big-endian integer gives the integer written.
pub proof fn be_round_trip(a: Seq<u8>, b: Seq<u8>, x: u16, y: u32)
    ensures
        be16_at(a + be16_bytes(x) + b, a.len() as int) == x,
        be32_at(a + be32_bytes(y) + b, a.len() as int) == y,
{
}

proof fn lemma_div_twice(z: int, d: int)
    requires
        z >= 0,
        d > 0,
    ensures
        z / d == 256 * (z / (d * 256)) + (z / d) % 256,
{
    vstd::arithmetic::div_mod::lemma_div_denominator(z, d, 256);
}

proof fn lemma_le64_digits(z: u64)
    ensures
        z == (z % 256) + (z / 0x100 % 256) * 0x100 + (z / 0x1_0000 % 256) * 0x1_0000 + (z
            / 0x100_0000 % 256) * 0x100_0000 + (z / 0x1_0000_0000 % 256) * 0x1_0000_0000 + (z
            / 0x100_0000_0000 % 256) * 0x100_0000_0000 + (z / 0x1_0000_0000_0000 % 256)
            * 0x1_0000_0000_0000 + (z / 0x100_0000_0000_0000) * 0x100_0000_0000_0000,
        z / 0x100_0000_0000_0000 < 256,
{
    lemma_div_twice(z as int, 0x100);
    lemma_div_twice(z as int, 0x1_0000);
    lemma_div_twice(z as int, 0x100_0000);
    lemma_div_twice(z as int, 0x1_0000_0000);
    lemma_div_twice(z as int, 0x100_0000_0000);
    lemma_div_twice(z as int, 0x1_0000_0000_0000);
}

/// Reading back a little-endian integer gives the integer written.
pub proof fn le_round_trip(a: Seq<u8>, b: Seq<u8>, x: u16, y: u32, z: u64)
    ensures
        le16_at(a + le16_bytes(x) + b, a.len() as int) == x,
        le32_at(a + le32_bytes(y) + b, a.len() as int) == y,
        le64_at(a + le64_bytes(z) + b, a.len() as int) == z,
{
    lemma_le64_digits(z);
    let s = a + le64_bytes(z) + b;
    let n = a.len() as int;
    assert(forall|k: int| 0 <= k < 8 ==> s[n + k] == #[trigger] le64_bytes(z)[k]);
    assert(s[n + 0] == le64_bytes(z)[0] && s[n + 1] == le64_bytes(z)[1] && s[n + 2] == le64_bytes(
        z,
    )[2] && s[n + 3] == le64_bytes(z)[3] && s[n + 4] == le64_bytes(z)[4] && s[n + 5]
        == le64_bytes(z)[5] && s[n + 6] == le64_bytes(z)[6] && s[n + 7] == le64_bytes(z)[7]);
}

} // verus!
