//! Little-endian fields in byte sequences.
use vstd::prelude::*;

verus! {

/// The 16-bit little-endian number that starts at `at`.
pub open spec fn le16(s: Seq<u8>, at: int) -> u16 {
    (s[at] as int + 256 * s[at + 1] as int) as u16
}

/// The 32-bit little-endian number that starts at `at`.
pub open spec fn le32(s: Seq<u8>, at: int) -> u32 {
    (s[at] as int + 256 * s[at + 1] as int + 65536 * s[at + 2] as int + 16777216 * s[at
        + 3] as int) as u32
}

/// The 64-bit little-endian number that starts at `at`.
pub open spec fn le64(s: Seq<u8>, at: int) -> u64 {
    (le32(s, at) as int + 4294967296 * le32(s, at + 4) as int) as u64
}

/// The two bytes of `v`, least significant first.
pub open spec fn to_le16(v: u16) -> Seq<u8> {
    seq![(v % 256) as u8, (v / 256) as u8]
}

/// The four bytes of `v`, least significant first.
pub open spec fn to_le32(v: u32) -> Seq<u8> {
    seq![
        (v % 256) as u8,
        (v / 256 % 256) as u8,
        (v / 65536 % 256) as u8,
        (v / 16777216) as u8,
    ]
}

/// The eight bytes of `v`, least significant first.
pub open spec fn to_le64(v: u64) -> Seq<u8> {
    to_le32((v % 4294967296) as u32) + to_le32((v / 4294967296) as u32)
}

/// `s` with the bytes from `at` on replaced by `part`.
pub open spec fn splice(s: Seq<u8>, at: int, part: Seq<u8>) -> Seq<u8> {
    Seq::new(s.len(), |i: int| if at <= i < at + part.len() { part[i - at] } else { s[i] })
}

/// `n` zero bytes.
pub open spec fn zeros(n: nat) -> Seq<u8> {
    Seq::new(n, |i: int| 0u8)
}

/// Reading a 16-bit field back gives what was written.
pub proof fn lemma_le16_written(s: Seq<u8>, at: int, v: u16)
    requires
        0 <= at,
        at + 2 <= s.len(),
    ensures
        le16(splice(s, at, to_le16(v)), at) == v,
{
    let t = splice(s, at, to_le16(v));
    assert(t[at] == to_le16(v)[0] && t[at + 1] == to_le16(v)[1]);
}

/// Four bytes that are those of a number read as the number.
pub proof fn lemma_le32_of(s: Seq<u8>, at: int, v: u32)
    requires
        s[at] == to_le32(v)[0],
        s[at + 1] == to_le32(v)[1],
        s[at + 2] == to_le32(v)[2],
        s[at + 3] == to_le32(v)[3],
    ensures
        le32(s, at) == v,
{
    lemma_le32_digits(v);
}

/// Reading a 32-bit field back gives what was written.
pub proof fn lemma_le32_written(s: Seq<u8>, at: int, v: u32)
    requires
        0 <= at,
        at + 4 <= s.len(),
    ensures
        le32(splice(s, at, to_le32(v)), at) == v,
{
    let t = splice(s, at, to_le32(v));
    let p = to_le32(v);
    assert(t[at] == p[0] && t[at + 1] == p[1] && t[at + 2] == p[2] && t[at + 3] == p[3]);
    lemma_le32_digits(v);
}

proof fn lemma_le32_digits(v: u32)
    ensures
        v % 256 + 256 * (v / 256 % 256) + 65536 * (v / 65536 % 256) + 16777216 * (v / 16777216)
            == v,
{
    let a = v / 256;
    let b = a / 256;
    assert(b == v / 65536);
    assert(b / 256 == v / 16777216);
}

/// Writing a 16-bit field as it is changes nothing.
pub proof fn lemma_le16_rewritten(s: Seq<u8>, at: int, v: u16)
    requires
        0 <= at,
        at + 2 <= s.len(),
    ensures
        splice(splice(s, at, to_le16(v)), at, to_le16(le16(s, at))) == s,
{
    let n = le16(s, at);
    assert(n == s[at] + 256 * s[at + 1]);
    let p = to_le16(n);
    assert(p[0] == s[at] && p[1] == s[at + 1]);
    assert(splice(splice(s, at, to_le16(v)), at, p) =~= s);
}

proof fn lemma_digits(a: int, b: int, c: int, d: int)
    requires
        0 <= a < 256,
        0 <= b < 256,
        0 <= c < 256,
        0 <= d < 256,
    ensures
        ({
            let n = a + 256 * b + 65536 * c + 16777216 * d;
            n % 256 == a && n / 256 % 256 == b && n / 65536 % 256 == c && n / 16777216 == d
        }),
{
    let n = a + 256 * b + 65536 * c + 16777216 * d;
    let m = b + 256 * c + 65536 * d;
    let k = c + 256 * d;
    assert(n == 256 * m + a);
    assert(n / 256 == m);
    assert(m == 256 * k + b);
    assert(m / 256 == k);
    assert(n / 65536 == k) by {
        assert(n == 65536 * k + (256 * b + a));
    }
    assert(n / 16777216 == d) by {
        assert(n == 16777216 * d + (65536 * c + 256 * b + a));
    }
}

/// Writing a 32-bit field as it is changes nothing.
pub proof fn lemma_le32_rewritten(s: Seq<u8>, at: int, v: u32)
    requires
        0 <= at,
        at + 4 <= s.len(),
    ensures
        splice(splice(s, at, to_le32(v)), at, to_le32(le32(s, at))) == s,
{
    let n = le32(s, at);
    assert(n == s[at] + 256 * s[at + 1] + 65536 * s[at + 2] + 16777216 * s[at + 3]);
    let p = to_le32(n);
    lemma_digits(s[at] as int, s[at + 1] as int, s[at + 2] as int, s[at + 3] as int);
    assert(p[0] == s[at] && p[1] == s[at + 1] && p[2] == s[at + 2] && p[3] == s[at + 3]);
    let t = splice(s, at, to_le32(v));
    assert(t.len() == s.len());
    assert(splice(t, at, p) =~= s);
}

/// Eight bytes that are those of a number read as the number.
pub proof fn lemma_le64_of(s: Seq<u8>, at: int, v: u64)
    requires
        0 <= at,
        at + 8 <= s.len(),
        s.subrange(at, at + 8) == to_le64(v),
    ensures
        le64(s, at) == v,
{
    let lo = (v % 4294967296) as u32;
    let hi = (v / 4294967296) as u32;
    let p = s.subrange(at, at + 8);
    assert(p[0] == to_le32(lo)[0] && p[1] == to_le32(lo)[1] && p[2] == to_le32(lo)[2] && p[3]
        == to_le32(lo)[3]);
    assert(p[4] == to_le32(hi)[0] && p[5] == to_le32(hi)[1] && p[6] == to_le32(hi)[2] && p[7]
        == to_le32(hi)[3]);
    lemma_le32_of(s, at, lo);
    lemma_le32_of(s, at + 4, hi);
}

/// The 16-bit field at `at`.
pub fn get_u16(bytes: &[u8], at: usize) -> (v: u16)
    requires
        at + 2 <= bytes@.len(),
    ensures
        v == le16(bytes@, at as int),
{
    bytes[at] as u16 + 256 * bytes[at + 1] as u16
}

/// The 32-bit field at `at`.
pub fn get_u32(bytes: &[u8], at: usize) -> (v: u32)
    requires
        at + 4 <= bytes@.len(),
    ensures
        v == le32(bytes@, at as int),
{
    bytes[at] as u32 + 256 * bytes[at + 1] as u32 + 65536 * bytes[at + 2] as u32 + 16777216
        * bytes[at + 3] as u32
}

/// The 64-bit field at `at`.
pub fn get_u64(bytes: &[u8], at: usize) -> (v: u64)
    requires
        at + 8 <= bytes@.len(),
    ensures
        v == le64(bytes@, at as int),
{
    assert(bytes.len() <= usize::MAX);
    get_u32(bytes, at) as u64 + 4294967296 * get_u32(bytes, at + 4) as u64
}

/// Copies `part` over the bytes of `bytes` that start at `at`.
pub fn put_bytes(bytes: &mut [u8], at: usize, part: &[u8])
    requires
        at + part@.len() <= old(bytes)@.len(),
    ensures
        final(bytes)@ == splice(old(bytes)@, at as int, part@),
{
    let ghost s = bytes@;
    let len: usize = bytes.len();
    let mut i: usize = 0;
    while i < part.len()
        invariant
            len == s.len(),
            i <= part@.len(),
            bytes@.len() == s.len(),
            at + part@.len() <= s.len(),
            bytes@ == splice(s, at as int, part@.subrange(0, i as int)),
        decreases part@.len() - i,
    {
        bytes[at + i] = part[i];
        assert(bytes@ =~= splice(s, at as int, part@.subrange(0, i + 1)));
        i = i + 1;
    }
    assert(part@.subrange(0, part@.len() as int) =~= part@);
}

/// Writes `v` as a 16-bit field at `at`.
pub fn put_u16(bytes: &mut [u8], at: usize, v: u16)
    requires
        at + 2 <= old(bytes)@.len(),
    ensures
        final(bytes)@ == splice(old(bytes)@, at as int, to_le16(v)),
{
    let ghost s = bytes@;
    bytes[at] = (v % 256) as u8;
    bytes[at + 1] = (v / 256) as u8;
    assert(bytes@ =~= splice(s, at as int, to_le16(v)));
}

/// Writes `v` as a 32-bit field at `at`.
pub fn put_u32(bytes: &mut [u8], at: usize, v: u32)
    requires
        at + 4 <= old(bytes)@.len(),
    ensures
        final(bytes)@ == splice(old(bytes)@, at as int, to_le32(v)),
{
    let ghost s = bytes@;
    bytes[at] = (v % 256) as u8;
    bytes[at + 1] = (v / 256 % 256) as u8;
    bytes[at + 2] = (v / 65536 % 256) as u8;
    bytes[at + 3] = (v / 16777216) as u8;
    assert(bytes@ =~= splice(s, at as int, to_le32(v)));
}

/// Writes `v` as a 64-bit field at `at`.
pub fn put_u64(bytes: &mut [u8], at: usize, v: u64)
    requires
        at + 8 <= old(bytes)@.len(),
    ensures
        final(bytes)@ == splice(old(bytes)@, at as int, to_le64(v)),
{
    let ghost s = bytes@;
    assert(bytes.len() <= usize::MAX);
    put_u32(bytes, at, (v % 4294967296) as u32);
    put_u32(bytes, at + 4, (v / 4294967296) as u32);
    assert(bytes@ =~= splice(s, at as int, to_le64(v)));
}

/// Sets `count` bytes from `at` on to zero.
pub fn clear_bytes(bytes: &mut [u8], at: usize, count: usize)
    requires
        at + count <= old(bytes)@.len(),
    ensures
        final(bytes)@ == splice(old(bytes)@, at as int, zeros(count as nat)),
{
    let ghost s = bytes@;
    let len: usize = bytes.len();
    let mut i: usize = 0;
    while i < count
        invariant
            len == s.len(),
            i <= count,
            at + count <= s.len(),
            bytes@.len() == s.len(),
            bytes@ == splice(s, at as int, zeros(i as nat)),
        decreases count - i,
    {
        bytes[at + i] = 0;
        assert(bytes@ =~= splice(s, at as int, zeros((i + 1) as nat)));
        i = i + 1;
    }
}

/// Whether two byte strings are the same.
pub fn same_bytes(a: &[u8], b: &[u8]) -> (same: bool)
    ensures
        same == (a@ == b@),
{
    if a.len() != b.len() {
        return false;
    }
    let mut i: usize = 0;
    while i < a.len()
        invariant
            i <= a@.len(),
            a@.len() == b@.len(),
            forall|j: int| 0 <= j < i ==> a@[j] == b@[j],
        decreases a@.len() - i,
    {
        if a[i] != b[i] {
            assert(a@[i as int] != b@[i as int]);
            return false;
        }
        i = i + 1;
    }
    assert(a@ =~= b@);
    true
}

/// A copy of the bytes of `src` from `from` up to `to`.
pub fn copy_range(src: &[u8], from: usize, to: usize) -> (out: Vec<u8>)
    requires
        from <= to <= src@.len(),
    ensures
        out@ == src@.subrange(from as int, to as int),
{
    let mut out: Vec<u8> = Vec::new();
    let mut i: usize = from;
    while i < to
        invariant
            from <= i <= to <= src@.len(),
            out@ == src@.subrange(from as int, i as int),
        decreases to - i,
    {
        out.push(src[i]);
        assert(out@ =~= src@.subrange(from as int, i + 1));
        i = i + 1;
    }
    out
}

} // verus!
