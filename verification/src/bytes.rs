//! Big-endian byte helpers shared by the frame, ARP, IPv4 and UDP codecs.
use vstd::prelude::*;

verus! {

/// The value of a big-endian 16-bit word made of `hi` and `lo`.
pub open spec fn be16(hi: u8, lo: u8) -> int {
    hi as int * 256 + lo as int
}

/// The two big-endian bytes of a 16-bit value.
pub open spec fn u16_be_bytes(x: u16) -> Seq<u8> {
    seq![(x / 256) as u8, (x % 256) as u8]
}

/// The four big-endian bytes of a 32-bit value.
pub open spec fn u32_be_bytes(x: u32) -> Seq<u8> {
    seq![
        (x / 0x100_0000) as u8,
        ((x / 0x1_0000) % 256) as u8,
        ((x / 256) % 256) as u8,
        (x % 256) as u8,
    ]
}

/// The value of four big-endian bytes.
pub open spec fn be32(b0: u8, b1: u8, b2: u8, b3: u8) -> int {
    b0 as int * 0x100_0000 + b1 as int * 0x1_0000 + b2 as int * 256 + b3 as int
}

/// Reads the big-endian 16-bit word at `data[i..i + 2]`.
pub fn read_u16_be(data: &[u8], i: usize) -> (r: u16)
    requires
        i + 2 <= data@.len(),
    ensures
        r as int == be16(data@[i as int], data@[i + 1]),
{
    let hi: u16 = data[i] as u16;
    let lo: u16 = data[i + 1] as u16;
    hi * 256 + lo
}

/// Reads the big-endian 32-bit word at `data[i..i + 4]`.
pub fn read_u32_be(data: &[u8], i: usize) -> (r: u32)
    requires
        i + 4 <= data@.len(),
    ensures
        r as int == be32(data@[i as int], data@[i + 1], data@[i + 2], data@[i + 3]),
{
    let b0: u32 = data[i] as u32;
    let b1: u32 = data[i + 1] as u32;
    let b2: u32 = data[i + 2] as u32;
    let b3: u32 = data[i + 3] as u32;
    b0 * 0x100_0000 + b1 * 0x1_0000 + b2 * 256 + b3
}

/// Appends the big-endian bytes of `x`.
pub fn push_u16_be(v: &mut Vec<u8>, x: u16)
    ensures
        final(v)@ == old(v)@ + u16_be_bytes(x),
{
    v.push((x / 256) as u8);
    v.push((x % 256) as u8);
    assert(final(v)@ =~= old(v)@ + u16_be_bytes(x));
}

/// Appends the big-endian bytes of `x`.
pub fn push_u32_be(v: &mut Vec<u8>, x: u32)
    ensures
        final(v)@ == old(v)@ + u32_be_bytes(x),
{
    v.push((x / 0x100_0000) as u8);
    v.push(((x / 0x1_0000) % 256) as u8);
    v.push(((x / 256) % 256) as u8);
    v.push((x % 256) as u8);
    assert(final(v)@ =~= old(v)@ + u32_be_bytes(x));
}

/// Appends every byte of `s`.
pub fn append_bytes(v: &mut Vec<u8>, s: &[u8])
    ensures
        final(v)@ == old(v)@ + s@,
{
    let ghost start = v@;
    let n: usize = s.len();
    let mut i: usize = 0;
    while i < n
        invariant
            n == s@.len(),
            i <= n,
            v@ == start + s@.subrange(0, i as int),
        decreases n - i,
    {
        v.push(s[i]);
        i = i + 1;
        assert(v@ =~= start + s@.subrange(0, i as int));
    }
    assert(s@.subrange(0, n as int) =~= s@);
}

/// Appends `count` zero bytes.
pub fn push_zeros(v: &mut Vec<u8>, count: usize)
    ensures
        final(v)@ == old(v)@ + Seq::new(count as nat, |_i: int| 0u8),
{
    let ghost start = v@;
    let mut i: usize = 0;
    while i < count
        invariant
            i <= count,
            v@ == start + Seq::new(i as nat, |_i: int| 0u8),
        decreases count - i,
    {
        v.push(0u8);
        i = i + 1;
        assert(v@ =~= start + Seq::new(i as nat, |_i: int| 0u8));
    }
}

/// A copy of `s` as an owned vector.
pub fn bytes_to_vec(s: &[u8]) -> (r: Vec<u8>)
    ensures
        r@ == s@,
{
    let mut v: Vec<u8> = Vec::new();
    append_bytes(&mut v, s);
    assert(v@ =~= s@);
    v
}

/// Whether `a` and `b` hold the same bytes.
pub fn bytes_equal(a: &[u8], b: &[u8]) -> (r: bool)
    ensures
        r == (a@ == b@),
{
    if a.len() != b.len() {
        return false;
    }
    let n: usize = a.len();
    let mut i: usize = 0;
    while i < n
        invariant
            n == a@.len(),
            n == b@.len(),
            i <= n,
            forall|j: int| 0 <= j < i ==> a@[j] == b@[j],
        decreases n - i,
    {
        if a[i] != b[i] {
            return false;
        }
        i = i + 1;
    }
    assert(a@ =~= b@);
    true
}

/// Overwrites `v[i..i + 2]` with the big-endian bytes of `x`.
pub fn set_u16_be(v: &mut Vec<u8>, i: usize, x: u16)
    requires
        i < old(v).len(),
        i + 2 <= old(v)@.len(),
    ensures
        final(v)@ == old(v)@.update(i as int, (x / 256) as u8).update(i + 1, (x % 256) as u8),
{
    let j: usize = i + 1;
    v.set(i, (x / 256) as u8);
    v.set(j, (x % 256) as u8);
}

} // verus!
