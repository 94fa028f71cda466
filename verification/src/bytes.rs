use vstd::prelude::*;

verus! {

/// Big-endian value of two bytes.
pub open spec fn be16(b0: u8, b1: u8) -> u16 {
    (b0 * 0x100 + b1) as u16
}

/// Big-endian value of four bytes.
pub open spec fn be32(b0: u8, b1: u8, b2: u8, b3: u8) -> u32 {
    (b0 * 0x1000000 + b1 * 0x10000 + b2 * 0x100 + b3) as u32
}

/// The two big-endian bytes of a 16-bit value.
pub open spec fn u16_be_bytes(x: u16) -> Seq<u8> {
    seq![(x / 0x100) as u8, (x % 0x100) as u8]
}

/// The four big-endian bytes of a 32-bit value.
pub open spec fn u32_be_bytes(x: u32) -> Seq<u8> {
    seq![
        (x / 0x1000000) as u8,
        ((x / 0x10000) % 0x100) as u8,
        ((x / 0x100) % 0x100) as u8,
        (x % 0x100) as u8,
    ]
}

/// Reading back the two bytes of a 16-bit value gives the value.
pub proof fn lemma_be16_of_u16_be_bytes(x: u16)
    ensures
        be16(u16_be_bytes(x)[0], u16_be_bytes(x)[1]) == x,
{
    assert(((x / 0x100) as u8) * 0x100 + ((x % 0x100) as u8) == x) by (bit_vector);
}

/// Reading back the four bytes of a 32-bit value gives the value.
pub proof fn lemma_be32_of_u32_be_bytes(x: u32)
    ensures
        be32(u32_be_bytes(x)[0], u32_be_bytes(x)[1], u32_be_bytes(x)[2], u32_be_bytes(x)[3]) == x,
{
    assert(((x / 0x1000000) as u8) * 0x1000000 + (((x / 0x10000) % 0x100) as u8) * 0x10000 + (((x
        / 0x100) % 0x100) as u8) * 0x100 + ((x % 0x100) as u8) == x) by (bit_vector);
}

pub fn read_u16_be(s: &[u8], pos: usize) -> (x: u16)
    requires
        pos + 2 <= s@.len(),
    ensures
        x == be16(s@[pos as int], s@[pos + 1]),
{
    let b0 = s[pos];
    let b1 = s[pos + 1];
    proof {
        assert(b0 as u16 * 0x100 + b1 as u16 == (b0 * 0x100 + b1) as u16) by (bit_vector);
    }
    (b0 as u16) * 0x100 + (b1 as u16)
}

pub fn read_u32_be(s: &[u8], pos: usize) -> (x: u32)
    requires
        pos + 4 <= s@.len(),
    ensures
        x == be32(s@[pos as int], s@[pos + 1], s@[pos + 2], s@[pos + 3]),
{
    let b0 = s[pos];
    let b1 = s[pos + 1];
    let b2 = s[pos + 2];
    let b3 = s[pos + 3];
    proof {
        assert(b0 as u32 * 0x1000000 + b1 as u32 * 0x10000 + b2 as u32 * 0x100 + b3 as u32 == (b0
            * 0x1000000 + b1 * 0x10000 + b2 * 0x100 + b3) as u32) by (bit_vector);
    }
    (b0 as u32) * 0x1000000 + (b1 as u32) * 0x10000 + (b2 as u32) * 0x100 + (b3 as u32)
}

pub fn push_u16_be(out: &mut Vec<u8>, x: u16)
    ensures
        final(out)@ == old(out)@ + u16_be_bytes(x),
{
    let b0 = (x >> 8) as u8;
    let b1 = (x & 0xFF) as u8;
    proof {
        assert((x >> 8) as u8 == (x / 0x100) as u8 && (x & 0xFF) as u8 == (x % 0x100) as u8)
            by (bit_vector);
    }
    out.push(b0);
    out.push(b1);
    proof {
        assert(out@ =~= old(out)@ + u16_be_bytes(x));
    }
}

pub fn push_u32_be(out: &mut Vec<u8>, x: u32)
    ensures
        final(out)@ == old(out)@ + u32_be_bytes(x),
{
    let b0 = (x >> 24) as u8;
    let b1 = ((x >> 16) & 0xFF) as u8;
    let b2 = ((x >> 8) & 0xFF) as u8;
    let b3 = (x & 0xFF) as u8;
    proof {
        assert((x >> 24) as u8 == (x / 0x1000000) as u8 && ((x >> 16) & 0xFF) as u8 == ((x
            / 0x10000) % 0x100) as u8 && ((x >> 8) & 0xFF) as u8 == ((x / 0x100) % 0x100) as u8 && (
        x & 0xFF) as u8 == (x % 0x100) as u8) by (bit_vector);
    }
    out.push(b0);
    out.push(b1);
    out.push(b2);
    out.push(b3);
    proof {
        assert(out@ =~= old(out)@ + u32_be_bytes(x));
    }
}

/// Appends all bytes of a slice.
pub fn push_slice(out: &mut Vec<u8>, s: &[u8])
    ensures
        final(out)@ == old(out)@ + s@,
{
    let ghost pre = out@;
    let n = s.len();
    let mut i: usize = 0;
    while i < n
        invariant
            n == s@.len(),
            0 <= i <= n,
            out@ == pre + s@.subrange(0, i as int),
        decreases n - i,
    {
        out.push(s[i]);
        proof {
            assert(out@ =~= pre + s@.subrange(0, i + 1));
        }
        i = i + 1;
    }
    proof {
        assert(s@.subrange(0, n as int) =~= s@);
        assert(out@ =~= pre + s@);
    }
}

} // verus!
