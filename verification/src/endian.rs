//! Big-endian integers, as every on-disk format of the engine writes them.

use vstd::prelude::*;

verus! {

/// The four bytes of `x`, most significant first.
#[verifier::opaque]
pub open spec fn be32(x: u32) -> Seq<u8> {
    seq![
        (x / 0x100_0000) as u8,
        ((x / 0x1_0000) % 0x100) as u8,
        ((x / 0x100) % 0x100) as u8,
        (x % 0x100) as u8,
    ]
}

/// The integer whose big-endian bytes are the four bytes of `s`.
#[verifier::opaque]
pub open spec fn from_be32(s: Seq<u8>) -> u32
    recommends
        s.len() == 4,
{
    (s[0] as int * 0x100_0000 + s[1] as int * 0x1_0000 + s[2] as int * 0x100 + s[3] as int) as u32
}

/// The eight bytes of `x`, most significant first.
#[verifier::opaque]
pub open spec fn be64(x: u64) -> Seq<u8> {
    be32((x / 0x1_0000_0000) as u32) + be32((x % 0x1_0000_0000) as u32)
}

/// The integer whose big-endian bytes are the eight bytes of `s`.
#[verifier::opaque]
pub open spec fn from_be64(s: Seq<u8>) -> u64
    recommends
        s.len() == 8,
{
    (from_be32(s.subrange(0, 4)) as int * 0x1_0000_0000 + from_be32(s.subrange(4, 8)) as int) as u64
}

/// An encoding has four bytes, and decoding undoes it.
pub proof fn lemma_be32(x: u32)
    ensures
        be32(x).len() == 4,
        from_be32(be32(x)) == x,
{
    reveal(be32);
    reveal(from_be32);
}

/// An encoding with one byte changed decodes to another integer.
pub proof fn lemma_be32_changed(x: u32, i: int, byte: u8)
    requires
        0 <= i < 4,
        byte != be32(x)[i],
    ensures
        from_be32(be32(x).update(i, byte)) != x,
{
    lemma_be32(x);
    reveal(from_be32);
    let s = be32(x);
    let t = s.update(i, byte);
    assert(from_be32(s) == x);
    if i == 0 {
        assert(t[1] == s[1] && t[2] == s[2] && t[3] == s[3]);
    } else if i == 1 {
        assert(t[0] == s[0] && t[2] == s[2] && t[3] == s[3]);
    } else if i == 2 {
        assert(t[0] == s[0] && t[1] == s[1] && t[3] == s[3]);
    } else {
        assert(t[0] == s[0] && t[1] == s[1] && t[2] == s[2]);
    }
}

/// An encoding has eight bytes, and decoding undoes it.
pub proof fn lemma_be64(x: u64)
    ensures
        be64(x).len() == 8,
        from_be64(be64(x)) == x,
{
    reveal(be64);
    reveal(from_be64);
    let hi = (x / 0x1_0000_0000) as u32;
    let lo = (x % 0x1_0000_0000) as u32;
    lemma_be32(hi);
    lemma_be32(lo);
    assert(be64(x).subrange(0, 4) =~= be32(hi));
    assert(be64(x).subrange(4, 8) =~= be32(lo));
}

/// Appends the big-endian bytes of `x` to `out`.
pub fn push_be32(out: &mut Vec<u8>, x: u32)
    ensures
        final(out)@ == old(out)@ + be32(x),
{
    out.push((x / 0x100_0000) as u8);
    out.push(((x / 0x1_0000) % 0x100) as u8);
    out.push(((x / 0x100) % 0x100) as u8);
    out.push((x % 0x100) as u8);
    proof {
        reveal(be32);
        assert(out@ =~= old(out)@ + be32(x));
    }
}

/// Appends the big-endian bytes of `x` to `out`.
pub fn push_be64(out: &mut Vec<u8>, x: u64)
    ensures
        final(out)@ == old(out)@ + be64(x),
{
    push_be32(out, (x / 0x1_0000_0000) as u32);
    push_be32(out, (x % 0x1_0000_0000) as u32);
    proof {
        reveal(be64);
        assert(out@ =~= old(out)@ + be64(x));
    }
}

/// Reads the big-endian integer held by the four bytes of `b` from `pos` on.
pub fn read_be32(b: &[u8], pos: usize) -> (x: u32)
    requires
        pos + 4 <= b@.len(),
    ensures
        x == from_be32(b@.subrange(pos as int, pos + 4)),
{
    let n: usize = b.len();
    assert(pos + 4 <= n);
    let b0: u32 = b[pos] as u32;
    let b1: u32 = b[pos + 1] as u32;
    let b2: u32 = b[pos + 2] as u32;
    let b3: u32 = b[pos + 3] as u32;
    proof {
        reveal(from_be32);
    }
    b0 * 0x100_0000 + b1 * 0x1_0000 + b2 * 0x100 + b3
}

/// Reads the big-endian integer held by the eight bytes of `b` from `pos` on.
pub fn read_be64(b: &[u8], pos: usize) -> (x: u64)
    requires
        pos + 8 <= b@.len(),
    ensures
        x == from_be64(b@.subrange(pos as int, pos + 8)),
{
    let n: usize = b.len();
    assert(pos + 8 <= n);
    let hi: u64 = read_be32(b, pos) as u64;
    let lo: u64 = read_be32(b, pos + 4) as u64;
    proof {
        reveal(from_be64);
        let s = b@.subrange(pos as int, pos + 8);
        assert(s.subrange(0, 4) =~= b@.subrange(pos as int, pos + 4));
        assert(s.subrange(4, 8) =~= b@.subrange(pos + 4, pos + 8));
    }
    hi * 0x1_0000_0000 + lo
}

} // verus!
