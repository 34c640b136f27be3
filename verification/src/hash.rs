//! The hash primitive the digest pass plugs in: 64-bit FNV-1a.
//!
//! The tree core only needs a deterministic `hash(bytes) -> digest`
//! capability and a fixed combination rule for two child digests: hash the
//! left child's digest bytes followed by the right child's, big-endian,
//! with no separator.

use vstd::prelude::*;

verus! {

/// Offset basis of the 64-bit FNV-1a hash.
pub const FNV_OFFSET_BASIS: u64 = 0xcbf2_9ce4_8422_2325;

/// Prime of the 64-bit FNV-1a hash.
pub const FNV_PRIME: u64 = 0x0000_0100_0000_01b3;

/// One FNV-1a round: fold a byte in, then multiply modulo two to the 64th.
pub open spec fn fnv1a_step(h: u64, b: u8) -> u64 {
    vstd::wrapping::u64_specs::wrapping_mul(h ^ (b as u64), FNV_PRIME)
}

/// The 64-bit FNV-1a hash of a byte sequence, folded left to right.
pub open spec fn fnv1a(s: Seq<u8>) -> u64
    decreases s.len(),
{
    if s.len() == 0 {
        FNV_OFFSET_BASIS
    } else {
        fnv1a_step(fnv1a(s.drop_last()), s.last())
    }
}

/// Big-endian bytes of a 64-bit word, most significant first.
pub open spec fn spec_be_bytes(x: u64) -> Seq<u8> {
    seq![
        ((x >> 56) & 0xff) as u8,
        ((x >> 48) & 0xff) as u8,
        ((x >> 40) & 0xff) as u8,
        ((x >> 32) & 0xff) as u8,
        ((x >> 24) & 0xff) as u8,
        ((x >> 16) & 0xff) as u8,
        ((x >> 8) & 0xff) as u8,
        (x & 0xff) as u8,
    ]
}

/// Digest of an internal node from its children's digests: hash of the
/// left digest's bytes followed by the right digest's, left before right.
pub open spec fn spec_combine(l: u64, r: u64) -> u64 {
    fnv1a(spec_be_bytes(l) + spec_be_bytes(r))
}

/// Hashes a byte string with 64-bit FNV-1a.
pub fn hash_bytes(data: &Vec<u8>) -> (h: u64)
    ensures
        h == fnv1a(data@),
{
    let mut h: u64 = FNV_OFFSET_BASIS;
    let mut i: usize = 0;
    while i < data.len()
        invariant
            i <= data@.len(),
            h == fnv1a(data@.take(i as int)),
        decreases data@.len() - i,
    {
        proof {
            assert(data@.take(i as int + 1).drop_last() =~= data@.take(i as int));
        }
        h = (h ^ (data[i] as u64)).wrapping_mul(FNV_PRIME);
        i += 1;
    }
    proof {
        assert(data@.take(data@.len() as int) =~= data@);
    }
    h
}

/// Appends the big-endian bytes of `x`.
fn push_be_bytes(out: &mut Vec<u8>, x: u64)
    ensures
        final(out)@ == old(out)@ + spec_be_bytes(x),
{
    out.push(((x >> 56) & 0xff) as u8);
    out.push(((x >> 48) & 0xff) as u8);
    out.push(((x >> 40) & 0xff) as u8);
    out.push(((x >> 32) & 0xff) as u8);
    out.push(((x >> 24) & 0xff) as u8);
    out.push(((x >> 16) & 0xff) as u8);
    out.push(((x >> 8) & 0xff) as u8);
    out.push((x & 0xff) as u8);
    proof {
        assert(out@ =~= old(out)@ + spec_be_bytes(x));
    }
}

/// Combines two child digests into their parent's digest.
pub fn combine_digests(l: u64, r: u64) -> (d: u64)
    ensures
        d == spec_combine(l, r),
{
    let mut buf: Vec<u8> = Vec::new();
    push_be_bytes(&mut buf, l);
    push_be_bytes(&mut buf, r);
    proof {
        assert(buf@ =~= spec_be_bytes(l) + spec_be_bytes(r));
    }
    hash_bytes(&buf)
}

} // verus!
