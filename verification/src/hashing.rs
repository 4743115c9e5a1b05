//! The hash primitive behind Merkle payout proofs, and the fixed-width
//! little-endian encoding used to form a claim's leaf bytes.

use vstd::prelude::*;

verus! {

/// The Blake2b-256 digest of a byte sequence, as the outside hash function
/// computes it; a pure function of the bytes alone.
pub uninterp spec fn blake2_256_of(bytes: Seq<u8>) -> Seq<u8>;

/// Relies on `sp_core_hashing::blake2_256` (Blake2b with a 256-bit output):
/// the digest depends on the input bytes alone.
#[verifier::external_body]
pub(crate) fn blake2_256(bytes: &Vec<u8>) -> (r: Vec<u8>)
    ensures
        r@ == blake2_256_of(bytes@),
{
    sp_core_hashing::blake2_256(bytes.as_slice()).to_vec()
}

/// The eight bytes of `x`, least significant first.
pub open spec fn u64_le_bytes(x: u64) -> Seq<u8> {
    seq![
        x as u8,
        (x >> 8) as u8,
        (x >> 16) as u8,
        (x >> 24) as u8,
        (x >> 32) as u8,
        (x >> 40) as u8,
        (x >> 48) as u8,
        (x >> 56) as u8,
    ]
}

/// Appends the eight little-endian bytes of `x` to `out`.
pub fn push_u64_le(out: &mut Vec<u8>, x: u64)
    ensures
        final(out)@ == old(out)@ + u64_le_bytes(x),
{
    out.push(#[verifier::truncate] (x as u8));
    out.push(#[verifier::truncate] ((x >> 8) as u8));
    out.push(#[verifier::truncate] ((x >> 16) as u8));
    out.push(#[verifier::truncate] ((x >> 24) as u8));
    out.push(#[verifier::truncate] ((x >> 32) as u8));
    out.push(#[verifier::truncate] ((x >> 40) as u8));
    out.push(#[verifier::truncate] ((x >> 48) as u8));
    out.push(#[verifier::truncate] ((x >> 56) as u8));
    proof {
        assert(out@ =~= old(out)@ + u64_le_bytes(x));
    }
}


/// Appends the contents of `other` to `out`.
pub fn append_bytes(out: &mut Vec<u8>, other: &Vec<u8>)
    ensures
        final(out)@ == old(out)@ + other@,
{
    proof {
        assert(old(out)@ + other@.take(0) =~= old(out)@);
    }
    let n = other.len();
    let mut i: usize = 0;
    while i < n
        invariant
            n == other@.len(),
            i <= n,
            out@ == old(out)@ + other@.take(i as int),
        decreases n - i,
    {
        out.push(other[i]);
        proof {
            assert((old(out)@ + other@.take(i as int)).push(other@[i as int]) =~= old(out)@
                + other@.take(i as int + 1));
        }
        i = i + 1;
    }
    proof {
        assert(old(out)@ + other@.take(n as int) =~= old(out)@ + other@);
    }
}

} // verus!
