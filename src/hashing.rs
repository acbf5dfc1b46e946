//! The extendable-output hash and the byte encodings fed into it.

use vstd::prelude::*;

verus! {

/// The first `len` bytes of the BLAKE3 extendable output for `input`.
pub uninterp spec fn blake3_xof(input: Seq<u8>, len: nat) -> Seq<u8>;

/// Relies on blake3's `Hasher::update` then `finalize_xof().fill`: the
/// buffer is filled with the first `len` bytes of the output for `input`,
/// which depend on the input alone.
#[verifier::external_body]
pub(crate) fn xof(input: &Vec<u8>, len: usize) -> (r: Vec<u8>)
    ensures
        r@ == blake3_xof(input@, len as nat),
        r@.len() == len,
{
    let mut out = vec![0u8; len];
    let mut hasher = blake3::Hasher::new();
    hasher.update(input);
    hasher.finalize_xof().fill(&mut out);
    out
}

/// The `n` low bytes of `x`, least significant first.
pub open spec fn le_bytes(x: nat, n: nat) -> Seq<u8>
    decreases n,
{
    if n == 0 {
        Seq::empty()
    } else {
        seq![(x % 256) as u8] + le_bytes(x / 256, (n - 1) as nat)
    }
}

/// The eight little-endian bytes of `x`.
pub fn le64(x: u64) -> (r: Vec<u8>)
    ensures
        r@ == le_bytes(x as nat, 8),
{
    let mut out: Vec<u8> = Vec::new();
    let mut rest: u64 = x;
    let mut i: u64 = 0;
    while i < 8
        invariant
            i <= 8,
            out@ + le_bytes(rest as nat, (8 - i) as nat) == le_bytes(x as nat, 8),
        decreases 8 - i,
    {
        let ghost before = out@;
        out.push((rest % 256) as u8);
        proof {
            let n = (8 - i) as nat;
            assert(le_bytes(rest as nat, n) == seq![(rest % 256) as u8] + le_bytes((rest / 256) as nat, (n - 1) as nat));
            assert(out@ + le_bytes((rest / 256) as nat, (n - 1) as nat) =~= before + le_bytes(rest as nat, n));
        }
        rest = rest / 256;
        i = i + 1;
    }
    proof {
        assert(le_bytes(rest as nat, 0) =~= Seq::<u8>::empty());
        assert(out@ + Seq::<u8>::empty() =~= out@);
    }
    out
}

/// Appends the bytes of `b` to `out`.
pub fn append_bytes(out: &mut Vec<u8>, b: &[u8])
    ensures
        final(out)@ == old(out)@ + b@,
{
    let mut i: usize = 0;
    while i < b.len()
        invariant
            i <= b@.len(),
            out@ == old(out)@ + b@.subrange(0, i as int),
        decreases b@.len() - i,
    {
        out.push(b[i]);
        proof {
            assert(b@.subrange(0, i + 1) =~= b@.subrange(0, i as int).push(b@[i as int]));
        }
        i = i + 1;
    }
    proof {
        assert(b@.subrange(0, b@.len() as int) =~= b@);
    }
}

} // verus!
