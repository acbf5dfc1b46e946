//! Trustless setup: a negative prime discriminant derived from a seed.

use vstd::prelude::*;
use vstd::arithmetic::div_mod::lemma_fundamental_div_mod_converse;
use vstd::arithmetic::div_mod::lemma_fundamental_div_mod;
use crate::algebra::valid_disc;
use crate::bignum::{le_val, BigInt, BigNat};
use crate::error::HtpError;
use crate::hashing::{append_bytes, blake3_xof, le64, le_bytes, xof};
use crate::primes::{is_probable_prime, probable_prime, top_bit_candidate, with_bit, xof_len, xof_len_exec};

verus! {

/// Attempts at finding a discriminant for one seed.
pub const SETUP_MAX_ATTEMPTS: u64 = 10_000;

/// Miller-Rabin rounds for the discriminant.
pub const SETUP_ROUNDS: u64 = 30;

/// The candidate `m` at `attempt`: the hash of seed and attempt read as a
/// `bit_size`-bit number with its top bit set.
pub open spec fn setup_candidate(seed: Seq<u8>, bit_size: nat, attempt: nat) -> nat {
    let h = le_val(blake3_xof(seed + le_bytes(attempt, 8), xof_len(bit_size)));
    with_bit(h % vstd::arithmetic::power2::pow2(bit_size), (bit_size - 1) as nat)
}

pub open spec fn setup_accepts(m: nat) -> bool {
    m % 4 == 3 && probable_prime(m, SETUP_ROUNDS as nat)
}

/// The first accepted candidate from `attempt` on, within the budget.
pub open spec fn setup_search(seed: Seq<u8>, bit_size: nat, attempt: nat) -> Option<nat>
    decreases SETUP_MAX_ATTEMPTS - attempt,
{
    if attempt >= SETUP_MAX_ATTEMPTS {
        None
    } else if setup_accepts(setup_candidate(seed, bit_size, attempt)) {
        Some(setup_candidate(seed, bit_size, attempt))
    } else {
        setup_search(seed, bit_size, attempt + 1)
    }
}

/// The fewest bytes a setup seed may have.
pub const MIN_SEED_BYTES: usize = 32;

/// Accepts a seed of at least `MIN_SEED_BYTES` bytes.
pub fn validate_seed(seed: &[u8]) -> (r: Result<(), HtpError>)
    ensures
        r is Ok <==> seed@.len() >= MIN_SEED_BYTES,
        r is Err ==> r == Err::<(), HtpError>(HtpError::InvalidParameters),
{
    if seed.len() < MIN_SEED_BYTES {
        Err(HtpError::InvalidParameters)
    } else {
        Ok(())
    }
}

/// The public parameters every party derives from the seed.
#[derive(Clone, Debug, PartialEq, Eq)]
pub struct SystemParameters {
    pub discriminant: BigInt,
}

impl SystemParameters {
    /// `discriminant = -m` for the first candidate `m = 3 (mod 4)` that
    /// passes Miller-Rabin; `SetupExhausted` when none does within the budget.
    pub fn from_random_seed(seed_bytes: &[u8], bit_size: u32) -> (r: Result<SystemParameters, HtpError>)
        requires
            bit_size >= 1,
        ensures
            match r {
                Ok(p) => {
                    &&& p.discriminant.wf()
                    &&& setup_search(seed_bytes@, bit_size as nat, 0) == Some((-p.discriminant@) as nat)
                    &&& valid_disc(p.discriminant@)
                    &&& probable_prime((-p.discriminant@) as nat, SETUP_ROUNDS as nat)
                },
                Err(e) => {
                    &&& e == HtpError::SetupExhausted
                    &&& setup_search(seed_bytes@, bit_size as nat, 0) is None
                },
            },
    {
        let ghost seed = seed_bytes@;
        let len = xof_len_exec(bit_size);
        let four = BigNat::from_u64(4);
        let three = BigNat::from_u64(3);
        let mut attempt: u64 = 0;
        while attempt < SETUP_MAX_ATTEMPTS
            invariant
                bit_size >= 1,
                seed == seed_bytes@,
                len as nat == xof_len(bit_size as nat),
                four@ == 4,
                three@ == 3,
                setup_search(seed, bit_size as nat, attempt as nat) == setup_search(seed, bit_size as nat, 0),
            decreases SETUP_MAX_ATTEMPTS - attempt,
        {
            let mut input: Vec<u8> = Vec::new();
            append_bytes(&mut input, seed_bytes);
            let ab = le64(attempt);
            append_bytes(&mut input, ab.as_slice());
            let h = xof(&input, len);
            let m = top_bit_candidate(&h, bit_size);
            proof {
                assert(input@ =~= seed + le_bytes(attempt as nat, 8));
                assert(m@ == setup_candidate(seed, bit_size as nat, attempt as nat));
            }
            if m.rem(&four).equals(&three) && is_probable_prime(&m, SETUP_ROUNDS) {
                let discriminant = BigInt::from_nat(m).negate();
                proof {
                    assert(setup_search(seed, bit_size as nat, attempt as nat) == Some(m@));
                    let mm = m@ as int;
                    lemma_fundamental_div_mod(mm, 4);
                    lemma_fundamental_div_mod_converse(-mm, 4, -(mm / 4) - 1, 1);
                }
                return Ok(SystemParameters { discriminant });
            }
            attempt = attempt + 1;
        }
        Err(HtpError::SetupExhausted)
    }
}

} // verus!
