//! Primality by Miller-Rabin and the deterministic identifier-to-prime map.

use vstd::prelude::*;
use vstd::arithmetic::power2::{lemma_pow2_pos, pow2};
use vstd::string::StringSliceAdditionalSpecFns;
use crate::bignum::{le_val, pow_nat, BigNat};
use crate::error::HtpError;
use crate::hashing::{append_bytes, blake3_xof, le64, le_bytes, xof};

verus! {

/// `m` with every factor two taken out (zero stays zero).
pub open spec fn odd_part(m: nat) -> nat
    decreases m,
{
    if m > 0 && m % 2 == 0 {
        odd_part(m / 2)
    } else {
        m
    }
}

/// Squaring `x = a^e mod n` up the exponents `e, 2e, 4e, ...` below `n - 1`
/// meets `n - 1`.
pub open spec fn meets_minus_one(x: nat, e: nat, n: nat) -> bool
    decreases (if e + 1 < n { n - e } else { 0 }),
{
    if e == 0 || e + 1 >= n {
        false
    } else if x == n - 1 {
        true
    } else {
        meets_minus_one((x * x) % n, 2 * e, n)
    }
}

/// The Miller-Rabin test of odd `n >= 5` to the base `a`.
pub open spec fn passes_base(n: nat, a: nat) -> bool {
    let d = odd_part((n - 1) as nat);
    let x = pow_nat(a, d) % n;
    x == 1 || meets_minus_one(x, d, n)
}

/// `n` is prime or passes Miller-Rabin to the bases `2, 3, ...,
/// rounds + 1` (those below `n - 1`).
pub open spec fn probable_prime(n: nat, rounds: nat) -> bool {
    if n < 4 {
        n == 2 || n == 3
    } else {
        n % 2 == 1 && forall|a: nat| 2 <= a < rounds + 2 && a + 1 < n ==> #[trigger] passes_base(n, a)
    }
}

/// Miller-Rabin with `rounds` fixed bases; small `n` are decided exactly.
pub fn is_probable_prime(n: &BigNat, rounds: u64) -> (r: bool)
    requires
        n.wf(),
        rounds < 0x1_0000_0000,
    ensures
        r == probable_prime(n@, rounds as nat),
{
    let one = BigNat::from_u64(1);
    let two = BigNat::from_u64(2);
    let four = BigNat::from_u64(4);
    if n.lt(&four) {
        return n.equals(&two) || n.equals(&BigNat::from_u64(3));
    }
    if !n.is_odd() {
        return false;
    }
    let nm1 = n.sub(&one);
    let mut d = nm1.dup();
    while !d.is_odd()
        invariant
            d.wf(),
            d@ > 0,
            d@ <= nm1@,
            two@ == 2,
            odd_part(d@) == odd_part(nm1@),
        decreases d@,
    {
        d = d.div(&two);
    }
    let ghost od = odd_part(nm1@);
    assert(od == d@);
    let mut a: u64 = 2;
    while a < rounds + 2
        invariant
            2 <= a <= rounds + 2,
            rounds < 0x1_0000_0000,
            n.wf(),
            n@ >= 4,
            n@ % 2 == 1,
            nm1@ == n@ - 1,
            one@ == 1,
            two@ == 2,
            d.wf(),
            d@ <= nm1@,
            d@ == odd_part(nm1@),
            d@ % 2 == 1,
            forall|b: nat| 2 <= b < a && b + 1 < n@ ==> #[trigger] passes_base(n@, b),
        decreases rounds + 2 - a,
    {
        let big_a = BigNat::from_u64(a);
        if big_a.add(&one).lt(n) {
            let mut x = big_a.modpow(&d, n);
            let ghost x0 = x@;
            if !x.equals(&one) {
                let mut e = d.dup();
                while e.lt(&nm1) && !x.equals(&nm1)
                    invariant
                        n.wf(),
                        n@ >= 4,
                        nm1@ == n@ - 1,
                        x.wf(),
                        e.wf(),
                        e@ > 0,
                        two@ == 2,
                        e@ < 2 * n@,
                        meets_minus_one(x@, e@, n@) == meets_minus_one(x0, d@, n@),
                    decreases 2 * n@ - e@,
                {
                    x = x.mul(&x).rem(n);
                    e = e.mul(&two);
                }
                if !e.lt(&nm1) {
                    proof {
                        assert(!passes_base(n@, a as nat));
                    }
                    return false;
                }
            }
            proof {
                assert(passes_base(n@, a as nat));
            }
        }
        a = a + 1;
    }
    true
}

/// The first bytes hashed for an identifier.
pub open spec fn htp_domain() -> Seq<u8> {
    seq![72u8, 84, 80, 95, 72, 97, 115, 104, 84, 111, 80, 114, 105, 109, 101, 95, 118, 49]
}

/// The bytes of the XOF output read for a `bit_size`-bit candidate.
pub open spec fn xof_len(bit_size: nat) -> nat {
    (bit_size + 7) / 8
}

/// `x` with bit `i` set.
pub open spec fn with_bit(x: nat, i: nat) -> nat {
    if (x / pow2(i)) % 2 == 1 {
        x
    } else {
        x + pow2(i)
    }
}

/// What is hashed for `id` at `nonce`: domain, length of `id`, `id`, nonce.
pub open spec fn htp_input(id: Seq<u8>, nonce: nat) -> Seq<u8> {
    htp_domain() + le_bytes(id.len(), 8) + id + le_bytes(nonce, 8)
}

/// The hash read as a `bit_size`-bit number with its top and low bits set.
pub open spec fn htp_candidate(id: Seq<u8>, bit_size: nat, nonce: nat) -> nat {
    let h = le_val(blake3_xof(htp_input(id, nonce), xof_len(bit_size)));
    with_bit(with_bit(h % pow2(bit_size), (bit_size - 1) as nat), 0)
}

/// Attempts at finding a prime for one identifier.
pub const HTP_MAX_NONCES: u64 = 500;

/// Miller-Rabin rounds for identifier primes.
pub const HTP_ROUNDS: u64 = 25;

pub open spec fn htp_accepts(c: nat) -> bool {
    c % 3 != 0 && c % 5 != 0 && probable_prime(c, HTP_ROUNDS as nat)
}

/// The first accepted candidate from `nonce` on, if any before the budget ends.
pub open spec fn htp_search(id: Seq<u8>, bit_size: nat, nonce: nat) -> Option<nat>
    decreases HTP_MAX_NONCES - nonce,
{
    if nonce >= HTP_MAX_NONCES {
        None
    } else if htp_accepts(htp_candidate(id, bit_size, nonce)) {
        Some(htp_candidate(id, bit_size, nonce))
    } else {
        htp_search(id, bit_size, nonce + 1)
    }
}

/// `x` with bit `i` set.
pub fn set_bit(x: &BigNat, i: u64) -> (r: BigNat)
    requires
        x.wf(),
    ensures
        r.wf(),
        r@ == with_bit(x@, i as nat),
{
    let p = BigNat::pow2(i);
    proof {
        lemma_pow2_pos(i as nat);
    }
    if x.div(&p).is_odd() {
        x.dup()
    } else {
        x.add(&p)
    }
}

/// The hash bytes `h` read as a `bit_size`-bit number with bit `bit_size - 1` set.
pub fn top_bit_candidate(h: &Vec<u8>, bit_size: u32) -> (r: BigNat)
    requires
        bit_size >= 1,
    ensures
        r.wf(),
        r@ == with_bit(le_val(h@) % pow2(bit_size as nat), (bit_size - 1) as nat),
{
    proof {
        lemma_pow2_pos(bit_size as nat);
    }
    let c = BigNat::from_le_bytes(h).rem(&BigNat::pow2(bit_size as u64));
    set_bit(&c, (bit_size - 1) as u64)
}

/// Derives a prime from an identifier: the first candidate over nonces
/// `0..HTP_MAX_NONCES` that is prime to 3 and 5 and passes Miller-Rabin.
pub fn hash_to_prime(user_id: &str, bit_size: u32) -> (r: Result<BigNat, HtpError>)
    requires
        bit_size >= 1,
    ensures
        match r {
            Ok(p) => {
                &&& p.wf()
                &&& htp_search(user_id.spec_bytes(), bit_size as nat, 0) == Some(p@)
                &&& probable_prime(p@, HTP_ROUNDS as nat)
            },
            Err(e) => {
                &&& e == HtpError::PrimeSearchExhausted
                &&& htp_search(user_id.spec_bytes(), bit_size as nat, 0) is None
            },
        },
{
    let ghost id = user_id.spec_bytes();
    let id_bytes = user_id.as_bytes();
    let len = xof_len_exec(bit_size);
    let mut nonce: u64 = 0;
    while nonce < HTP_MAX_NONCES
        invariant
            bit_size >= 1,
            id_bytes@ == id,
            id == user_id.spec_bytes(),
            len as nat == xof_len(bit_size as nat),
            htp_search(id, bit_size as nat, nonce as nat) == htp_search(id, bit_size as nat, 0),
        decreases HTP_MAX_NONCES - nonce,
    {
        let mut input: Vec<u8> = vec![72u8, 84, 80, 95, 72, 97, 115, 104, 84, 111, 80, 114, 105, 109, 101, 95, 118, 49];
        let n = le64(id_bytes.len() as u64);
        append_bytes(&mut input, n.as_slice());
        append_bytes(&mut input, id_bytes);
        let nb = le64(nonce);
        append_bytes(&mut input, nb.as_slice());
        proof {
            assert(input@ =~= htp_input(id, nonce as nat));
        }
        let h = xof(&input, len);
        let c = set_bit(&top_bit_candidate(&h, bit_size), 0);
        let c3 = c.rem(&BigNat::from_u64(3));
        let c5 = c.rem(&BigNat::from_u64(5));
        proof {
            assert(c@ == htp_candidate(id, bit_size as nat, nonce as nat));
        }
        if !c3.is_zero() && !c5.is_zero() && is_probable_prime(&c, HTP_ROUNDS) {
            proof {
                assert(htp_accepts(c@));
                assert(htp_search(id, bit_size as nat, nonce as nat) == Some(c@));
            }
            return Ok(c);
        }
        nonce = nonce + 1;
    }
    Err(HtpError::PrimeSearchExhausted)
}

/// `xof_len` for a `u32`.
pub fn xof_len_exec(bit_size: u32) -> (r: usize)
    ensures
        r as nat == xof_len(bit_size as nat),
{
    ((bit_size as u64 + 7) / 8) as usize
}

} // verus!
