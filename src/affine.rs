//! The affine monoid `(P, Q)` with `(P, Q) * (P', Q') = (P P', Q^P' Q')`.

use vstd::prelude::*;
use crate::algebra::{compose_spec, identity_form, is_form, is_reduced, pow_spec, valid_disc, ClassGroupElement};
use crate::bignum::{bit_len, BigInt, BigNat};
use crate::error::HtpError;

verus! {

/// The largest sum of the bit lengths of two `P` factors that may be composed.
pub const P_MAX_BITS: u64 = 65536;

/// The value of a tuple: `P` and the form `Q`.
pub type TupleView = (nat, (int, int, int));

pub open spec fn identity_tuple(d: int) -> TupleView {
    (1, identity_form(d))
}

/// The affine composition law with its bit budget; errors as the class group's.
pub open spec fn affine_compose_spec(x: TupleView, y: TupleView, d: int) -> Result<TupleView, HtpError> {
    if bit_len(x.0) + bit_len(y.0) > P_MAX_BITS {
        Err(HtpError::StateBloat)
    } else {
        match pow_spec(x.1, y.0, d) {
            None => Err(HtpError::NonCoprimeForms),
            Some(qp) => match compose_spec(qp, y.1, d) {
                None => Err(HtpError::NonCoprimeForms),
                Some(q) => Ok((x.0 * y.0, q)),
            },
        }
    }
}

/// An affine tuple: a product of identity primes and a class-group shift.
#[derive(Clone, Debug, PartialEq, Eq, Hash)]
pub struct AffineTuple {
    pub p_factor: BigNat,
    pub q_shift: ClassGroupElement,
}

impl View for AffineTuple {
    type V = TupleView;

    open spec fn view(&self) -> TupleView {
        (self.p_factor@, self.q_shift@)
    }
}

impl AffineTuple {
    pub open spec fn wf(&self) -> bool {
        self.p_factor.wf() && self.q_shift.wf()
    }

    /// A well-formed tuple whose shift is a form of discriminant `d`.
    pub open spec fn valid(&self, d: int) -> bool {
        self.wf() && is_form(self.q_shift@, d)
    }

    /// A copy of the tuple.
    pub fn dup(&self) -> (r: AffineTuple)
        ensures
            r@ == self@,
            r.wf() == self.wf(),
    {
        AffineTuple { p_factor: self.p_factor.dup(), q_shift: self.q_shift.dup() }
    }

    /// `(1, identity)`.
    pub fn identity(discriminant: &BigInt) -> (r: AffineTuple)
        requires
            discriminant.wf(),
        ensures
            r.wf(),
            r@ == identity_tuple(discriminant@),
            valid_disc(discriminant@) ==> is_reduced(r@.1, discriminant@),
    {
        AffineTuple { p_factor: BigNat::from_u64(1), q_shift: ClassGroupElement::identity(discriminant) }
    }

    /// `(P P', Q^P' Q')` for `self = (P, Q)` and `other = (P', Q')`;
    /// `StateBloat` where the bit lengths of `P` and `P'` sum past
    /// `P_MAX_BITS`, else any class-group failure.
    pub fn compose(&self, other: &AffineTuple, discriminant: &BigInt) -> (r: Result<AffineTuple, HtpError>)
        requires
            self.valid(discriminant@),
            other.valid(discriminant@),
            discriminant.wf(),
            valid_disc(discriminant@),
        ensures
            match r {
                Ok(t) => {
                    &&& t.wf()
                    &&& affine_compose_spec(self@, other@, discriminant@) == Ok::<TupleView, HtpError>(t@)
                    &&& is_reduced(t@.1, discriminant@)
                },
                Err(e) => affine_compose_spec(self@, other@, discriminant@) == Err::<TupleView, HtpError>(e),
            },
    {
        let b1 = self.p_factor.bits();
        let b2 = other.p_factor.bits();
        if b1 > P_MAX_BITS || b2 > P_MAX_BITS - b1 {
            return Err(HtpError::StateBloat);
        }
        let new_p = self.p_factor.mul(&other.p_factor);
        let q1_pow_p2 = self.q_shift.pow(&other.p_factor, discriminant)?;
        let new_q = q1_pow_p2.compose(&other.q_shift, discriminant)?;
        Ok(AffineTuple { p_factor: new_p, q_shift: new_q })
    }
}

} // verus!
