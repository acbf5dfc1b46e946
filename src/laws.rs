//! Laws of the class group, the tensor and its root, stated over the
//! spec functions that the operations are proved against.

use vstd::prelude::*;
use vstd::arithmetic::div_mod::lemma_fundamental_div_mod_converse;
use crate::affine::{affine_compose_spec, TupleView, P_MAX_BITS};
use crate::bignum::bit_len;
use crate::algebra::{
    compose_b, compose_spec, coprime, pow_spec, identity_form, is_reduced, lemma_compose_any_y, lin, norm_b,
    reduce_loop, reduce_spec, valid_disc,
};
use crate::error::HtpError;
use crate::folding::root_spec;
use crate::service::register_spec;
use crate::tensor::{coord_of, insert_spec, EntryView, HyperTensor};

verus! {

proof fn lemma_reduced_is_fixed(f: (int, int, int), d: int)
    requires
        is_reduced(f, d),
    ensures
        reduce_spec(f.0, f.1, d) == f,
{
    let (a, b, c) = f;
    if b >= 0 {
        lemma_fundamental_div_mod_converse(b, 2 * a, 0, b);
    } else {
        lemma_fundamental_div_mod_converse(b, 2 * a, -1, b + 2 * a);
    }
    assert(norm_b(b, a) == b);
    assert(b * b - d == c * (4 * a)) by (nonlinear_arith)
        requires
            b * b - 4 * a * c == d,
    ;
    lemma_fundamental_div_mod_converse(b * b - d, 4 * a, c, 0);
    assert(reduce_loop(a, b, c) == (a, b, c));
}

/// The principal form is a two-sided identity: composing a reduced form
/// with it, on either side, gives the form back.
pub proof fn lemma_identity_law(f: (int, int, int), d: int)
    requires
        valid_disc(d),
        is_reduced(f, d),
    ensures
        compose_spec(f, identity_form(d), d) == Some(f),
        compose_spec(identity_form(d), f, d) == Some(f),
{
    let (a, b, c) = f;
    let e = identity_form(d);
    vstd::arithmetic::div_mod::lemma_fundamental_div_mod(d, 4);
    lemma_fundamental_div_mod_converse(1 - d, 4, -(d / 4), 0);
    crate::algebra::lemma_b_odd(a, b, c, d);
    vstd::arithmetic::div_mod::lemma_fundamental_div_mod(b, 2);
    lemma_fundamental_div_mod_converse(b + 1, 2, b / 2 + 1, 0);
    assert(lin(a, 0, 1, 1) == 1);
    lemma_compose_any_y(f, e, 0, 1, d);
    assert(compose_b(f, e, 1) == b);
    assert(a * 1 == a);
    lemma_reduced_is_fixed(f, d);
    assert(lin(1, 1, a, 0) == 1);
    lemma_compose_any_y(e, f, 1, 0, d);
    assert(compose_b(e, f, 0) == b) by (nonlinear_arith)
        requires
            compose_b(e, f, 0) == b + 2 * a * 0 * ((1 + b) / 2 - b),
    ;
    assert(1 * a == a);
}

proof fn lemma_identity_reduced(d: int)
    requires
        valid_disc(d),
    ensures
        is_reduced(identity_form(d), d),
{
    vstd::arithmetic::div_mod::lemma_fundamental_div_mod(d, 4);
    lemma_fundamental_div_mod_converse(1 - d, 4, -(d / 4), 0);
    let c = (1 - d) / 4;
    assert(d == 4 * (d / 4) + 1);
    assert(4 * 1 * c == 4 * c);
}

/// The identity form to any power is the identity form.
pub proof fn lemma_pow_identity(e: nat, d: int)
    requires
        valid_disc(d),
    ensures
        pow_spec(identity_form(d), e, d) == Some(identity_form(d)),
    decreases e,
{
    if e > 0 {
        lemma_pow_identity(e / 2, d);
        lemma_identity_reduced(d);
        lemma_identity_law(identity_form(d), d);
    }
}

/// A tuple whose shift is the identity, composed before a tuple with a
/// reduced shift, keeps that shift: `(P', 1) * (P, Q) = (P' P, Q)` within
/// the bit budget.
pub proof fn lemma_identity_shift_on_left(pb: nat, a: TupleView, d: int)
    requires
        valid_disc(d),
        is_reduced(a.1, d),
        bit_len(pb) + bit_len(a.0) <= P_MAX_BITS,
    ensures
        affine_compose_spec((pb, identity_form(d)), a, d) == Ok::<TupleView, HtpError>((pb * a.0, a.1)),
{
    lemma_pow_identity(a.0, d);
    lemma_identity_law(a.1, d);
}

/// The entries after inserting each `(identifier bytes, tuple)` of `ops`
/// in order, from `s`.
pub open spec fn replay(s: Seq<EntryView>, ops: Seq<(Seq<u8>, TupleView)>, l: nat, n: nat, d: int) -> Result<
    Seq<EntryView>,
    HtpError,
>
    decreases ops.len(),
{
    if ops.len() == 0 {
        Ok(s)
    } else {
        match replay(s, ops.drop_last(), l, n, d) {
            Err(e) => Err(e),
            Ok(t) => insert_spec(t, coord_of(ops.last().0, l, n), ops.last().1, l, d),
        }
    }
}

/// A tensor whose entries came from inserting `ops` in order into an empty
/// tensor, with any root requests in between, holds in its cache (when
/// filled) exactly the root that a fresh tensor given the same inserts
/// computes.
pub proof fn lemma_root_after_inserts(t: HyperTensor, ops: Seq<(Seq<u8>, TupleView)>)
    requires
        t.wf(),
        replay(Seq::empty(), ops, t.side_length as nat, t.dimensions as nat, t.discriminant@) == Ok::<
            Seq<EntryView>,
            HtpError,
        >(t.entries()),
    ensures
        t.cached_root matches Some(r) ==> root_spec(
            replay(Seq::empty(), ops, t.side_length as nat, t.dimensions as nat, t.discriminant@).unwrap(),
            t.dimensions as nat,
            t.discriminant@,
        ) == Ok::<TupleView, HtpError>(r@),
{
}

/// The entries after registering the identifiers `ids` (as bytes) in order.
pub open spec fn replay_registrations(s: Seq<EntryView>, ids: Seq<Seq<u8>>, l: nat, n: nat, d: int) -> Result<
    Seq<EntryView>,
    HtpError,
>
    decreases ids.len(),
{
    if ids.len() == 0 {
        Ok(s)
    } else {
        match replay_registrations(s, ids.drop_last(), l, n, d) {
            Err(e) => Err(e),
            Ok(t) => register_spec(t, ids.last(), l, n, d),
        }
    }
}

/// Two tensors of one shape that took the same registrations in the same
/// order, from empty, hold the same entries and so fold to the same root,
/// whatever root requests came in between.
pub proof fn lemma_same_registrations_same_root(a: HyperTensor, b: HyperTensor, ids: Seq<Seq<u8>>)
    requires
        a.wf(),
        b.wf(),
        a.dimensions == b.dimensions,
        a.side_length == b.side_length,
        a.discriminant@ == b.discriminant@,
        replay_registrations(Seq::empty(), ids, a.side_length as nat, a.dimensions as nat, a.discriminant@)
            == Ok::<Seq<EntryView>, HtpError>(a.entries()),
        replay_registrations(Seq::empty(), ids, b.side_length as nat, b.dimensions as nat, b.discriminant@)
            == Ok::<Seq<EntryView>, HtpError>(b.entries()),
    ensures
        a.entries() == b.entries(),
        root_spec(a.entries(), a.dimensions as nat, a.discriminant@) == root_spec(
            b.entries(),
            b.dimensions as nat,
            b.discriminant@,
        ),
{
}

/// Composition on the class group needs coprime first coefficients: forms
/// whose first coefficients share a factor do not compose.
pub proof fn lemma_square_needs_unit(f: (int, int, int), d: int)
    requires
        f.0 > 1,
    ensures
        compose_spec(f, f, d) is None,
{
    crate::algebra::lemma_common_divisor_not_coprime(f.0, f.0, f.0);
}

} // verus!
