//! Reduced binary quadratic forms of a negative discriminant and their
//! composition, squaring and exponentiation.

use vstd::prelude::*;
use vstd::arithmetic::div_mod::{
    lemma_fundamental_div_mod, lemma_fundamental_div_mod_converse, lemma_mod_multiples_vanish,
};
use crate::bignum::{BigInt, BigNat};
use crate::error::HtpError;

verus! {

/// A discriminant the forms can live over: negative and `1 (mod 4)`.
pub open spec fn valid_disc(d: int) -> bool {
    d < 0 && d % 4 == 1
}

/// `(a, b, c)` is a positive definite form of discriminant `d`.
pub open spec fn is_form(f: (int, int, int), d: int) -> bool {
    f.0 > 0 && f.1 * f.1 - 4 * f.0 * f.2 == d
}

/// `(a, b, c)` is the reduced representative of its class.
pub open spec fn is_reduced(f: (int, int, int), d: int) -> bool {
    &&& is_form(f, d)
    &&& -f.0 < f.1 <= f.0
    &&& f.0 <= f.2
    &&& (f.0 == f.2 ==> f.1 >= 0)
}

/// The principal form `(1, 1, (1 - d) / 4)`.
pub open spec fn identity_form(d: int) -> (int, int, int) {
    (1, 1, (1 - d) / 4)
}

/// `b` moved by a multiple of `2a` into `(-a, a]`.
pub open spec fn norm_b(b: int, a: int) -> int {
    let r = b % (2 * a);
    if r > a {
        r - 2 * a
    } else {
        r
    }
}

pub open spec fn needs_reduction(a: int, b: int, c: int) -> bool {
    a > c || (a == c && b < 0)
}

/// The reduction loop: `(a, b, c) -> (c, 2cs - b, cs^2 - sb + a)` with
/// `s = floor((c + b) / 2c)`, while the form is not reduced.
pub open spec fn reduce_loop(a: int, b: int, c: int) -> (int, int, int)
    decreases (if a > 0 { 2 * a + (if b < 0 { 1int } else { 0int }) } else { 0 }),
    via reduce_loop_decreases
{
    if a > 0 && c > 0 && -a < b <= a && needs_reduction(a, b, c) {
        let s = (c + b) / (2 * c);
        reduce_loop(c, 2 * c * s - b, c * s * s - s * b + a)
    } else {
        (a, b, c)
    }
}

#[via_fn]
proof fn reduce_loop_decreases(a: int, b: int, c: int) {
    if a > 0 && c > 0 && -a < b <= a && needs_reduction(a, b, c) {
        let s = (c + b) / (2 * c);
        lemma_step_bounds(b, c, s);
        if a == c {
            lemma_step_zero(b, c);
        }
    }
}

/// The reduced form of `(a, b, (b^2 - d) / 4a)`: `b` normalised, then the loop.
pub open spec fn reduce_spec(a: int, b: int, d: int) -> (int, int, int) {
    let b1 = norm_b(b, a);
    reduce_loop(a, b1, (b1 * b1 - d) / (4 * a))
}

/// `a * x + b * y`.
pub open spec fn lin(a: int, x: int, b: int, y: int) -> int {
    a * x + b * y
}

/// Some integer combination of `a` and `b` is one.
pub open spec fn coprime(a: int, b: int) -> bool {
    exists|x: int, y: int| #[trigger] lin(a, x, b, y) == 1
}

/// `y` is the coefficient of `b` in some combination `a * x + b * y == 1`.
pub open spec fn is_bezout_y(a: int, b: int, y: int) -> bool {
    exists|x: int| #[trigger] lin(a, x, b, y) == 1
}

/// A coefficient of `b` in some combination `a * x + b * y == 1`.
pub open spec fn bezout_y(a: int, b: int) -> int {
    choose|y: int| #[trigger] is_bezout_y(a, b, y)
}

/// The middle coefficient before reduction in the composition of `f` and `g`.
pub open spec fn compose_b(f: (int, int, int), g: (int, int, int), y: int) -> int {
    let s = (f.1 + g.1) / 2;
    g.1 + 2 * g.0 * y * (s - g.1)
}

/// Gauss composition of forms with coprime first coefficients, reduced;
/// `None` where the first coefficients are not coprime.
pub open spec fn compose_spec(f: (int, int, int), g: (int, int, int), d: int) -> Option<(int, int, int)> {
    if coprime(f.0, g.0) {
        Some(reduce_spec(f.0 * g.0, compose_b(f, g, bezout_y(f.0, g.0)), d))
    } else {
        None
    }
}

/// Left-to-right square and multiply over the bits of `e`.
pub open spec fn pow_spec(f: (int, int, int), e: nat, d: int) -> Option<(int, int, int)>
    decreases e,
{
    if e == 0 {
        Some(identity_form(d))
    } else {
        match pow_spec(f, e / 2, d) {
            None => None,
            Some(h) => match compose_spec(h, h, d) {
                None => None,
                Some(sq) => if e % 2 == 1 {
                    compose_spec(sq, f, d)
                } else {
                    Some(sq)
                },
            },
        }
    }
}

proof fn lemma_step_bounds(b: int, c: int, s: int)
    requires
        c > 0,
        s == (c + b) / (2 * c),
    ensures
        -c < 2 * c * s - b <= c,
{
    lemma_fundamental_div_mod(c + b, 2 * c);
    let r = (c + b) % (2 * c);
    assert(0 <= r < 2 * c);
    assert(c + b == (2 * c) * s + r);
    assert((2 * c) * s == 2 * c * s) by (nonlinear_arith);
}

proof fn lemma_step_zero(b: int, c: int)
    requires
        c > 0,
        -c < b < 0,
    ensures
        (c + b) / (2 * c) == 0,
{
    lemma_fundamental_div_mod_converse(c + b, 2 * c, 0, c + b);
}

proof fn lemma_step_form(a: int, b: int, c: int, s: int, d: int)
    requires
        b * b - 4 * a * c == d,
        c > 0,
        d < 0,
    ensures
        (2 * c * s - b) * (2 * c * s - b) - 4 * c * (c * s * s - s * b + a) == d,
        c * s * s - s * b + a > 0,
{
    let bn = 2 * c * s - b;
    let cn = c * s * s - s * b + a;
    let cs = c * s;
    assert(bn * bn == 4 * cs * cs - 4 * cs * b + b * b) by (nonlinear_arith)
        requires
            bn == 2 * c * s - b,
            cs == c * s,
    ;
    assert(4 * c * cn == 4 * cs * cs - 4 * cs * b + 4 * a * c) by (nonlinear_arith)
        requires
            cn == c * s * s - s * b + a,
            cs == c * s,
    ;
    assert(bn * bn >= 0) by (nonlinear_arith);
    assert(cn > 0) by (nonlinear_arith)
        requires
            bn * bn - 4 * c * cn == d,
            d < 0,
            c > 0,
            bn * bn >= 0,
    ;
}

/// In a form of a discriminant `1 (mod 4)` the middle coefficient is odd.
pub proof fn lemma_b_odd(a: int, b: int, c: int, d: int)
    requires
        b * b - 4 * a * c == d,
        d % 4 == 1,
    ensures
        b % 2 == 1,
{
    lemma_fundamental_div_mod(b, 2);
    let k = b / 2;
    if b % 2 == 0 {
        assert(d == 4 * (k * k - a * c)) by (nonlinear_arith)
            requires
                b == 2 * k,
                b * b - 4 * a * c == d,
        ;
        lemma_fundamental_div_mod_converse(d, 4, k * k - a * c, 0);
    }
}

/// Normalising `b` keeps `b^2 = d (mod 4a)`.
proof fn lemma_norm_b_exact(a: int, b: int, b1: int, d: int)
    requires
        a > 0,
        b1 == norm_b(b, a),
        (b * b - d) % (4 * a) == 0,
    ensures
        (b1 * b1 - d) % (4 * a) == 0,
        -a < b1 <= a,
{
    lemma_fundamental_div_mod(b, 2 * a);
    let q = b / (2 * a);
    let k = if b % (2 * a) > a { -q - 1 } else { -q };
    assert(b1 == b + 2 * a * k) by (nonlinear_arith)
        requires
            b == (2 * a) * q + b % (2 * a),
            k == (if b % (2 * a) > a { -q - 1 } else { -q }),
            b1 == (if b % (2 * a) > a { b % (2 * a) - 2 * a } else { b % (2 * a) }),
    ;
    let m = b * k + a * k * k;
    assert(b1 * b1 - d == (4 * a) * m + (b * b - d)) by (nonlinear_arith)
        requires
            b1 == b + 2 * a * k,
            m == b * k + a * k * k,
    ;
    lemma_mod_multiples_vanish(m, b * b - d, 4 * a);
}

/// The composed middle coefficient `B` has `B^2 = d (mod 4 a1 a2)`.
proof fn lemma_compose_divisible(f: (int, int, int), g: (int, int, int), x: int, y: int, d: int)
    requires
        is_form(f, d),
        is_form(g, d),
        lin(f.0, x, g.0, y) == 1,
        (f.1 + g.1) % 2 == 0,
    ensures
        ({
            let bb = compose_b(f, g, y);
            (bb * bb - d) % (4 * (f.0 * g.0)) == 0
        }),
{
    let (a1, b1, c1) = f;
    let (a2, b2, c2) = g;
    let s = (b1 + b2) / 2;
    lemma_fundamental_div_mod(b1 + b2, 2);
    let t = s - b2;
    assert(b1 - b2 == 2 * t);
    let bb = compose_b(f, g, y);
    assert(bb == b2 + 2 * a2 * y * t);
    let k2 = y * t;
    let k1 = -x * t;
    assert(bb == b2 + 2 * a2 * k2) by (nonlinear_arith)
        requires
            bb == b2 + 2 * a2 * y * t,
            k2 == y * t,
    ;
    assert(bb == b1 + 2 * a1 * k1) by (nonlinear_arith)
        requires
            bb == b2 + 2 * a2 * y * t,
            k1 == -x * t,
            b1 - b2 == 2 * t,
            a1 * x + a2 * y == 1,
    ;
    let m1 = b1 * k1 + a1 * k1 * k1 + c1;
    let m2 = b2 * k2 + a2 * k2 * k2 + c2;
    assert(bb * bb - d == 4 * a1 * m1) by (nonlinear_arith)
        requires
            bb == b1 + 2 * a1 * k1,
            b1 * b1 - 4 * a1 * c1 == d,
            m1 == b1 * k1 + a1 * k1 * k1 + c1,
    ;
    assert(bb * bb - d == 4 * a2 * m2) by (nonlinear_arith)
        requires
            bb == b2 + 2 * a2 * k2,
            b2 * b2 - 4 * a2 * c2 == d,
            m2 == b2 * k2 + a2 * k2 * k2 + c2,
    ;
    let kk = m2 * x + m1 * y;
    assert(bb * bb - d == kk * (4 * (a1 * a2))) by (nonlinear_arith)
        requires
            bb * bb - d == 4 * a1 * m1,
            bb * bb - d == 4 * a2 * m2,
            a1 * x + a2 * y == 1,
            kk == m2 * x + m1 * y,
    ;
    assert(4 * (a1 * a2) > 0) by (nonlinear_arith)
        requires
            a1 > 0,
            a2 > 0,
    ;
    lemma_fundamental_div_mod_converse(bb * bb - d, 4 * (a1 * a2), kk, 0);
}

/// `reduce_spec` reads `b` only modulo `2a`.
proof fn lemma_reduce_spec_mod(a: int, b: int, b2: int, k: int, d: int)
    requires
        a > 0,
        b == b2 + 2 * a * k,
    ensures
        reduce_spec(a, b, d) == reduce_spec(a, b2, d),
{
    lemma_mod_multiples_vanish(k, b2, 2 * a);
    assert(2 * a * k == (2 * a) * k) by (nonlinear_arith);
}

/// Any Bezout coefficient gives the same composition.
pub proof fn lemma_compose_any_y(f: (int, int, int), g: (int, int, int), x: int, y: int, d: int)
    requires
        f.0 > 0,
        g.0 > 0,
        lin(f.0, x, g.0, y) == 1,
    ensures
        compose_spec(f, g, d) == Some(reduce_spec(f.0 * g.0, compose_b(f, g, y), d)),
{
    let (a1, a2) = (f.0, g.0);
    assert(coprime(a1, a2));
    assert(is_bezout_y(a1, a2, y));
    let y2 = bezout_y(a1, a2);
    assert(is_bezout_y(a1, a2, y2));
    let x2 = choose|x2: int| #[trigger] lin(a1, x2, a2, y2) == 1;
    let k = x * (y - y2) + y * (x2 - x);
    let (p, p2) = (a1 * x, a1 * x2);
    assert(a1 * k == p * (y - y2) + y * (p2 - p)) by (nonlinear_arith)
        requires
            k == x * (y - y2) + y * (x2 - x),
            p == a1 * x,
            p2 == a1 * x2,
    ;
    assert(p * (y - y2) == (1 - a2 * y) * (y - y2)) by (nonlinear_arith)
        requires
            p == 1 - a2 * y,
    ;
    assert(y * (p2 - p) == y * (a2 * y - a2 * y2)) by (nonlinear_arith)
        requires
            p == 1 - a2 * y,
            p2 == 1 - a2 * y2,
    ;
    assert((1 - a2 * y) * (y - y2) + y * (a2 * y - a2 * y2) == y - y2) by (nonlinear_arith);
    let t = (f.1 + g.1) / 2 - g.1;
    let m = k * t;
    let by1 = compose_b(f, g, y);
    let by2 = compose_b(f, g, y2);
    assert(by1 - by2 == 2 * a2 * t * (y - y2)) by (nonlinear_arith)
        requires
            by1 == g.1 + 2 * a2 * y * t,
            by2 == g.1 + 2 * a2 * y2 * t,
    ;
    assert(2 * a2 * t * (a1 * k) == 2 * (a1 * a2) * m) by (nonlinear_arith)
        requires
            m == k * t,
    ;
    assert(a1 * a2 > 0) by (nonlinear_arith)
        requires
            a1 > 0,
            a2 > 0,
    ;
    lemma_reduce_spec_mod(a1 * a2, compose_b(f, g, y), compose_b(f, g, y2), m, d);
}

/// `d` divides `n`.
pub open spec fn divides(d: int, n: int) -> bool {
    d != 0 && n % d == 0
}

/// After the halving step of the binary gcd the coefficients are even and
/// halve to a combination of half the value.
proof fn lemma_halve_step(x: int, y: int, uu: int, vv: int, u: int)
    requires
        u == x * uu + y * vv,
        u % 2 == 0,
        !(uu % 2 == 0 && vv % 2 == 0),
    ensures
        ({
            let x1 = if x % 2 != 0 || y % 2 != 0 { x + vv } else { x };
            let y1 = if x % 2 != 0 || y % 2 != 0 { y - uu } else { y };
            &&& x1 % 2 == 0
            &&& y1 % 2 == 0
            &&& (x1 / 2) * uu + (y1 / 2) * vv == u / 2
        }),
{
    lemma_fundamental_div_mod(x, 2);
    lemma_fundamental_div_mod(y, 2);
    lemma_fundamental_div_mod(uu, 2);
    lemma_fundamental_div_mod(vv, 2);
    lemma_fundamental_div_mod(u, 2);
    let (qx, rx) = (x / 2, x % 2);
    let (qy, ry) = (y / 2, y % 2);
    let (qu, ru) = (uu / 2, uu % 2);
    let (qv, rv) = (vv / 2, vv % 2);
    let w = 2 * qx * qu + qx * ru + rx * qu + 2 * qy * qv + qy * rv + ry * qv;
    let wx = 2 * qx * qu + qx * ru + rx * qu;
    let wy = 2 * qy * qv + qy * rv + ry * qv;
    assert(x * uu == 2 * wx + rx * ru) by (nonlinear_arith)
        requires
            x == 2 * qx + rx,
            uu == 2 * qu + ru,
            wx == 2 * qx * qu + qx * ru + rx * qu,
    ;
    assert(y * vv == 2 * wy + ry * rv) by (nonlinear_arith)
        requires
            y == 2 * qy + ry,
            vv == 2 * qv + rv,
            wy == 2 * qy * qv + qy * rv + ry * qv,
    ;
    assert(u == 2 * w + rx * ru + ry * rv);
    let x1 = if rx != 0 || ry != 0 { x + vv } else { x };
    let y1 = if rx != 0 || ry != 0 { y - uu } else { y };
    let sm = rx * ru + ry * rv;
    assert(sm == 2 * (u / 2 - w));
    if rx != 0 || ry != 0 {
        if ru == 1 && rv == 1 {
            assert(sm == rx + ry) by (nonlinear_arith)
                requires
                    sm == rx * ru + ry * rv,
                    ru == 1,
                    rv == 1,
            ;
        } else if ru == 0 {
            assert(rv == 1);
            assert(sm == ry) by (nonlinear_arith)
                requires
                    sm == rx * ru + ry * rv,
                    ru == 0,
                    rv == 1,
            ;
        } else {
            assert(rv == 0);
            assert(sm == rx) by (nonlinear_arith)
                requires
                    sm == rx * ru + ry * rv,
                    ru == 1,
                    rv == 0,
            ;
        }
        assert(rx + rv == 0 || rx + rv == 2);
        assert(ry - ru == 0);
        lemma_fundamental_div_mod_converse(x1, 2, qx + qv + (rx + rv) / 2, 0);
        lemma_fundamental_div_mod_converse(y1, 2, qy - qu, 0);
    }
    lemma_fundamental_div_mod(x1, 2);
    lemma_fundamental_div_mod(y1, 2);
    assert(x1 * uu + y1 * vv == u) by (nonlinear_arith)
        requires
            u == x * uu + y * vv,
            (x1 == x && y1 == y) || (x1 == x + vv && y1 == y - uu),
    ;
    let (hx, hy) = (x1 / 2, y1 / 2);
    assert(hx * uu + hy * vv == u / 2) by (nonlinear_arith)
        requires
            x1 == 2 * hx,
            y1 == 2 * hy,
            x1 * uu + y1 * vv == u,
            u == 2 * (u / 2),
    ;
}

/// A common divisor other than one rules out a combination equal to one.
pub proof fn lemma_common_divisor_not_coprime(a1: int, a2: int, g: int)
    requires
        g > 1,
        a1 % g == 0,
        a2 % g == 0,
    ensures
        !coprime(a1, a2),
{
    if coprime(a1, a2) {
        let (x, y) = choose|x: int, y: int| #[trigger] lin(a1, x, a2, y) == 1;
        lemma_fundamental_div_mod(a1, g);
        lemma_fundamental_div_mod(a2, g);
        let (k1, k2) = (a1 / g, a2 / g);
        assert(g * (k1 * x + k2 * y) == 1) by (nonlinear_arith)
            requires
                a1 == g * k1 + 0,
                a2 == g * k2 + 0,
                a1 * x + a2 * y == 1,
        ;
        assert(false) by (nonlinear_arith)
            requires
                g * (k1 * x + k2 * y) == 1,
                g > 1,
        ;
    }
}

/// Entry `k` of a chain of halvings: positive, and halved in entry `k + 1`.
pub open spec fn halves(qs: Seq<nat>, k: int) -> bool {
    qs[k] > 0 && qs[k + 1] == qs[k] / 2
}

/// A failure part-way up the chain of halvings fails the whole power.
proof fn lemma_pow_none(f: (int, int, int), qs: Seq<nat>, j: int, d: int)
    requires
        0 <= j < qs.len(),
        pow_spec(f, qs[j], d) is None,
        forall|k: int| 0 <= k < j ==> #[trigger] halves(qs, k),
    ensures
        pow_spec(f, qs[0], d) is None,
    decreases j,
{
    if j > 0 {
        assert(halves(qs, j - 1));
        lemma_pow_none(f, qs, j - 1, d);
    }
}

/// The upper end (exclusive) of the first coefficients tried by `generator`.
pub const GENERATOR_SEARCH_LIMIT: u64 = 1024;

/// `(a, b)` starts a non-principal form of discriminant `d`: `b` odd in
/// `[1, a]`, `b^2 = d (mod 4a)`, and its reduced form is not the identity.
pub open spec fn generator_candidate(a: int, b: int, d: int) -> bool {
    &&& 2 <= a
    &&& 1 <= b <= a
    &&& b % 2 == 1
    &&& (b * b - d) % (4 * a) == 0
    &&& reduce_spec(a, b, d).0 > 1
}

/// The reduced form of the first candidate from `(a, b)` on, in order of
/// `a` then odd `b`, below `GENERATOR_SEARCH_LIMIT`.
pub open spec fn generator_search(a: nat, b: nat, d: int) -> Option<(int, int, int)>
    decreases GENERATOR_SEARCH_LIMIT - a, a + 2 - b,
{
    if a >= GENERATOR_SEARCH_LIMIT {
        None
    } else if b > a {
        generator_search(a + 1, 1, d)
    } else if generator_candidate(a as int, b as int, d) {
        Some(reduce_spec(a as int, b as int, d))
    } else {
        generator_search(a, b + 2, d)
    }
}

/// The generator of discriminant `d`: the first candidate's reduced form.
pub open spec fn generator_spec(d: int) -> Option<(int, int, int)> {
    generator_search(2, 1, d)
}

/// No pair before `(a, b)`, in order of `a` then `b`, is a candidate.
pub open spec fn first_candidate(a: int, b: int, d: int) -> bool {
    forall|a2: int, b2: int| (a2 < a || (a2 == a && b2 < b)) ==> !#[trigger] generator_candidate(a2, b2, d)
}

/// A form `(a, b, c)` of a negative discriminant.
#[derive(Clone, Debug, PartialEq, Eq, Hash)]
pub struct ClassGroupElement {
    pub a: BigInt,
    pub b: BigInt,
    pub c: BigInt,
}

impl View for ClassGroupElement {
    type V = (int, int, int);

    open spec fn view(&self) -> (int, int, int) {
        (self.a@, self.b@, self.c@)
    }
}

impl ClassGroupElement {
    pub open spec fn wf(&self) -> bool {
        self.a.wf() && self.b.wf() && self.c.wf()
    }

    /// A copy of the form.
    pub fn dup(&self) -> (r: ClassGroupElement)
        ensures
            r@ == self@,
            r.wf() == self.wf(),
    {
        ClassGroupElement { a: self.a.dup(), b: self.b.dup(), c: self.c.dup() }
    }

    /// The principal form `(1, 1, (1 - d) / 4)`.
    pub fn identity(discriminant: &BigInt) -> (r: ClassGroupElement)
        requires
            discriminant.wf(),
        ensures
            r.wf(),
            r@ == identity_form(discriminant@),
            valid_disc(discriminant@) ==> is_reduced(r@, discriminant@),
    {
        let one = BigInt::one();
        let c = one.sub(discriminant).div_floor(&BigInt::from_u64(4));
        proof {
            let d = discriminant@;
            if valid_disc(d) {
                lemma_fundamental_div_mod(d, 4);
                lemma_fundamental_div_mod_converse(1 - d, 4, -(d / 4), 0);
                assert(c@ == -(d / 4));
                assert(c@ >= 1);
                assert(d == 4 * (d / 4) + 1);
                assert(4 * 1 * c@ == 4 * c@);
                assert(1 * 1 - 4 * 1 * c@ == d);
            }
        }
        ClassGroupElement { a: BigInt::one(), b: one, c }
    }

    /// Binary extended gcd: `(d, x, y)` with `d = x * u + y * v` a common
    /// divisor of `u` and `v`. Halving and subtraction only, one reduction
    /// tree, no early exit.
    pub fn binary_xgcd(u_in: &BigInt, v_in: &BigInt) -> (r: (BigInt, BigInt, BigInt))
        requires
            u_in.wf(),
            v_in.wf(),
            u_in@ > 0,
            v_in@ > 0,
        ensures
            r.0.wf(),
            r.1.wf(),
            r.2.wf(),
            r.0@ > 0,
            lin(u_in@, r.1@, v_in@, r.2@) == r.0@,
            divides(r.0@, u_in@),
            divides(r.0@, v_in@),
    {
        let two = BigInt::from_u64(2);
        let mut u = u_in.dup();
        let mut v = v_in.dup();
        let mut p2 = BigInt::one();
        while !u.is_odd() && !v.is_odd()
            invariant
                u.wf(),
                v.wf(),
                p2.wf(),
                two.wf(),
                two@ == 2,
                u@ > 0,
                v@ > 0,
                p2@ > 0,
                u@ * p2@ == u_in@,
                v@ * p2@ == v_in@,
            decreases u@,
        {
            proof {
                lemma_fundamental_div_mod(u@, 2);
                lemma_fundamental_div_mod(v@, 2);
            }
            let ghost (u0, v0, p0) = (u@, v@, p2@);
            u = u.div_floor(&two);
            v = v.div_floor(&two);
            p2 = p2.mul(&two);
            proof {
                assert(u@ * p2@ == u0 * p0) by (nonlinear_arith)
                    requires
                        u0 == 2 * u@,
                        p2@ == p0 * 2,
                ;
                assert(v@ * p2@ == v0 * p0) by (nonlinear_arith)
                    requires
                        v0 == 2 * v@,
                        p2@ == p0 * 2,
                ;
            }
        }
        let uu = u.dup();
        let vv = v.dup();
        let mut x1 = BigInt::one();
        let mut y1 = BigInt::zero();
        let mut x2 = BigInt::zero();
        let mut y2 = BigInt::one();
        let ghost mut g1: int = 1;
        let ghost mut h1: int = 0;
        let ghost mut g2: int = 0;
        let ghost mut h2: int = 1;
        while !u.is_zero()
            invariant
                u.wf(),
                v.wf(),
                uu.wf(),
                vv.wf(),
                x1.wf(),
                y1.wf(),
                x2.wf(),
                y2.wf(),
                two.wf(),
                two@ == 2,
                u@ >= 0,
                v@ > 0,
                uu@ > 0,
                vv@ > 0,
                !(uu@ % 2 == 0 && vv@ % 2 == 0),
                u@ == x1@ * uu@ + y1@ * vv@,
                v@ == x2@ * uu@ + y2@ * vv@,
                uu@ == g1 * u@ + h1 * v@,
                vv@ == g2 * u@ + h2 * v@,
            decreases u@ + v@,
        {
            let ghost (us, vs) = (u@, v@);
            while !u.is_odd()
                invariant
                    u.wf(),
                    v.wf(),
                    uu.wf(),
                    vv.wf(),
                    x1.wf(),
                    y1.wf(),
                    two.wf(),
                    two@ == 2,
                    0 < u@ <= us,
                    v@ == vs,
                    uu@ > 0,
                    vv@ > 0,
                    !(uu@ % 2 == 0 && vv@ % 2 == 0),
                    u@ == x1@ * uu@ + y1@ * vv@,
                    uu@ == g1 * u@ + h1 * v@,
                    vv@ == g2 * u@ + h2 * v@,
                decreases u@,
            {
                proof {
                    lemma_halve_step(x1@, y1@, uu@, vv@, u@);
                    lemma_fundamental_div_mod(u@, 2);
                }
                if x1.is_odd() || y1.is_odd() {
                    x1 = x1.add(&vv);
                    y1 = y1.sub(&uu);
                }
                let ghost u0 = u@;
                u = u.div_floor(&two);
                x1 = x1.div_floor(&two);
                y1 = y1.div_floor(&two);
                proof {
                    let (g1o, g2o) = (g1, g2);
                    g1 = 2 * g1;
                    g2 = 2 * g2;
                    assert(g1o * u0 == g1 * u@) by (nonlinear_arith)
                        requires
                            u0 == 2 * u@,
                            g1 == 2 * g1o,
                    ;
                    assert(g2o * u0 == g2 * u@) by (nonlinear_arith)
                        requires
                            u0 == 2 * u@,
                            g2 == 2 * g2o,
                    ;
                }
            }
            while !v.is_odd()
                invariant
                    u.wf(),
                    v.wf(),
                    uu.wf(),
                    vv.wf(),
                    x2.wf(),
                    y2.wf(),
                    two.wf(),
                    two@ == 2,
                    0 < u@ <= us,
                    0 < v@ <= vs,
                    uu@ > 0,
                    vv@ > 0,
                    !(uu@ % 2 == 0 && vv@ % 2 == 0),
                    v@ == x2@ * uu@ + y2@ * vv@,
                    uu@ == g1 * u@ + h1 * v@,
                    vv@ == g2 * u@ + h2 * v@,
                decreases v@,
            {
                proof {
                    lemma_halve_step(x2@, y2@, uu@, vv@, v@);
                    lemma_fundamental_div_mod(v@, 2);
                }
                if x2.is_odd() || y2.is_odd() {
                    x2 = x2.add(&vv);
                    y2 = y2.sub(&uu);
                }
                let ghost v0 = v@;
                v = v.div_floor(&two);
                x2 = x2.div_floor(&two);
                y2 = y2.div_floor(&two);
                proof {
                    let (h1o, h2o) = (h1, h2);
                    h1 = 2 * h1;
                    h2 = 2 * h2;
                    assert(h1o * v0 == h1 * v@) by (nonlinear_arith)
                        requires
                            v0 == 2 * v@,
                            h1 == 2 * h1o,
                    ;
                    assert(h2o * v0 == h2 * v@) by (nonlinear_arith)
                        requires
                            v0 == 2 * v@,
                            h2 == 2 * h2o,
                    ;
                }
            }
            if !u.lt(&v) {
                let ghost u0 = u@;
                u = u.sub(&v);
                x1 = x1.sub(&x2);
                y1 = y1.sub(&y2);
                proof {
                    let (h1o, h2o) = (h1, h2);
                    h1 = g1 + h1;
                    h2 = g2 + h2;
                    assert(g1 * u0 + h1o * v@ == g1 * u@ + h1 * v@) by (nonlinear_arith)
                        requires
                            u0 == u@ + v@,
                            h1 == g1 + h1o,
                    ;
                    assert(g2 * u0 + h2o * v@ == g2 * u@ + h2 * v@) by (nonlinear_arith)
                        requires
                            u0 == u@ + v@,
                            h2 == g2 + h2o,
                    ;
                    assert(u@ == x1@ * uu@ + y1@ * vv@) by (nonlinear_arith)
                        requires
                            u0 == u@ + v@,
                            u0 == (x1@ + x2@) * uu@ + (y1@ + y2@) * vv@,
                            v@ == x2@ * uu@ + y2@ * vv@,
                    ;
                }
            } else {
                let ghost v0 = v@;
                v = v.sub(&u);
                x2 = x2.sub(&x1);
                y2 = y2.sub(&y1);
                proof {
                    let (g1o, g2o) = (g1, g2);
                    g1 = g1 + h1;
                    g2 = g2 + h2;
                    assert(g1o * u@ + h1 * v0 == g1 * u@ + h1 * v@) by (nonlinear_arith)
                        requires
                            v0 == v@ + u@,
                            g1 == g1o + h1,
                    ;
                    assert(g2o * u@ + h2 * v0 == g2 * u@ + h2 * v@) by (nonlinear_arith)
                        requires
                            v0 == v@ + u@,
                            g2 == g2o + h2,
                    ;
                    assert(v@ == x2@ * uu@ + y2@ * vv@) by (nonlinear_arith)
                        requires
                            v0 == v@ + u@,
                            v0 == (x2@ + x1@) * uu@ + (y2@ + y1@) * vv@,
                            u@ == x1@ * uu@ + y1@ * vv@,
                    ;
                }
            }
        }
        let d = v.mul(&p2);
        proof {
            let (dd, vf, pp) = (d@, v@, p2@);
            assert(dd > 0) by (nonlinear_arith)
                requires
                    dd == vf * pp,
                    vf > 0,
                    pp > 0,
            ;
            assert(u_in@ == h1 * dd + 0) by (nonlinear_arith)
                requires
                    uu@ == g1 * 0 + h1 * vf,
                    uu@ * pp == u_in@,
                    dd == vf * pp,
            ;
            assert(v_in@ == h2 * dd + 0) by (nonlinear_arith)
                requires
                    vv@ == g2 * 0 + h2 * vf,
                    vv@ * pp == v_in@,
                    dd == vf * pp,
            ;
            lemma_fundamental_div_mod_converse(u_in@, dd, h1, 0);
            lemma_fundamental_div_mod_converse(v_in@, dd, h2, 0);
            let (xf, yf, uf, wf) = (x2@, y2@, uu@, vv@);
            assert(vf * pp == xf * (uf * pp) + yf * (wf * pp)) by (nonlinear_arith)
                requires
                    vf == xf * uf + yf * wf,
            ;
            assert(xf * (uf * pp) == u_in@ * xf);
            assert(yf * (wf * pp) == v_in@ * yf);
        }
        (d, x2, y2)
    }

    /// Gauss composition followed by reduction. Fails with `NonCoprimeForms`
    /// exactly where the first coefficients are not coprime.
    pub fn compose(&self, other: &Self, discriminant: &BigInt) -> (r: Result<ClassGroupElement, HtpError>)
        requires
            self.wf(),
            other.wf(),
            discriminant.wf(),
            valid_disc(discriminant@),
            is_form(self@, discriminant@),
            is_form(other@, discriminant@),
        ensures
            match r {
                Ok(f) => {
                    &&& f.wf()
                    &&& compose_spec(self@, other@, discriminant@) == Some(f@)
                    &&& is_reduced(f@, discriminant@)
                },
                Err(e) => {
                    &&& e == HtpError::NonCoprimeForms
                    &&& compose_spec(self@, other@, discriminant@) is None
                },
            },
    {
        let ghost d = discriminant@;
        let two = BigInt::from_u64(2);
        let (g, x, y) = ClassGroupElement::binary_xgcd(&self.a, &other.a);
        if !g.equals(&BigInt::one()) {
            proof {
                lemma_common_divisor_not_coprime(self.a@, other.a@, g@);
            }
            return Err(HtpError::NonCoprimeForms);
        }
        let s = self.b.add(&other.b).div_floor(&two);
        let a3 = self.a.mul(&other.a);
        let b3 = other.b.add(&two.mul(&other.a).mul(&y).mul(&s.sub(&other.b)));
        proof {
            lemma_b_odd(self.a@, self.b@, self.c@, d);
            lemma_b_odd(other.a@, other.b@, other.c@, d);
            lemma_fundamental_div_mod(self.b@, 2);
            lemma_fundamental_div_mod(other.b@, 2);
            lemma_fundamental_div_mod_converse(self.b@ + other.b@, 2, self.b@ / 2 + other.b@ / 2 + 1, 0);
            lemma_compose_divisible(self@, other@, x@, y@, d);
            lemma_compose_any_y(self@, other@, x@, y@, d);
            assert(a3@ > 0) by (nonlinear_arith)
                requires
                    a3@ == self.a@ * other.a@,
                    self.a@ > 0,
                    other.a@ > 0,
            ;
        }
        Ok(ClassGroupElement::reduce_form(a3, b3, discriminant))
    }

    /// Exponentiation by left-to-right square and multiply over the bits of
    /// `exp`, starting from the identity.
    pub fn pow(&self, exp: &BigNat, discriminant: &BigInt) -> (r: Result<ClassGroupElement, HtpError>)
        requires
            self.wf(),
            exp.wf(),
            discriminant.wf(),
            valid_disc(discriminant@),
            is_form(self@, discriminant@),
        ensures
            match r {
                Ok(f) => {
                    &&& f.wf()
                    &&& pow_spec(self@, exp@, discriminant@) == Some(f@)
                    &&& is_reduced(f@, discriminant@)
                },
                Err(e) => {
                    &&& e == HtpError::NonCoprimeForms
                    &&& pow_spec(self@, exp@, discriminant@) is None
                },
            },
    {
        let ghost d = discriminant@;
        let two = BigNat::from_u64(2);
        let mut bits: Vec<bool> = Vec::new();
        let mut q = exp.dup();
        let ghost mut qs: Seq<nat> = seq![exp@];
        while !q.is_zero()
            invariant
                q.wf(),
                two@ == 2,
                qs.len() == bits@.len() + 1,
                qs[0] == exp@,
                q@ == qs.last(),
                forall|j: int|
                    0 <= j < bits@.len() ==> #[trigger] halves(qs, j) && bits@[j] == (qs[j] % 2 == 1),
            decreases q@,
        {
            bits.push(q.is_odd());
            let nq = q.div(&two);
            proof {
                let old_qs = qs;
                qs = qs.push(nq@);
                assert forall|j: int| 0 <= j < bits@.len() implies #[trigger] halves(qs, j) && bits@[j] == (qs[j] % 2 == 1) by {
                    if j < bits@.len() - 1 {
                        assert(halves(old_qs, j));
                    }
                }
            }
            q = nq;
        }
        let mut res = ClassGroupElement::identity(discriminant);
        let mut i = bits.len();
        while i > 0
            invariant
                i <= bits@.len(),
                qs.len() == bits@.len() + 1,
                qs[0] == exp@,
                qs[bits@.len() as int] == 0,
                forall|j: int|
                    0 <= j < bits@.len() ==> #[trigger] halves(qs, j) && bits@[j] == (qs[j] % 2 == 1),
                self.wf(),
                discriminant.wf(),
                discriminant@ == d,
                valid_disc(d),
                is_form(self@, d),
                res.wf(),
                is_reduced(res@, d),
                pow_spec(self@, qs[i as int], d) == Some(res@),
            decreases i,
        {
            i = i - 1;
            proof {
                assert(halves(qs, i as int));
            }
            res = match res.square(discriminant) {
                Ok(v) => v,
                Err(e) => {
                    proof {
                        lemma_pow_none(self@, qs, i as int, d);
                    }
                    return Err(e);
                },
            };
            if bits[i] {
                res = match res.compose(self, discriminant) {
                    Ok(v) => v,
                    Err(e) => {
                        proof {
                            lemma_pow_none(self@, qs, i as int, d);
                        }
                        return Err(e);
                    },
                };
            }
        }
        Ok(res)
    }

    /// The first non-principal reduced form found from `(a, b)` with `a` in
    /// `[2, GENERATOR_SEARCH_LIMIT)` and `b` odd in `[1, a]`, both ascending;
    /// `None` when no pair in that range gives one.
    pub fn generator(discriminant: &BigInt) -> (r: Option<ClassGroupElement>)
        requires
            discriminant.wf(),
            valid_disc(discriminant@),
        ensures
            match r {
                Some(f) => {
                    &&& f.wf()
                    &&& generator_spec(discriminant@) == Some(f@)
                    &&& is_reduced(f@, discriminant@)
                    &&& f@.0 > 1
                    &&& exists|a: int, b: int|
                        a < GENERATOR_SEARCH_LIMIT && #[trigger] generator_candidate(a, b, discriminant@)
                            && f@ == reduce_spec(a, b, discriminant@) && first_candidate(a, b, discriminant@)
                },
                None => {
                    &&& generator_spec(discriminant@) is None
                    &&& forall|a: int, b: int|
                        a < GENERATOR_SEARCH_LIMIT ==> !#[trigger] generator_candidate(a, b, discriminant@)
                },
            },
    {
        let ghost d = discriminant@;
        let mut a: u64 = 2;
        while a < GENERATOR_SEARCH_LIMIT
            invariant
                2 <= a <= GENERATOR_SEARCH_LIMIT,
                discriminant.wf(),
                discriminant@ == d,
                valid_disc(d),
                generator_search(a as nat, 1, d) == generator_spec(d),
                forall|a2: int, b2: int| a2 < a ==> !#[trigger] generator_candidate(a2, b2, d),
            decreases GENERATOR_SEARCH_LIMIT - a,
        {
            let big_a = BigInt::from_u64(a);
            let four_a = BigInt::from_u64(4).mul(&big_a);
            let mut b: u64 = 1;
            while b <= a
                invariant
                    2 <= a < GENERATOR_SEARCH_LIMIT,
                    1 <= b <= a + 2,
                    b % 2 == 1,
                    big_a.wf(),
                    big_a@ == a,
                    four_a.wf(),
                    four_a@ == 4 * a,
                    discriminant.wf(),
                    discriminant@ == d,
                    valid_disc(d),
                    generator_search(a as nat, b as nat, d) == generator_spec(d),
                    forall|a2: int, b2: int| a2 < a ==> !#[trigger] generator_candidate(a2, b2, d),
                    forall|b2: int| b2 < b ==> !#[trigger] generator_candidate(a as int, b2, d),
                decreases a + 2 - b,
            {
                let big_b = BigInt::from_u64(b);
                let n = big_b.mul(&big_b).sub(discriminant);
                if n.rem_euc(&four_a).is_zero() {
                    let f = ClassGroupElement::reduce_form(big_a.dup(), big_b, discriminant);
                    if BigInt::one().lt(&f.a) {
                        proof {
                            assert(generator_candidate(a as int, b as int, d));
                            assert(first_candidate(a as int, b as int, d));
                        }
                        return Some(f);
                    }
                }
                proof {
                    assert(!generator_candidate(a as int, b as int, d));
                    assert(generator_search(a as nat, b as nat, d) == generator_search(a as nat, (b + 2) as nat, d));
                    assert forall|b2: int| b2 < b + 2 implies !#[trigger] generator_candidate(a as int, b2, d) by {
                        if b2 == b + 1 {
                            assert((b + 1) % 2 == 0);
                        }
                    }
                }
                b = b + 2;
            }
            proof {
                assert(generator_search(a as nat, b as nat, d) == generator_search((a + 1) as nat, 1, d));
                assert forall|a2: int, b2: int| a2 < a + 1 implies !#[trigger] generator_candidate(a2, b2, d) by {
                    if a2 == a {
                        if b2 < b {
                        }
                    }
                }
            }
            a = a + 1;
        }
        None
    }

    /// `compose(self, self)`.
    pub fn square(&self, discriminant: &BigInt) -> (r: Result<ClassGroupElement, HtpError>)
        requires
            self.wf(),
            discriminant.wf(),
            valid_disc(discriminant@),
            is_form(self@, discriminant@),
        ensures
            match r {
                Ok(f) => {
                    &&& f.wf()
                    &&& compose_spec(self@, self@, discriminant@) == Some(f@)
                    &&& is_reduced(f@, discriminant@)
                },
                Err(e) => {
                    &&& e == HtpError::NonCoprimeForms
                    &&& compose_spec(self@, self@, discriminant@) is None
                },
            },
    {
        self.compose(self, discriminant)
    }

    /// Reduces `(a, b, (b^2 - d) / 4a)` to the reduced form of its class.
    fn reduce_form(a: BigInt, b: BigInt, discriminant: &BigInt) -> (r: ClassGroupElement)
        requires
            a.wf(),
            b.wf(),
            discriminant.wf(),
            a@ > 0,
            discriminant@ < 0,
            (b@ * b@ - discriminant@) % (4 * a@) == 0,
        ensures
            r.wf(),
            r@ == reduce_spec(a@, b@, discriminant@),
            is_reduced(r@, discriminant@),
    {
        let ghost d = discriminant@;
        let ghost b_in = b@;
        let two = BigInt::from_u64(2);
        let four = BigInt::from_u64(4);
        let two_a = two.mul(&a);
        let mut b = b.rem_euc(&two_a);
        if a.lt(&b) {
            b = b.sub(&two_a);
        }
        let four_a = four.mul(&a);
        let c = b.mul(&b).sub(discriminant).div_floor(&four_a);
        proof {
            lemma_norm_b_exact(a@, b_in, b@, d);
            lemma_fundamental_div_mod(b@ * b@ - d, 4 * a@);
            assert(c@ > 0) by (nonlinear_arith)
                requires
                    b@ * b@ - d == (4 * a@) * c@,
                    d < 0,
                    a@ > 0,
            ;
        }
        let mut a = a;
        let mut c = c;
        let ghost target = reduce_loop(a@, b@, c@);
        let zero = BigInt::zero();
        while c.lt(&a) || (a.equals(&c) && b.lt(&zero))
            invariant
                a.wf(),
                b.wf(),
                c.wf(),
                two.wf(),
                zero.wf(),
                discriminant.wf(),
                two@ == 2,
                zero@ == 0,
                discriminant@ == d,
                d < 0,
                a@ > 0,
                c@ > 0,
                -a@ < b@ <= a@,
                b@ * b@ - 4 * a@ * c@ == d,
                reduce_loop(a@, b@, c@) == target,
            decreases 2 * a@ + (if b@ < 0 { 1int } else { 0int }),
        {
            let two_c = two.mul(&c);
            let s = c.add(&b).div_floor(&two_c);
            proof {
                lemma_step_bounds(b@, c@, s@);
                lemma_step_form(a@, b@, c@, s@, d);
                if a@ == c@ {
                    lemma_step_zero(b@, c@);
                }
            }
            let b_new = two_c.mul(&s).sub(&b);
            let c_new = c.mul(&s).mul(&s).sub(&s.mul(&b)).add(&a);
            a = c;
            b = b_new;
            c = c_new;
        }
        ClassGroupElement { a, b, c }
    }
}

} // verus!
