//! The binary wire format.
//!
//! Integers of fixed width are little-endian; a byte string is its length
//! as a `u64` then its bytes; a big integer is the byte string of its
//! minimal two's-complement little-endian form; a text is the byte string
//! of its UTF-8 encoding. Each `parse_*` reads from a position and gives the
//! value and the position after it.

use vstd::prelude::*;
use vstd::arithmetic::div_mod::{lemma_fundamental_div_mod, lemma_fundamental_div_mod_converse};
use vstd::utf8::{decode_utf8, encode_utf8, encode_utf8_decode_utf8, encode_utf8_valid_utf8, valid_utf8};
use crate::affine::{AffineTuple, TupleView};
use crate::algebra::ClassGroupElement;
use crate::bignum::{canonical, le_val, pow_nat, BigInt, BigNat};
use crate::wire::{HtpRequest, HtpResponse, RequestHeader};
use crate::algebra::{is_form, valid_disc};
use crate::hashing::{append_bytes, le64, le_bytes};
use crate::tensor::{
    coord_key, entries_ok, entry_ok, lemma_insert_keeps_order, in_range, key_of, keys_sorted, le_to_u128, Entry, EntryView, HyperTensor, CAPACITY,
    MAX_DIMENSIONS,
};

verus! {

pub proof fn lemma_le_bytes_len(x: nat, n: nat)
    ensures
        le_bytes(x, n).len() == n,
    decreases n,
{
    if n > 0 {
        lemma_le_bytes_len(x / 256, (n - 1) as nat);
    }
}

pub proof fn lemma_le_bytes_value(x: nat, n: nat)
    requires
        x < pow_nat(256, n),
    ensures
        le_val(le_bytes(x, n)) == x,
        le_bytes(x, n).len() == n,
    decreases n,
{
    if n > 0 {
        let p = pow_nat(256, (n - 1) as nat);
        lemma_fundamental_div_mod(x as int, 256);
        assert(x / 256 < p) by (nonlinear_arith)
            requires
                x < 256 * p,
                x == 256 * (x / 256) + x % 256,
                x % 256 >= 0,
        ;
        lemma_le_bytes_value(x / 256, (n - 1) as nat);
        let s = le_bytes(x, n);
        assert(s.drop_first() =~= le_bytes(x / 256, (n - 1) as nat));
    }
}

/// `le_val` of a sequence with one more byte on top.
pub proof fn lemma_le_val_push(s: Seq<u8>, b: u8)
    ensures
        le_val(s.push(b)) == le_val(s) + b * pow_nat(256, s.len()),
    decreases s.len(),
{
    if s.len() == 0 {
        assert(s.push(b).drop_first() =~= Seq::<u8>::empty());
        assert(s.push(b)[0] == b);
        assert(le_val(Seq::<u8>::empty()) == 0);
        assert(le_val(s.push(b)) == b + 256 * le_val(Seq::<u8>::empty()));
        assert(pow_nat(256, 0) == 1);
    } else {
        assert(s.push(b).drop_first() =~= s.drop_first().push(b));
        assert(s.push(b)[0] == s[0]);
        lemma_le_val_push(s.drop_first(), b);
        let p = pow_nat(256, (s.len() - 1) as nat);
        assert(pow_nat(256, s.len()) == 256 * p);
        assert(256 * (le_val(s.drop_first()) + b * p) == 256 * le_val(s.drop_first()) + b * (256 * p)) by (nonlinear_arith);
    }
}

/// Every byte complemented.
pub open spec fn complement(s: Seq<u8>) -> Seq<u8> {
    s.map_values(|b: u8| (255 - b) as u8)
}

pub proof fn lemma_complement_value(s: Seq<u8>)
    ensures
        le_val(complement(s)) + le_val(s) + 1 == pow_nat(256, s.len()),
    decreases s.len(),
{
    if s.len() > 0 {
        assert(complement(s).drop_first() =~= complement(s.drop_first()));
        lemma_complement_value(s.drop_first());
    }
}

/// The minimal little-endian bytes of `n`.
pub open spec fn nat_bytes(n: nat) -> Seq<u8>
    decreases n,
{
    if n == 0 {
        Seq::empty()
    } else {
        seq![(n % 256) as u8] + nat_bytes(n / 256)
    }
}

/// The canonical bytes of a number are its minimal bytes.
pub proof fn lemma_canonical_is_nat_bytes(s: Seq<u8>)
    requires
        canonical(s),
    ensures
        s == nat_bytes(le_val(s)),
    decreases s.len(),
{
    if s.len() > 0 {
        let rest = s.drop_first();
        assert(canonical(rest));
        lemma_canonical_is_nat_bytes(rest);
        crate::bignum::lemma_canonical_nonzero(s);
        let n = le_val(s);
        lemma_fundamental_div_mod_converse(n as int, 256, le_val(rest) as int, s[0] as int);
        assert(s =~= seq![(n % 256) as u8] + nat_bytes(n / 256));
    }
}

/// The minimal two's-complement bytes of `x`.
pub open spec fn twos(x: int) -> Seq<u8> {
    if x >= 0 {
        let m = nat_bytes(x as nat);
        if m.len() > 0 && m.last() >= 128 {
            m.push(0)
        } else {
            m
        }
    } else {
        let c = complement(nat_bytes((-x - 1) as nat));
        if c.len() == 0 || c.last() < 128 {
            c.push(255)
        } else {
            c
        }
    }
}

/// The value of two's-complement bytes.
pub open spec fn from_twos(s: Seq<u8>) -> int {
    if s.len() > 0 && s.last() >= 128 {
        le_val(s) - pow_nat(256, s.len())
    } else {
        le_val(s) as int
    }
}

proof fn lemma_nat_bytes_value(n: nat)
    ensures
        le_val(nat_bytes(n)) == n,
        canonical(nat_bytes(n)),
    decreases n,
{
    if n > 0 {
        lemma_nat_bytes_value(n / 256);
        lemma_fundamental_div_mod(n as int, 256);
        assert(nat_bytes(n).drop_first() =~= nat_bytes(n / 256));
        if n / 256 == 0 {
            assert(n % 256 != 0);
        }
    }
}

pub proof fn lemma_twos_round_trip(x: int)
    ensures
        from_twos(twos(x)) == x,
{
    if x >= 0 {
        let m = nat_bytes(x as nat);
        lemma_nat_bytes_value(x as nat);
        if m.len() > 0 && m.last() >= 128 {
            lemma_le_val_push(m, 0);
            assert(m.push(0).last() == 0);
        }
    } else {
        let m = nat_bytes((-x - 1) as nat);
        lemma_nat_bytes_value((-x - 1) as nat);
        let c = complement(m);
        lemma_complement_value(m);
        if c.len() == 0 || c.last() < 128 {
            lemma_le_val_push(c, 255);
            assert(pow_nat(256, c.len() + 1) == 256 * pow_nat(256, c.len()));
        }
    }
}

/// Relies on `String::from_utf8`: a text exactly when the bytes are valid
/// UTF-8, holding the characters they encode.
#[verifier::external_body]
fn text_from_utf8(b: Vec<u8>) -> (r: Option<String>)
    ensures
        r is Some <==> valid_utf8(b@),
        r matches Some(s) ==> s@ == decode_utf8(b@),
{
    String::from_utf8(b).ok()
}

// ---- serialisers ----

pub open spec fn ser_u64(x: u64) -> Seq<u8> {
    le_bytes(x as nat, 8)
}

pub open spec fn ser_u16(x: u16) -> Seq<u8> {
    le_bytes(x as nat, 2)
}

pub open spec fn ser_bytes(b: Seq<u8>) -> Seq<u8> {
    ser_u64(b.len() as u64) + b
}

pub open spec fn ser_int(x: int) -> Seq<u8> {
    ser_bytes(twos(x))
}

pub open spec fn ser_text(t: Seq<char>) -> Seq<u8> {
    ser_bytes(encode_utf8(t))
}

// ---- parsers ----

pub open spec fn parse_u64(s: Seq<u8>, p: int) -> Option<(u64, int)> {
    if 0 <= p && p + 8 <= s.len() {
        Some((le_val(s.subrange(p, p + 8)) as u64, p + 8))
    } else {
        None
    }
}

pub open spec fn parse_u16(s: Seq<u8>, p: int) -> Option<(u16, int)> {
    if 0 <= p && p + 2 <= s.len() {
        Some((le_val(s.subrange(p, p + 2)) as u16, p + 2))
    } else {
        None
    }
}

pub open spec fn parse_u8(s: Seq<u8>, p: int) -> Option<(u8, int)> {
    if 0 <= p && p + 1 <= s.len() {
        Some((s[p], p + 1))
    } else {
        None
    }
}

pub open spec fn parse_bytes(s: Seq<u8>, p: int) -> Option<(Seq<u8>, int)> {
    match parse_u64(s, p) {
        None => None,
        Some((n, q)) => if q + n <= s.len() {
            Some((s.subrange(q, q + n), q + n))
        } else {
            None
        },
    }
}

pub open spec fn parse_int(s: Seq<u8>, p: int) -> Option<(int, int)> {
    match parse_bytes(s, p) {
        None => None,
        Some((b, q)) => Some((from_twos(b), q)),
    }
}

pub open spec fn parse_text(s: Seq<u8>, p: int) -> Option<(Seq<char>, int)> {
    match parse_bytes(s, p) {
        None => None,
        Some((b, q)) => if valid_utf8(b) {
            Some((decode_utf8(b), q))
        } else {
            None
        },
    }
}

// ---- round trips of the primitives ----

pub proof fn lemma_u64_round_trip(pre: Seq<u8>, x: u64, rest: Seq<u8>)
    ensures
        parse_u64(pre + ser_u64(x) + rest, pre.len() as int) == Some((x, pre.len() as int + 8)),
{
    reveal_with_fuel(pow_nat, 9);
    lemma_le_bytes_value(x as nat, 8);
    let s = pre + ser_u64(x) + rest;
    assert(s.subrange(pre.len() as int, pre.len() + 8int) =~= ser_u64(x));
}

pub proof fn lemma_u16_round_trip(pre: Seq<u8>, x: u16, rest: Seq<u8>)
    ensures
        parse_u16(pre + ser_u16(x) + rest, pre.len() as int) == Some((x, pre.len() as int + 2)),
{
    reveal_with_fuel(pow_nat, 3);
    lemma_le_bytes_value(x as nat, 2);
    let s = pre + ser_u16(x) + rest;
    assert(s.subrange(pre.len() as int, pre.len() + 2int) =~= ser_u16(x));
}

pub proof fn lemma_bytes_round_trip(pre: Seq<u8>, b: Seq<u8>, rest: Seq<u8>)
    requires
        b.len() <= u64::MAX,
    ensures
        parse_bytes(pre + ser_bytes(b) + rest, pre.len() as int) == Some((b, pre.len() as int + 8 + b.len())),
{
    reveal_with_fuel(pow_nat, 9);
    lemma_le_bytes_value(b.len(), 8);
    lemma_u64_round_trip(pre, b.len() as u64, b + rest);
    assert(pre + ser_bytes(b) + rest =~= pre + ser_u64(b.len() as u64) + (b + rest));
    let s = pre + ser_bytes(b) + rest;
    assert(s.subrange(pre.len() + 8int, pre.len() + 8int + b.len()) =~= b);
}

pub proof fn lemma_int_round_trip(pre: Seq<u8>, x: int, rest: Seq<u8>)
    requires
        twos(x).len() <= u64::MAX,
    ensures
        parse_int(pre + ser_int(x) + rest, pre.len() as int) == Some((x, pre.len() as int + ser_int(x).len())),
{
    lemma_bytes_round_trip(pre, twos(x), rest);
    lemma_twos_round_trip(x);
    lemma_le_bytes_len(twos(x).len(), 8);
}

pub proof fn lemma_text_round_trip(pre: Seq<u8>, t: Seq<char>, rest: Seq<u8>)
    requires
        encode_utf8(t).len() <= u64::MAX,
    ensures
        parse_text(pre + ser_text(t) + rest, pre.len() as int) == Some((t, pre.len() as int + ser_text(t).len())),
{
    lemma_bytes_round_trip(pre, encode_utf8(t), rest);
    lemma_le_bytes_len(encode_utf8(t).len(), 8);
    encode_utf8_valid_utf8(t);
    encode_utf8_decode_utf8(t);
}

// ---- executable encoders ----

pub fn put_u64(out: &mut Vec<u8>, x: u64)
    ensures
        final(out)@ == old(out)@ + ser_u64(x),
{
    let b = le64(x);
    append_bytes(out, b.as_slice());
}

pub fn put_u16(out: &mut Vec<u8>, x: u16)
    ensures
        final(out)@ == old(out)@ + ser_u16(x),
{
    let ghost before = out@;
    out.push((x % 256) as u8);
    out.push((x / 256) as u8);
    proof {
        reveal_with_fuel(le_bytes, 3);
        assert((x / 256) as nat / 256 == 0);
        assert(out@ =~= before + ser_u16(x));
    }
}

pub fn put_bytes(out: &mut Vec<u8>, b: &[u8])
    ensures
        final(out)@ == old(out)@ + ser_bytes(b@),
{
    put_u64(out, b.len() as u64);
    append_bytes(out, b);
    proof {
        assert(final(out)@ =~= old(out)@ + ser_bytes(b@));
    }
}

/// Appends the two's-complement form of `x`.
pub fn put_int(out: &mut Vec<u8>, x: &BigInt)
    requires
        x.wf(),
    ensures
        final(out)@ == old(out)@ + ser_int(x@),
{
    let mut t: Vec<u8>;
    if !x.is_negative() {
        t = x.mag.to_le_bytes();
        proof {
            lemma_canonical_is_nat_bytes(t@);
        }
        if t.len() > 0 && t[t.len() - 1] >= 128 {
            t.push(0);
        }
    } else {
        let m = x.mag.sub(&BigNat::from_u64(1));
        let mb = m.to_le_bytes();
        proof {
            lemma_canonical_is_nat_bytes(mb@);
        }
        t = Vec::new();
        let mut i: usize = 0;
        while i < mb.len()
            invariant
                i <= mb@.len(),
                t@ == complement(mb@).subrange(0, i as int),
            decreases mb@.len() - i,
        {
            t.push(255 - mb[i]);
            proof {
                assert(t@ =~= complement(mb@).subrange(0, i + 1));
            }
            i = i + 1;
        }
        proof {
            assert(t@ =~= complement(mb@));
        }
        if t.len() == 0 || t[t.len() - 1] < 128 {
            t.push(255);
        }
    }
    put_bytes(out, t.as_slice());
}

pub fn put_text(out: &mut Vec<u8>, s: &str)
    ensures
        final(out)@ == old(out)@ + ser_text(s@),
{
    put_bytes(out, s.as_bytes());
}

// ---- executable decoders ----

pub fn get_u64(s: &[u8], p: usize) -> (r: Option<(u64, usize)>)
    ensures
        match r {
            Some((v, q)) => parse_u64(s@, p as int) == Some((v, q as int)),
            None => parse_u64(s@, p as int) is None,
        },
{
    if p > s.len() || s.len() - p < 8 {
        return None;
    }
    let v = le_to_u128(slice_range(s, p, p + 8));
    proof {
        reveal_with_fuel(pow_nat, 9);
    }
    Some((v as u64, p + 8))
}

pub fn get_u16(s: &[u8], p: usize) -> (r: Option<(u16, usize)>)
    ensures
        match r {
            Some((v, q)) => parse_u16(s@, p as int) == Some((v, q as int)),
            None => parse_u16(s@, p as int) is None,
        },
{
    if p > s.len() || s.len() - p < 2 {
        return None;
    }
    let v = le_to_u128(slice_range(s, p, p + 2));
    proof {
        reveal_with_fuel(pow_nat, 3);
    }
    Some((v as u16, p + 2))
}

pub fn get_u8(s: &[u8], p: usize) -> (r: Option<(u8, usize)>)
    ensures
        match r {
            Some((v, q)) => parse_u8(s@, p as int) == Some((v, q as int)),
            None => parse_u8(s@, p as int) is None,
        },
{
    if p >= s.len() {
        return None;
    }
    Some((s[p], p + 1))
}

/// The bytes `s[lo..hi]`.
pub fn slice_range(s: &[u8], lo: usize, hi: usize) -> (r: &[u8])
    requires
        lo <= hi <= s@.len(),
    ensures
        r@ == s@.subrange(lo as int, hi as int),
{
    let r = s.split_at(hi).0.split_at(lo).1;
    proof {
        assert(r@ =~= s@.subrange(lo as int, hi as int));
    }
    r
}

pub fn get_bytes(s: &[u8], p: usize) -> (r: Option<(Vec<u8>, usize)>)
    ensures
        match r {
            Some((v, q)) => parse_bytes(s@, p as int) == Some((v@, q as int)),
            None => parse_bytes(s@, p as int) is None,
        },
{
    let (n, q) = get_u64(s, p)?;
    if s.len() - q < n as usize || (n as u128) > (s.len() - q) as u128 {
        return None;
    }
    let mut v: Vec<u8> = Vec::new();
    append_bytes(&mut v, slice_range(s, q, q + n as usize));
    proof {
        assert(v@ =~= s@.subrange(q as int, q + n));
    }
    Some((v, q + n as usize))
}

/// Reads a big integer.
pub fn get_int(s: &[u8], p: usize) -> (r: Option<(BigInt, usize)>)
    ensures
        match r {
            Some((v, q)) => v.wf() && parse_int(s@, p as int) == Some((v@, q as int)),
            None => parse_int(s@, p as int) is None,
        },
{
    let (b, q) = get_bytes(s, p)?;
    let value = BigNat::from_le_bytes(&b);
    if b.len() > 0 && b[b.len() - 1] >= 128 {
        let mut comp: Vec<u8> = Vec::new();
        let mut i: usize = 0;
        while i < b.len()
            invariant
                i <= b@.len(),
                comp@ == complement(b@).subrange(0, i as int),
            decreases b@.len() - i,
        {
            comp.push(255 - b[i]);
            proof {
                assert(comp@ =~= complement(b@).subrange(0, i + 1));
            }
            i = i + 1;
        }
        proof {
            assert(comp@ =~= complement(b@));
            lemma_complement_value(b@);
        }
        let mag = BigNat::from_le_bytes(&comp).add(&BigNat::from_u64(1));
        let v = BigInt::from_nat(mag).negate();
        Some((v, q))
    } else {
        Some((BigInt::from_nat(value), q))
    }
}

pub fn get_text(s: &[u8], p: usize) -> (r: Option<(String, usize)>)
    ensures
        match r {
            Some((v, q)) => parse_text(s@, p as int) == Some((v@, q as int)),
            None => parse_text(s@, p as int) is None,
        },
{
    let (b, q) = get_bytes(s, p)?;
    let t = text_from_utf8(b)?;
    Some((t, q))
}


// ---- tuples ----

pub open spec fn ser_tuple(t: TupleView) -> Seq<u8> {
    ser_int(t.0 as int) + ser_int(t.1.0) + ser_int(t.1.1) + ser_int(t.1.2)
}

pub open spec fn parse_tuple(s: Seq<u8>, p: int) -> Option<(TupleView, int)> {
    match parse_int(s, p) {
        None => None,
        Some((pf, p1)) => match parse_int(s, p1) {
            None => None,
            Some((a, p2)) => match parse_int(s, p2) {
                None => None,
                Some((b, p3)) => match parse_int(s, p3) {
                    None => None,
                    Some((c, p4)) => if pf >= 0 {
                        Some(((pf as nat, (a, b, c)), p4))
                    } else {
                        None
                    },
                },
            },
        },
    }
}

/// The tuples one after another.
pub open spec fn ser_tuple_run(ts: Seq<TupleView>) -> Seq<u8>
    decreases ts.len(),
{
    if ts.len() == 0 {
        Seq::empty()
    } else {
        ser_tuple_run(ts.drop_last()) + ser_tuple(ts.last())
    }
}

pub open spec fn ser_tuples(ts: Seq<TupleView>) -> Seq<u8> {
    ser_u64(ts.len() as u64) + ser_tuple_run(ts)
}

pub open spec fn parse_tuple_run(s: Seq<u8>, p: int, n: nat) -> Option<(Seq<TupleView>, int)>
    decreases n,
{
    if n == 0 {
        Some((Seq::empty(), p))
    } else {
        match parse_tuple_run(s, p, (n - 1) as nat) {
            None => None,
            Some((ts, q)) => match parse_tuple(s, q) {
                None => None,
                Some((t, q2)) => Some((ts.push(t), q2)),
            },
        }
    }
}

pub open spec fn parse_tuples(s: Seq<u8>, p: int) -> Option<(Seq<TupleView>, int)> {
    match parse_u64(s, p) {
        None => None,
        Some((n, q)) => parse_tuple_run(s, q, n as nat),
    }
}

/// Every integer of the tuple has a two's-complement form of a size a
/// length prefix can count.
pub open spec fn tuple_fits(t: TupleView) -> bool {
    twos(t.0 as int).len() <= u64::MAX && twos(t.1.0).len() <= u64::MAX && twos(t.1.1).len() <= u64::MAX
        && twos(t.1.2).len() <= u64::MAX
}

#[verifier::rlimit(40)]
pub proof fn lemma_tuple_round_trip(pre: Seq<u8>, t: TupleView, rest: Seq<u8>)
    requires
        tuple_fits(t),
    ensures
        parse_tuple(pre + ser_tuple(t) + rest, pre.len() as int) == Some((t, pre.len() as int + ser_tuple(t).len())),
{
    let (i0, i1, i2, i3) = (ser_int(t.0 as int), ser_int(t.1.0), ser_int(t.1.1), ser_int(t.1.2));
    let r3 = i3 + rest;
    let r2 = i2 + r3;
    let r1 = i1 + r2;
    let s = pre + ser_tuple(t) + rest;
    let (q0, q1, q2, q3) = (pre + i0, pre + i0 + i1, pre + i0 + i1 + i2, pre + i0 + i1 + i2 + i3);
    assert(s =~= pre + i0 + r1);
    assert(s =~= q0 + i1 + r2);
    assert(s =~= q1 + i2 + r3);
    assert(s =~= q2 + i3 + rest);
    lemma_int_round_trip(pre, t.0 as int, r1);
    lemma_int_round_trip(q0, t.1.0, r2);
    lemma_int_round_trip(q1, t.1.1, r3);
    lemma_int_round_trip(q2, t.1.2, rest);
    assert(q3.len() == pre.len() + ser_tuple(t).len());
}

#[verifier::rlimit(40)]
pub proof fn lemma_tuple_run_round_trip(pre: Seq<u8>, ts: Seq<TupleView>, rest: Seq<u8>)
    requires
        forall|i: int| 0 <= i < ts.len() ==> tuple_fits(#[trigger] ts[i]),
    ensures
        parse_tuple_run(pre + ser_tuple_run(ts) + rest, pre.len() as int, ts.len()) == Some(
            (ts, pre.len() as int + ser_tuple_run(ts).len()),
        ),
    decreases ts.len(),
{
    if ts.len() > 0 {
        let init = ts.drop_last();
        let t = ts.last();
        assert(tuple_fits(ts[ts.len() - 1]));
        assert forall|i: int| 0 <= i < init.len() implies tuple_fits(#[trigger] init[i]) by {
            assert(tuple_fits(ts[i]));
        }
        let s = pre + ser_tuple_run(ts) + rest;
        assert(s =~= pre + ser_tuple_run(init) + (ser_tuple(t) + rest));
        lemma_tuple_run_round_trip(pre, init, ser_tuple(t) + rest);
        assert(s =~= (pre + ser_tuple_run(init)) + ser_tuple(t) + rest);
        lemma_tuple_round_trip(pre + ser_tuple_run(init), t, rest);
        assert(init.push(t) =~= ts);
    }
}

#[verifier::rlimit(40)]
pub proof fn lemma_tuples_round_trip(pre: Seq<u8>, ts: Seq<TupleView>, rest: Seq<u8>)
    requires
        ts.len() <= u64::MAX,
        forall|i: int| 0 <= i < ts.len() ==> tuple_fits(#[trigger] ts[i]),
    ensures
        parse_tuples(pre + ser_tuples(ts) + rest, pre.len() as int) == Some(
            (ts, pre.len() as int + ser_tuples(ts).len()),
        ),
{
    let a = ser_u64(ts.len() as u64);
    let b = ser_tuple_run(ts);
    let s = pre + ser_tuples(ts) + rest;
    assert(s =~= pre + a + (b + rest));
    assert(s =~= (pre + a) + b + rest);
    lemma_u64_round_trip(pre, ts.len() as u64, b + rest);
    lemma_le_bytes_len(ts.len(), 8);
    lemma_tuple_run_round_trip(pre + a, ts, rest);
}

pub fn put_tuple(out: &mut Vec<u8>, t: &AffineTuple)
    requires
        t.wf(),
    ensures
        final(out)@ == old(out)@ + ser_tuple(t@),
{
    let p = BigInt::from_nat(t.p_factor.dup());
    put_int(out, &p);
    put_int(out, &t.q_shift.a);
    put_int(out, &t.q_shift.b);
    put_int(out, &t.q_shift.c);
    proof {
        assert(final(out)@ =~= old(out)@ + ser_tuple(t@));
    }
}

pub fn put_tuples(out: &mut Vec<u8>, ts: &Vec<AffineTuple>)
    requires
        forall|i: int| 0 <= i < ts@.len() ==> #[trigger] ts@[i].wf(),
    ensures
        final(out)@ == old(out)@ + ser_tuples(ts@.map_values(|t: AffineTuple| t@)),
{
    let ghost views = ts@.map_values(|t: AffineTuple| t@);
    put_u64(out, ts.len() as u64);
    let ghost base = out@;
    let mut i: usize = 0;
    proof {
        assert(views.subrange(0, 0) =~= Seq::<TupleView>::empty());
    }
    while i < ts.len()
        invariant
            i <= ts@.len(),
            views == ts@.map_values(|t: AffineTuple| t@),
            forall|j: int| 0 <= j < ts@.len() ==> #[trigger] ts@[j].wf(),
            out@ == base + ser_tuple_run(views.subrange(0, i as int)),
        decreases ts@.len() - i,
    {
        put_tuple(out, &ts[i]);
        proof {
            let sub = views.subrange(0, i + 1);
            assert(sub.drop_last() =~= views.subrange(0, i as int));
            assert(sub.last() == ts@[i as int]@);
            assert(out@ =~= base + ser_tuple_run(sub));
        }
        i = i + 1;
    }
    proof {
        assert(views.subrange(0, ts@.len() as int) =~= views);
        assert(final(out)@ =~= old(out)@ + ser_tuples(views));
    }
}

pub fn get_tuple(s: &[u8], p: usize) -> (r: Option<(AffineTuple, usize)>)
    ensures
        match r {
            Some((t, q)) => t.wf() && parse_tuple(s@, p as int) == Some((t@, q as int)),
            None => parse_tuple(s@, p as int) is None,
        },
{
    let (pf, p1) = get_int(s, p)?;
    let (a, p2) = get_int(s, p1)?;
    let (b, p3) = get_int(s, p2)?;
    let (c, p4) = get_int(s, p3)?;
    if pf.is_negative() {
        return None;
    }
    Some((AffineTuple { p_factor: pf.abs(), q_shift: ClassGroupElement { a, b, c } }, p4))
}

pub fn get_tuples(s: &[u8], p: usize) -> (r: Option<(Vec<AffineTuple>, usize)>)
    ensures
        match r {
            Some((ts, q)) => {
                &&& forall|i: int| 0 <= i < ts@.len() ==> #[trigger] ts@[i].wf()
                &&& parse_tuples(s@, p as int) == Some((ts@.map_values(|t: AffineTuple| t@), q as int))
            },
            None => parse_tuples(s@, p as int) is None,
        },
{
    let (n, q0) = get_u64(s, p)?;
    let mut ts: Vec<AffineTuple> = Vec::new();
    let mut q = q0;
    let mut i: u64 = 0;
    while i < n
        invariant
            i <= n,
            parse_u64(s@, p as int) == Some((n, q0 as int)),
            forall|j: int| 0 <= j < ts@.len() ==> #[trigger] ts@[j].wf(),
            parse_tuple_run(s@, q0 as int, i as nat) == Some((ts@.map_values(|t: AffineTuple| t@), q as int)),
        decreases n - i,
    {
        match get_tuple(s, q) {
            None => {
                proof {
                    assert(parse_tuple_run(s@, q0 as int, (i + 1) as nat) is None);
                    lemma_tuple_run_none(s@, q0 as int, (i + 1) as nat, n as nat);
                }
                return None;
            },
            Some((t, q2)) => {
                let ghost before = ts@.map_values(|t: AffineTuple| t@);
                ts.push(t);
                q = q2;
                proof {
                    assert(ts@.map_values(|t: AffineTuple| t@) =~= before.push(t@));
                }
            },
        }
        i = i + 1;
    }
    Some((ts, q))
}

proof fn lemma_tuple_run_none(s: Seq<u8>, p: int, k: nat, n: nat)
    requires
        k <= n,
        parse_tuple_run(s, p, k) is None,
    ensures
        parse_tuple_run(s, p, n) is None,
    decreases n - k,
{
    if k < n {
        lemma_tuple_run_none(s, p, k + 1, n);
    }
}

// ---- requests ----

/// A request as tag, header and identifier (empty for a root request).
pub open spec fn request_model(r: HtpRequest) -> (u8, RequestHeader, Seq<char>) {
    match r {
        HtpRequest::GetProof { header, user_id } => (0, header, user_id@),
        HtpRequest::GetGlobalRoot { header } => (1, header, Seq::empty()),
        HtpRequest::RegisterUser { header, user_id } => (2, header, user_id@),
    }
}

pub open spec fn ser_header(h: RequestHeader) -> Seq<u8> {
    ser_u16(h.version) + ser_u64(h.timestamp) + ser_u64(h.request_id)
}

pub open spec fn ser_request(m: (u8, RequestHeader, Seq<char>)) -> Seq<u8> {
    if m.0 == 1 {
        seq![m.0] + ser_header(m.1)
    } else {
        seq![m.0] + ser_header(m.1) + ser_text(m.2)
    }
}

pub open spec fn parse_header(s: Seq<u8>, p: int) -> Option<(RequestHeader, int)> {
    match parse_u16(s, p) {
        None => None,
        Some((v, p1)) => match parse_u64(s, p1) {
            None => None,
            Some((ts, p2)) => match parse_u64(s, p2) {
                None => None,
                Some((id, p3)) => Some((RequestHeader { version: v, timestamp: ts, request_id: id }, p3)),
            },
        },
    }
}

/// The request at the start of `s`; bytes after it are ignored.
pub open spec fn parse_request(s: Seq<u8>) -> Option<(u8, RequestHeader, Seq<char>)> {
    match parse_u8(s, 0) {
        None => None,
        Some((tag, p1)) => match parse_header(s, p1) {
            None => None,
            Some((h, p2)) => if tag == 1 {
                Some((1u8, h, Seq::empty()))
            } else if tag == 0 || tag == 2 {
                match parse_text(s, p2) {
                    None => None,
                    Some((t, _)) => Some((tag, h, t)),
                }
            } else {
                None
            },
        },
    }
}

proof fn lemma_header_round_trip(pre: Seq<u8>, h: RequestHeader, rest: Seq<u8>)
    ensures
        parse_header(pre + ser_header(h) + rest, pre.len() as int) == Some((h, pre.len() as int + 18)),
        ser_header(h).len() == 18,
{
    lemma_le_bytes_len(h.version as nat, 2);
    lemma_le_bytes_len(h.timestamp as nat, 8);
    lemma_le_bytes_len(h.request_id as nat, 8);
    let (a, b, c) = (ser_u16(h.version), ser_u64(h.timestamp), ser_u64(h.request_id));
    let s = pre + ser_header(h) + rest;
    assert(s =~= pre + a + (b + c + rest));
    lemma_u16_round_trip(pre, h.version, b + c + rest);
    assert(s =~= (pre + a) + b + (c + rest));
    lemma_u64_round_trip(pre + a, h.timestamp, c + rest);
    assert(s =~= (pre + a + b) + c + rest);
    lemma_u64_round_trip(pre + a + b, h.request_id, rest);
}

/// Decoding an encoded request gives the request back, whatever follows it.
pub proof fn lemma_request_round_trip(m: (u8, RequestHeader, Seq<char>), rest: Seq<u8>)
    requires
        m.0 == 0 || m.0 == 1 || m.0 == 2,
        m.0 == 1 ==> m.2 == Seq::<char>::empty(),
        encode_utf8(m.2).len() <= u64::MAX,
    ensures
        parse_request(ser_request(m) + rest) == Some(m),
{
    let s = ser_request(m) + rest;
    let t = seq![m.0];
    assert(s[0] == m.0);
    if m.0 == 1 {
        assert(s =~= t + ser_header(m.1) + rest);
        lemma_header_round_trip(t, m.1, rest);
    } else {
        assert(s =~= t + ser_header(m.1) + (ser_text(m.2) + rest));
        lemma_header_round_trip(t, m.1, ser_text(m.2) + rest);
        assert(s =~= (t + ser_header(m.1)) + ser_text(m.2) + rest);
        lemma_text_round_trip(t + ser_header(m.1), m.2, rest);
    }
}

pub fn put_header(out: &mut Vec<u8>, h: &RequestHeader)
    ensures
        final(out)@ == old(out)@ + ser_header(*h),
{
    put_u16(out, h.version);
    put_u64(out, h.timestamp);
    put_u64(out, h.request_id);
    proof {
        assert(final(out)@ =~= old(out)@ + ser_header(*h));
    }
}

/// The bytes of a request; they decode to the same request.
pub fn encode_request(r: &HtpRequest) -> (out: Vec<u8>)
    ensures
        out@ == ser_request(request_model(*r)),
        encode_utf8(request_model(*r).2).len() <= u64::MAX ==> parse_request(out@) == Some(request_model(*r)),
{
    let mut out: Vec<u8> = Vec::new();
    match r {
        HtpRequest::GetProof { header, user_id } => {
            out.push(0u8);
            put_header(&mut out, header);
            put_text(&mut out, user_id.as_str());
        },
        HtpRequest::GetGlobalRoot { header } => {
            out.push(1u8);
            put_header(&mut out, header);
        },
        HtpRequest::RegisterUser { header, user_id } => {
            out.push(2u8);
            put_header(&mut out, header);
            put_text(&mut out, user_id.as_str());
        },
    }
    proof {
        assert(out@ =~= ser_request(request_model(*r)));
        if encode_utf8(request_model(*r).2).len() <= u64::MAX {
            lemma_request_round_trip(request_model(*r), Seq::empty());
            assert(out@ + Seq::<u8>::empty() =~= out@);
        }
    }
    out
}

/// The request at the start of `s`, if the bytes hold one.
pub fn decode_request(s: &[u8]) -> (r: Option<HtpRequest>)
    ensures
        match r {
            Some(q) => parse_request(s@) == Some(request_model(q)),
            None => parse_request(s@) is None,
        },
{
    let (tag, p1) = get_u8(s, 0)?;
    let (version, p2) = get_u16(s, p1)?;
    let (timestamp, p3) = get_u64(s, p2)?;
    let (request_id, p4) = get_u64(s, p3)?;
    let header = RequestHeader { version, timestamp, request_id };
    if tag == 1 {
        return Some(HtpRequest::GetGlobalRoot { header });
    }
    if tag != 0 && tag != 2 {
        return None;
    }
    let (user_id, _) = get_text(s, p4)?;
    if tag == 0 {
        Some(HtpRequest::GetProof { header, user_id })
    } else {
        Some(HtpRequest::RegisterUser { header, user_id })
    }
}

// ---- responses ----

/// A response as tag, request id, two runs of tuples, epoch and message;
/// a root is a run of one tuple, and fields a kind lacks are zero or empty.
pub type ResponseModel = (u8, u64, Seq<TupleView>, Seq<TupleView>, u64, Seq<char>);

pub open spec fn views_of(ts: Vec<AffineTuple>) -> Seq<TupleView> {
    ts@.map_values(|t: AffineTuple| t@)
}

pub open spec fn response_model(r: HtpResponse) -> ResponseModel {
    match r {
        HtpResponse::ProofBundle { request_id, primary_path, orthogonal_anchors, epoch } => (
            0,
            request_id,
            views_of(primary_path),
            views_of(orthogonal_anchors),
            epoch,
            Seq::empty(),
        ),
        HtpResponse::GlobalRoot(t) => (1, 0, seq![t@], Seq::empty(), 0, Seq::empty()),
        HtpResponse::RegisterSuccess { request_id, epoch } => (2, request_id, Seq::empty(), Seq::empty(), epoch, Seq::empty()),
        HtpResponse::Error(m) => (3, 0, Seq::empty(), Seq::empty(), 0, m@),
    }
}

pub open spec fn ser_response(m: ResponseModel) -> Seq<u8> {
    if m.0 == 0 {
        seq![0u8] + ser_u64(m.1) + ser_tuples(m.2) + ser_tuples(m.3) + ser_u64(m.4)
    } else if m.0 == 1 {
        seq![1u8] + ser_tuple(m.2[0])
    } else if m.0 == 2 {
        seq![2u8] + ser_u64(m.1) + ser_u64(m.4)
    } else {
        seq![3u8] + ser_text(m.5)
    }
}

/// The response at the start of `s`; bytes after it are ignored.
pub open spec fn parse_response(s: Seq<u8>) -> Option<ResponseModel> {
    match parse_u8(s, 0) {
        None => None,
        Some((tag, p1)) => if tag == 0 {
            match parse_u64(s, p1) {
                None => None,
                Some((id, p2)) => match parse_tuples(s, p2) {
                    None => None,
                    Some((path, p3)) => match parse_tuples(s, p3) {
                        None => None,
                        Some((anchors, p4)) => match parse_u64(s, p4) {
                            None => None,
                            Some((epoch, _)) => Some((0u8, id, path, anchors, epoch, Seq::empty())),
                        },
                    },
                },
            }
        } else if tag == 1 {
            match parse_tuple(s, p1) {
                None => None,
                Some((t, _)) => Some((1u8, 0u64, seq![t], Seq::empty(), 0u64, Seq::empty())),
            }
        } else if tag == 2 {
            match parse_u64(s, p1) {
                None => None,
                Some((id, p2)) => match parse_u64(s, p2) {
                    None => None,
                    Some((epoch, _)) => Some((2u8, id, Seq::empty(), Seq::empty(), epoch, Seq::empty())),
                },
            }
        } else if tag == 3 {
            match parse_text(s, p1) {
                None => None,
                Some((m, _)) => Some((3u8, 0u64, Seq::empty(), Seq::empty(), 0u64, m)),
            }
        } else {
            None
        },
    }
}

/// The sizes a response must keep to for its length prefixes.
pub open spec fn response_fits(m: ResponseModel) -> bool {
    &&& m.2.len() <= u64::MAX
    &&& m.3.len() <= u64::MAX
    &&& forall|i: int| 0 <= i < m.2.len() ==> tuple_fits(#[trigger] m.2[i])
    &&& forall|i: int| 0 <= i < m.3.len() ==> tuple_fits(#[trigger] m.3[i])
    &&& encode_utf8(m.5).len() <= u64::MAX
}

/// Decoding an encoded response gives the response back, whatever follows it.
pub proof fn lemma_response_round_trip(m: ResponseModel, rest: Seq<u8>)
    requires
        m.0 <= 3,
        response_fits(m),
        m.0 == 0 ==> m.5 == Seq::<char>::empty(),
        m.0 == 1 ==> m.2.len() == 1 && m.1 == 0 && m.3 == Seq::<TupleView>::empty() && m.4 == 0 && m.5
            == Seq::<char>::empty(),
        m.0 == 2 ==> m.2 == Seq::<TupleView>::empty() && m.3 == Seq::<TupleView>::empty() && m.5 == Seq::<
            char,
        >::empty(),
        m.0 == 3 ==> m.1 == 0 && m.2 == Seq::<TupleView>::empty() && m.3 == Seq::<TupleView>::empty() && m.4
            == 0,
    ensures
        parse_response(ser_response(m) + rest) == Some(m),
{
    if m.0 == 0 {
        lemma_bundle_round_trip(m, rest);
    } else if m.0 == 1 {
        let s = ser_response(m) + rest;
        let t = seq![m.0];
        assert(tuple_fits(m.2[0]));
        assert(s =~= t + ser_tuple(m.2[0]) + rest);
        lemma_tuple_round_trip(t, m.2[0], rest);
        assert(seq![m.2[0]] =~= m.2);
    } else if m.0 == 2 {
        let s = ser_response(m) + rest;
        let t = seq![m.0];
        assert(s =~= t + ser_u64(m.1) + (ser_u64(m.4) + rest));
        lemma_u64_round_trip(t, m.1, ser_u64(m.4) + rest);
        lemma_le_bytes_len(m.1 as nat, 8);
        assert(s =~= (t + ser_u64(m.1)) + ser_u64(m.4) + rest);
        lemma_u64_round_trip(t + ser_u64(m.1), m.4, rest);
    } else {
        let s = ser_response(m) + rest;
        let t = seq![m.0];
        assert(s =~= t + ser_text(m.5) + rest);
        lemma_text_round_trip(t, m.5, rest);
    }
}

#[verifier::rlimit(60)]
proof fn lemma_bundle_round_trip(m: ResponseModel, rest: Seq<u8>)
    requires
        m.0 == 0,
        response_fits(m),
        m.5 == Seq::<char>::empty(),
    ensures
        parse_response(ser_response(m) + rest) == Some(m),
{
    let s = ser_response(m) + rest;
    let t = seq![m.0];
    assert(s[0] == m.0);
    let (a, b, c, d) = (ser_u64(m.1), ser_tuples(m.2), ser_tuples(m.3), ser_u64(m.4));
    let (r3, r2, r1) = (d + rest, c + d + rest, b + c + d + rest);
    assert(s =~= t + a + r1);
    assert(s =~= (t + a) + b + r2);
    assert(s =~= (t + a + b) + c + r3);
    assert(s =~= (t + a + b + c) + d + rest);
    lemma_u64_round_trip(t, m.1, r1);
    lemma_le_bytes_len(m.1 as nat, 8);
    lemma_tuples_round_trip(t + a, m.2, r2);
    lemma_tuples_round_trip(t + a + b, m.3, r3);
    lemma_u64_round_trip(t + a + b + c, m.4, rest);
}

/// All tuples of a response are well formed.
pub open spec fn response_wf(r: HtpResponse) -> bool {
    match r {
        HtpResponse::ProofBundle { primary_path, orthogonal_anchors, .. } => {
            &&& forall|i: int| 0 <= i < primary_path@.len() ==> #[trigger] primary_path@[i].wf()
            &&& forall|i: int| 0 <= i < orthogonal_anchors@.len() ==> #[trigger] orthogonal_anchors@[i].wf()
        },
        HtpResponse::GlobalRoot(t) => t.wf(),
        _ => true,
    }
}

/// The bytes of a response; they decode to the same response.
pub fn encode_response(r: &HtpResponse) -> (out: Vec<u8>)
    requires
        response_wf(*r),
    ensures
        out@ == ser_response(response_model(*r)),
        response_fits(response_model(*r)) ==> parse_response(out@) == Some(response_model(*r)),
{
    let mut out: Vec<u8> = Vec::new();
    match r {
        HtpResponse::ProofBundle { request_id, primary_path, orthogonal_anchors, epoch } => {
            out.push(0u8);
            put_u64(&mut out, *request_id);
            put_tuples(&mut out, primary_path);
            put_tuples(&mut out, orthogonal_anchors);
            put_u64(&mut out, *epoch);
        },
        HtpResponse::GlobalRoot(t) => {
            out.push(1u8);
            put_tuple(&mut out, t);
        },
        HtpResponse::RegisterSuccess { request_id, epoch } => {
            out.push(2u8);
            put_u64(&mut out, *request_id);
            put_u64(&mut out, *epoch);
        },
        HtpResponse::Error(m) => {
            out.push(3u8);
            put_text(&mut out, m.as_str());
        },
    }
    proof {
        let m = response_model(*r);
        assert(out@ =~= ser_response(m));
        if response_fits(m) {
            lemma_response_round_trip(m, Seq::empty());
            assert(out@ + Seq::<u8>::empty() =~= out@);
        }
    }
    out
}

/// The response at the start of `s`, if the bytes hold one.
pub fn decode_response(s: &[u8]) -> (r: Option<HtpResponse>)
    ensures
        match r {
            Some(q) => parse_response(s@) == Some(response_model(q)) && response_wf(q),
            None => parse_response(s@) is None,
        },
{
    let (tag, p1) = get_u8(s, 0)?;
    if tag == 0 {
        let (request_id, p2) = get_u64(s, p1)?;
        let (primary_path, p3) = get_tuples(s, p2)?;
        let (orthogonal_anchors, p4) = get_tuples(s, p3)?;
        let (epoch, _) = get_u64(s, p4)?;
        Some(HtpResponse::ProofBundle { request_id, primary_path, orthogonal_anchors, epoch })
    } else if tag == 1 {
        let (t, _) = get_tuple(s, p1)?;
        proof {
            assert(seq![t@] == seq![t@]);
        }
        Some(HtpResponse::GlobalRoot(t))
    } else if tag == 2 {
        let (request_id, p2) = get_u64(s, p1)?;
        let (epoch, _) = get_u64(s, p2)?;
        Some(HtpResponse::RegisterSuccess { request_id, epoch })
    } else if tag == 3 {
        let (m, _) = get_text(s, p1)?;
        Some(HtpResponse::Error(m))
    } else {
        None
    }
}

// ---- snapshots ----

/// A snapshot: dimensions, side length, discriminant, epoch and entries.
pub type SnapshotModel = (u64, u64, int, u64, Seq<(Seq<u64>, TupleView)>);

pub open spec fn widen(c: Seq<usize>) -> Seq<u64> {
    c.map_values(|x: usize| x as u64)
}

pub open spec fn snapshot_model(t: HyperTensor) -> SnapshotModel {
    (
        t.dimensions as u64,
        t.side_length as u64,
        t.discriminant@,
        t.epoch,
        t.entries().map_values(|e: EntryView| (widen(e.0), e.1)),
    )
}

pub open spec fn ser_u64_run(xs: Seq<u64>) -> Seq<u8>
    decreases xs.len(),
{
    if xs.len() == 0 {
        Seq::empty()
    } else {
        ser_u64_run(xs.drop_last()) + ser_u64(xs.last())
    }
}

pub open spec fn ser_entry(e: (Seq<u64>, TupleView)) -> Seq<u8> {
    ser_u64_run(e.0) + ser_tuple(e.1)
}

pub open spec fn ser_entry_run(es: Seq<(Seq<u64>, TupleView)>) -> Seq<u8>
    decreases es.len(),
{
    if es.len() == 0 {
        Seq::empty()
    } else {
        ser_entry_run(es.drop_last()) + ser_entry(es.last())
    }
}

pub open spec fn ser_snapshot(m: SnapshotModel) -> Seq<u8> {
    ser_u64(m.0) + ser_u64(m.1) + ser_int(m.2) + ser_u64(m.3) + ser_u64(m.4.len() as u64) + ser_entry_run(m.4)
}

pub open spec fn parse_u64_run(s: Seq<u8>, p: int, n: nat) -> Option<(Seq<u64>, int)>
    decreases n,
{
    if n == 0 {
        Some((Seq::empty(), p))
    } else {
        match parse_u64_run(s, p, (n - 1) as nat) {
            None => None,
            Some((xs, q)) => match parse_u64(s, q) {
                None => None,
                Some((x, q2)) => Some((xs.push(x), q2)),
            },
        }
    }
}

pub open spec fn parse_entry_run(s: Seq<u8>, p: int, n: nat, d: nat) -> Option<(Seq<(Seq<u64>, TupleView)>, int)>
    decreases n,
{
    if n == 0 {
        Some((Seq::empty(), p))
    } else {
        match parse_entry_run(s, p, (n - 1) as nat, d) {
            None => None,
            Some((es, q)) => match parse_u64_run(s, q, d) {
                None => None,
                Some((c, q2)) => match parse_tuple(s, q2) {
                    None => None,
                    Some((t, q3)) => Some((es.push((c, t)), q3)),
                },
            },
        }
    }
}

/// The snapshot at the start of `s`, before any check of its contents.
pub open spec fn parse_snapshot(s: Seq<u8>) -> Option<SnapshotModel> {
    match parse_u64(s, 0) {
        None => None,
        Some((d, p1)) => match parse_u64(s, p1) {
            None => None,
            Some((l, p2)) => match parse_int(s, p2) {
                None => None,
                Some((disc, p3)) => match parse_u64(s, p3) {
                    None => None,
                    Some((epoch, p4)) => match parse_u64(s, p4) {
                        None => None,
                        Some((n, p5)) => match parse_entry_run(s, p5, n as nat, d as nat) {
                            None => None,
                            Some((es, _)) => Some((d, l, disc, epoch, es)),
                        },
                    },
                },
            },
        },
    }
}

/// The integer key of a coordinate of `u64` indices.
pub open spec fn wide_key(c: Seq<u64>, l: nat) -> nat
    decreases c.len(),
{
    if c.len() == 0 {
        0
    } else {
        wide_key(c.drop_last(), l) * l + c.last() as nat
    }
}

/// A snapshot describes a well-formed tensor.
pub open spec fn snapshot_valid(m: SnapshotModel) -> bool {
    &&& 1 <= m.0 <= MAX_DIMENSIONS
    &&& 1 <= m.1 <= usize::MAX
    &&& valid_disc(m.2)
    &&& m.4.len() <= CAPACITY
    &&& forall|i: int|
        0 <= i < m.4.len() ==> {
            let e = #[trigger] m.4[i];
            &&& e.0.len() == m.0
            &&& forall|j: int| 0 <= j < e.0.len() ==> #[trigger] e.0[j] < m.1
            &&& is_form(e.1.1, m.2)
        }
    &&& forall|i: int, j: int|
        0 <= i < j < m.4.len() ==> wide_key(#[trigger] m.4[i].0, m.1 as nat) < wide_key(#[trigger] m.4[j].0, m.1 as nat)
}

pub fn put_entry(out: &mut Vec<u8>, e: &Entry)
    requires
        e.tuple.wf(),
    ensures
        final(out)@ == old(out)@ + ser_entry((widen(e.coord@), e.tuple@)),
{
    let ghost base = out@;
    let mut i: usize = 0;
    while i < e.coord.len()
        invariant
            i <= e.coord@.len(),
            out@ == base + ser_u64_run(widen(e.coord@).subrange(0, i as int)),
        decreases e.coord@.len() - i,
    {
        put_u64(out, e.coord[i] as u64);
        proof {
            let sub = widen(e.coord@).subrange(0, i + 1);
            assert(sub.drop_last() =~= widen(e.coord@).subrange(0, i as int));
            assert(out@ =~= base + ser_u64_run(sub));
        }
        i = i + 1;
    }
    proof {
        assert(widen(e.coord@).subrange(0, e.coord@.len() as int) =~= widen(e.coord@));
    }
    put_tuple(out, &e.tuple);
    proof {
        assert(final(out)@ =~= old(out)@ + ser_entry((widen(e.coord@), e.tuple@)));
    }
}

/// The snapshot bytes of a tensor: everything but the cached root.
pub fn encode_snapshot(t: &HyperTensor) -> (out: Vec<u8>)
    requires
        t.wf(),
    ensures
        out@ == ser_snapshot(snapshot_model(*t)),
{
    let ghost m = snapshot_model(*t);
    let mut out: Vec<u8> = Vec::new();
    put_u64(&mut out, t.dimensions as u64);
    put_u64(&mut out, t.side_length as u64);
    put_int(&mut out, &t.discriminant);
    put_u64(&mut out, t.epoch);
    put_u64(&mut out, t.data.len() as u64);
    let ghost base = out@;
    let mut i: usize = 0;
    while i < t.data.len()
        invariant
            t.wf(),
            m == snapshot_model(*t),
            i <= t.data@.len(),
            out@ == base + ser_entry_run(m.4.subrange(0, i as int)),
        decreases t.data@.len() - i,
    {
        proof {
            assert(entry_ok(t.data@[i as int], t.dimensions, t.side_length, t.discriminant@));
        }
        put_entry(&mut out, &t.data[i]);
        proof {
            let sub = m.4.subrange(0, i + 1);
            assert(sub.drop_last() =~= m.4.subrange(0, i as int));
            assert(sub.last() == (widen(t.data@[i as int].coord@), t.data@[i as int].tuple@));
            assert(out@ =~= base + ser_entry_run(sub));
        }
        i = i + 1;
    }
    proof {
        assert(m.4.subrange(0, t.data@.len() as int) =~= m.4);
        assert(out@ =~= ser_snapshot(m));
    }
    out
}

proof fn lemma_entry_run_prefix(s: Seq<u8>, p: int, k: nat, n: nat, d: nat)
    requires
        k <= n,
        parse_entry_run(s, p, n, d) is Some,
    ensures
        parse_entry_run(s, p, k, d) is Some,
        parse_entry_run(s, p, k, d).unwrap().0 == parse_entry_run(s, p, n, d).unwrap().0.subrange(0, k as int),
    decreases n,
{
    if k < n {
        lemma_entry_run_prefix(s, p, k, (n - 1) as nat, d);
        lemma_entry_run_len(s, p, (n - 1) as nat, d);
        let a = parse_entry_run(s, p, (n - 1) as nat, d).unwrap().0;
        let b = parse_entry_run(s, p, n, d).unwrap().0;
        assert(b.subrange(0, k as int) =~= a.subrange(0, k as int));
    } else {
        lemma_entry_run_len(s, p, n, d);
        assert(parse_entry_run(s, p, n, d).unwrap().0.subrange(0, n as int) =~= parse_entry_run(s, p, n, d).unwrap().0);
    }
}

proof fn lemma_entry_run_len(s: Seq<u8>, p: int, n: nat, d: nat)
    requires
        parse_entry_run(s, p, n, d) is Some,
    ensures
        parse_entry_run(s, p, n, d).unwrap().0.len() == n,
    decreases n,
{
    if n > 0 {
        lemma_entry_run_len(s, p, (n - 1) as nat, d);
    }
}

proof fn lemma_entry_run_none(s: Seq<u8>, p: int, k: nat, n: nat, d: nat)
    requires
        k <= n,
        parse_entry_run(s, p, k, d) is None,
    ensures
        parse_entry_run(s, p, n, d) is None,
    decreases n - k,
{
    if k < n {
        lemma_entry_run_none(s, p, k + 1, n, d);
    }
}

proof fn lemma_wide_key(c: Seq<usize>, l: nat)
    ensures
        wide_key(widen(c), l) == coord_key(c, l),
    decreases c.len(),
{
    if c.len() > 0 {
        assert(widen(c).drop_last() =~= widen(c.drop_last()));
        lemma_wide_key(c.drop_last(), l);
    }
}

/// Reads `d` indices below `l`; `None` if the bytes end first or an index is too large.
fn get_coord(s: &[u8], p: usize, d: u64, l: usize) -> (r: Option<(Vec<usize>, usize)>)
    ensures
        match r {
            Some((c, q)) => {
                &&& parse_u64_run(s@, p as int, d as nat) == Some((widen(c@), q as int))
                &&& c@.len() == d
                &&& in_range(c@, l as nat)
            },
            None => parse_u64_run(s@, p as int, d as nat) is None || exists|j: int|
                0 <= j < d && #[trigger] parse_u64_run(s@, p as int, d as nat).unwrap().0[j] >= l,
        },
{
    let mut c: Vec<usize> = Vec::new();
    let mut q = p;
    let mut i: u64 = 0;
    while i < d
        invariant
            i <= d,
            c@.len() == i,
            in_range(c@, l as nat),
            parse_u64_run(s@, p as int, i as nat) == Some((widen(c@), q as int)),
        decreases d - i,
    {
        match get_u64(s, q) {
            None => {
                proof {
                    lemma_u64_run_none(s@, p as int, (i + 1) as nat, d as nat);
                }
                return None;
            },
            Some((x, q2)) => {
                if x >= l as u64 {
                    proof {
                        if parse_u64_run(s@, p as int, d as nat) is Some {
                            lemma_u64_run_prefix(s@, p as int, (i + 1) as nat, d as nat);
                            lemma_u64_run_len(s@, p as int, d as nat);
                            assert(widen(c@).len() == i);
                            let full = parse_u64_run(s@, p as int, d as nat).unwrap().0;
                            assert(full.subrange(0, i + 1)[i as int] == full[i as int]);
                            assert(parse_u64_run(s@, p as int, (i + 1) as nat).unwrap().0[i as int] == x);
                            assert(parse_u64_run(s@, p as int, d as nat).unwrap().0[i as int] == x);
                        }
                    }
                    return None;
                }
                let ghost before = c@;
                c.push(x as usize);
                q = q2;
                proof {
                    assert(widen(c@) =~= widen(before).push(x));
                    assert forall|j: int| 0 <= j < c@.len() implies #[trigger] c@[j] < l by {
                        if j < before.len() {
                            assert(before[j] < l);
                        }
                    }
                }
            },
        }
        i = i + 1;
    }
    Some((c, q))
}

proof fn lemma_u64_run_len(s: Seq<u8>, p: int, n: nat)
    requires
        parse_u64_run(s, p, n) is Some,
    ensures
        parse_u64_run(s, p, n).unwrap().0.len() == n,
    decreases n,
{
    if n > 0 {
        lemma_u64_run_len(s, p, (n - 1) as nat);
    }
}

proof fn lemma_u64_run_none(s: Seq<u8>, p: int, k: nat, n: nat)
    requires
        k <= n,
        parse_u64_run(s, p, k) is None,
    ensures
        parse_u64_run(s, p, n) is None,
    decreases n - k,
{
    if k < n {
        lemma_u64_run_none(s, p, k + 1, n);
    }
}

proof fn lemma_u64_run_prefix(s: Seq<u8>, p: int, k: nat, n: nat)
    requires
        k <= n,
        parse_u64_run(s, p, n) is Some,
    ensures
        parse_u64_run(s, p, k) is Some,
        parse_u64_run(s, p, k).unwrap().0 == parse_u64_run(s, p, n).unwrap().0.subrange(0, k as int),
    decreases n,
{
    if k < n {
        lemma_u64_run_prefix(s, p, k, (n - 1) as nat);
        lemma_u64_run_len(s, p, (n - 1) as nat);
        let a = parse_u64_run(s, p, (n - 1) as nat).unwrap().0;
        let b = parse_u64_run(s, p, n).unwrap().0;
        assert(b.subrange(0, k as int) =~= a.subrange(0, k as int));
    } else {
        lemma_u64_run_len(s, p, n);
        assert(parse_u64_run(s, p, n).unwrap().0.subrange(0, n as int) =~= parse_u64_run(s, p, n).unwrap().0);
    }
}

pub open spec fn data_model(data: Seq<Entry>) -> Seq<(Seq<u64>, TupleView)> {
    data.map_values(|e: Entry| (widen(e.coord@), e.tuple@))
}

/// Rebuilds a tensor from snapshot bytes, with an empty cache; `None`
/// unless the bytes hold a snapshot of a well-formed tensor.
#[verifier::rlimit(60)]
pub fn decode_snapshot(s: &[u8]) -> (r: Option<HyperTensor>)
    ensures
        match r {
            Some(t) => {
                &&& t.wf()
                &&& t.cached_root is None
                &&& parse_snapshot(s@) == Some(snapshot_model(t))
            },
            None => parse_snapshot(s@) is None || !snapshot_valid(parse_snapshot(s@).unwrap()),
        },
{
    let (d, p1) = get_u64(s, 0)?;
    let (l, p2) = get_u64(s, p1)?;
    let (disc, p3) = get_int(s, p2)?;
    let (epoch, p4) = get_u64(s, p3)?;
    let (n, p5) = get_u64(s, p4)?;
    proof {
        if parse_entry_run(s@, p5 as int, n as nat, d as nat) is Some {
            lemma_entry_run_len(s@, p5 as int, n as nat, d as nat);
        }
    }
    if d < 1 || d > MAX_DIMENSIONS as u64 || l < 1 || l > usize::MAX as u64 || n > CAPACITY as u64 {
        return None;
    }
    let four = BigInt::from_u64(4);
    if !disc.is_negative() || !disc.rem_euc(&four).equals(&BigInt::one()) {
        return None;
    }
    let dims = d as usize;
    let side = l as usize;
    let ghost head = parse_snapshot(s@);
    let mut data: Vec<Entry> = Vec::new();
    let mut q = p5;
    let mut i: u64 = 0;
    while i < n
        invariant
            parse_u64(s@, 0) == Some((d, p1 as int)),
            parse_u64(s@, p1 as int) == Some((l, p2 as int)),
            parse_int(s@, p2 as int) == Some((disc@, p3 as int)),
            parse_u64(s@, p3 as int) == Some((epoch, p4 as int)),
            parse_u64(s@, p4 as int) == Some((n, p5 as int)),
            disc.wf(),
            valid_disc(disc@),
            four.wf(),
            four@ == 4,
            1 <= d <= MAX_DIMENSIONS,
            1 <= l <= usize::MAX,
            dims == d,
            side == l,
            n <= CAPACITY,
            i <= n,
            data@.len() == i,
            parse_entry_run(s@, p5 as int, i as nat, d as nat) == Some((data_model(data@), q as int)),
            entries_ok(data@, dims, side, disc@),
            keys_sorted(data@),
        decreases n - i,
    {
        let ghost prefix = data_model(data@);
        let (coord, q2) = match get_coord(s, q, d, side) {
            Some(x) => x,
            None => {
                proof {
                    if parse_u64_run(s@, q as int, d as nat) is None {
                        lemma_entry_run_none(s@, p5 as int, (i + 1) as nat, n as nat, d as nat);
                    } else if parse_entry_run(s@, p5 as int, n as nat, d as nat) is Some {
                        lemma_entry_at(s@, p5 as int, i as nat, n as nat, d as nat, prefix, q as int);
                        let c = parse_u64_run(s@, q as int, d as nat).unwrap().0;
                        let j = choose|j: int| 0 <= j < d && #[trigger] c[j] >= l;
                        let m4 = parse_entry_run(s@, p5 as int, n as nat, d as nat).unwrap().0;
                        assert(m4[i as int].0[j] >= l);
                    }
                }
                return None;
            },
        };
        let key = key_of(&coord, side);
        if data.len() > 0 && !data[data.len() - 1].key.lt(&key) {
            proof {
                if parse_entry_run(s@, p5 as int, n as nat, d as nat) is Some {
                    lemma_entry_at(s@, p5 as int, i as nat, n as nat, d as nat, prefix, q as int);
                    let m4 = parse_entry_run(s@, p5 as int, n as nat, d as nat).unwrap().0;
                    let last = (i - 1) as int;
                    assert(entry_ok(data@[last], dims, side, disc@));
                    lemma_wide_key(data@[last].coord@, l as nat);
                    lemma_wide_key(coord@, l as nat);
                    assert(m4[last] == prefix[last]);
                    assert(!(wide_key(m4[last].0, l as nat) < wide_key(m4[i as int].0, l as nat)));
                }
            }
            return None;
        }
        let (t, q3) = match get_tuple(s, q2) {
            Some(x) => x,
            None => {
                proof {
                    lemma_entry_run_none(s@, p5 as int, (i + 1) as nat, n as nat, d as nat);
                }
                return None;
            },
        };
        let form_ok = BigInt::zero().lt(&t.q_shift.a) && t.q_shift.b.mul(&t.q_shift.b).sub(
            &four.mul(&t.q_shift.a).mul(&t.q_shift.c),
        ).equals(&disc);
        if !form_ok {
            proof {
                if parse_entry_run(s@, p5 as int, n as nat, d as nat) is Some {
                    lemma_entry_at(s@, p5 as int, i as nat, n as nat, d as nat, prefix, q as int);
                }
            }
            return None;
        }
        let entry = Entry { coord, key, tuple: t };
        proof {
            assert(entry_ok(entry, dims, side, disc@));
            if i > 0 {
                assert(entry_ok(data@[i - 1], dims, side, disc@));
            }
            assert forall|j: int| 0 <= j < data@.len() implies #[trigger] data@[j].key@ < entry.key@ by {
                if j < data@.len() - 1 {
                    assert(data@[j].key@ < data@[data@.len() - 1].key@);
                }
            }
            lemma_insert_keeps_order(data@, data@.len() as int, entry, dims, side, disc@);
            assert(data@.insert(data@.len() as int, entry) =~= data@.push(entry));
        }
        data.push(entry);
        q = q3;
        proof {
            assert(data_model(data@) =~= prefix.push((widen(coord@), t@)));
        }
        i = i + 1;
    }
    let t = HyperTensor { dimensions: dims, side_length: side, discriminant: disc, data, cached_root: None, epoch };
    proof {
        assert(snapshot_model(t).4 =~= data_model(t.data@));
    }
    Some(t)
}

/// Entry `i` of a parsed run is what the entry parser reads at its
/// position after the first `i` entries.
proof fn lemma_entry_at(s: Seq<u8>, p: int, i: nat, n: nat, d: nat, prefix: Seq<(Seq<u64>, TupleView)>, q: int)
    requires
        i < n,
        parse_entry_run(s, p, i, d) == Some((prefix, q)),
        parse_entry_run(s, p, n, d) is Some,
    ensures
        parse_u64_run(s, q, d) is Some,
        parse_tuple(s, parse_u64_run(s, q, d).unwrap().1) is Some,
        parse_entry_run(s, p, n, d).unwrap().0.len() == n,
        parse_entry_run(s, p, n, d).unwrap().0[i as int] == (
            parse_u64_run(s, q, d).unwrap().0,
            parse_tuple(s, parse_u64_run(s, q, d).unwrap().1).unwrap().0,
        ),
        forall|k: int| 0 <= k < i ==> #[trigger] parse_entry_run(s, p, n, d).unwrap().0[k] == prefix[k],
{
    lemma_entry_run_prefix(s, p, i + 1, n, d);
    lemma_entry_run_len(s, p, n, d);
    lemma_entry_run_len(s, p, i, d);
    let e = parse_entry_run(s, p, i + 1, d).unwrap().0;
    let full = parse_entry_run(s, p, n, d).unwrap().0;
    assert forall|k: int| 0 <= k < i implies #[trigger] full[k] == prefix[k] by {
        assert(full.subrange(0, i as int + 1)[k] == full[k]);
    }
    assert(full.subrange(0, i as int + 1)[i as int] == full[i as int]);
}

#[verifier::rlimit(40)]
proof fn lemma_u64_run_round_trip(pre: Seq<u8>, xs: Seq<u64>, rest: Seq<u8>)
    ensures
        parse_u64_run(pre + ser_u64_run(xs) + rest, pre.len() as int, xs.len()) == Some(
            (xs, pre.len() as int + ser_u64_run(xs).len()),
        ),
    decreases xs.len(),
{
    if xs.len() > 0 {
        let init = xs.drop_last();
        let x = xs.last();
        let a = ser_u64_run(init);
        let s = pre + ser_u64_run(xs) + rest;
        assert(s =~= pre + a + (ser_u64(x) + rest));
        lemma_u64_run_round_trip(pre, init, ser_u64(x) + rest);
        assert(s =~= (pre + a) + ser_u64(x) + rest);
        lemma_u64_round_trip(pre + a, x, rest);
        lemma_le_bytes_len(x as nat, 8);
        assert(init.push(x) =~= xs);
    }
}

#[verifier::rlimit(60)]
proof fn lemma_entry_run_round_trip(pre: Seq<u8>, es: Seq<(Seq<u64>, TupleView)>, d: nat, rest: Seq<u8>)
    requires
        forall|i: int| 0 <= i < es.len() ==> (#[trigger] es[i]).0.len() == d && tuple_fits(es[i].1),
    ensures
        parse_entry_run(pre + ser_entry_run(es) + rest, pre.len() as int, es.len(), d) == Some(
            (es, pre.len() as int + ser_entry_run(es).len()),
        ),
    decreases es.len(),
{
    if es.len() > 0 {
        let init = es.drop_last();
        let e = es.last();
        assert(es[es.len() - 1] == e);
        assert forall|i: int| 0 <= i < init.len() implies (#[trigger] init[i]).0.len() == d && tuple_fits(init[i].1) by {
            assert(init[i] == es[i]);
        }
        let a = ser_entry_run(init);
        let b = ser_u64_run(e.0);
        let c = ser_tuple(e.1);
        let s = pre + ser_entry_run(es) + rest;
        assert(s =~= pre + a + (b + c + rest));
        lemma_entry_run_round_trip(pre, init, d, b + c + rest);
        assert(s =~= (pre + a) + b + (c + rest));
        lemma_u64_run_round_trip(pre + a, e.0, c + rest);
        assert(s =~= (pre + a + b) + c + rest);
        lemma_tuple_round_trip(pre + a + b, e.1, rest);
        assert(init.push(e) =~= es);
    }
}

/// The sizes a snapshot must keep to for its length prefixes.
pub open spec fn snapshot_fits(m: SnapshotModel) -> bool {
    &&& twos(m.2).len() <= u64::MAX
    &&& m.4.len() <= u64::MAX
    &&& forall|i: int| 0 <= i < m.4.len() ==> tuple_fits(#[trigger] m.4[i].1)
}

/// Saving a well-formed tensor and loading the bytes gives back its
/// dimensions, side length, discriminant, epoch and entries: the bytes
/// parse to its snapshot, and that snapshot passes every check of the loader.
#[verifier::rlimit(80)]
pub proof fn lemma_snapshot_round_trip(t: HyperTensor, rest: Seq<u8>)
    requires
        t.wf(),
        snapshot_fits(snapshot_model(t)),
    ensures
        parse_snapshot(ser_snapshot(snapshot_model(t)) + rest) == Some(snapshot_model(t)),
        snapshot_valid(snapshot_model(t)),
{
    let m = snapshot_model(t);
    let (h0, h1, h2, h3, h4) = (ser_u64(m.0), ser_u64(m.1), ser_int(m.2), ser_u64(m.3), ser_u64(m.4.len() as u64));
    let body = ser_entry_run(m.4);
    let s = ser_snapshot(m) + rest;
    let e = Seq::<u8>::empty();
    assert(s =~= e + h0 + (h1 + h2 + h3 + h4 + body + rest));
    lemma_u64_round_trip(e, m.0, h1 + h2 + h3 + h4 + body + rest);
    lemma_le_bytes_len(m.0 as nat, 8);
    assert(s =~= h0 + h1 + (h2 + h3 + h4 + body + rest));
    lemma_u64_round_trip(h0, m.1, h2 + h3 + h4 + body + rest);
    lemma_le_bytes_len(m.1 as nat, 8);
    assert(s =~= (h0 + h1) + h2 + (h3 + h4 + body + rest));
    lemma_int_round_trip(h0 + h1, m.2, h3 + h4 + body + rest);
    assert(s =~= (h0 + h1 + h2) + h3 + (h4 + body + rest));
    lemma_u64_round_trip(h0 + h1 + h2, m.3, h4 + body + rest);
    lemma_le_bytes_len(m.3 as nat, 8);
    assert(s =~= (h0 + h1 + h2 + h3) + h4 + (body + rest));
    lemma_u64_round_trip(h0 + h1 + h2 + h3, m.4.len() as u64, body + rest);
    lemma_le_bytes_len(m.4.len(), 8);
    assert(s =~= (h0 + h1 + h2 + h3 + h4) + body + rest);
    assert forall|i: int| 0 <= i < m.4.len() implies (#[trigger] m.4[i]).0.len() == m.0 && tuple_fits(m.4[i].1) by {
        assert(entry_ok(t.data@[i], t.dimensions, t.side_length, t.discriminant@));
    }
    lemma_entry_run_round_trip(h0 + h1 + h2 + h3 + h4, m.4, m.0 as nat, rest);
    lemma_snapshot_valid(t);
}

proof fn lemma_snapshot_valid(t: HyperTensor)
    requires
        t.wf(),
    ensures
        snapshot_valid(snapshot_model(t)),
{
    let m = snapshot_model(t);
    assert forall|i: int| 0 <= i < m.4.len() implies {
        let en = #[trigger] m.4[i];
        &&& en.0.len() == m.0
        &&& forall|j: int| 0 <= j < en.0.len() ==> #[trigger] en.0[j] < m.1
        &&& is_form(en.1.1, m.2)
    } by {
        assert(entry_ok(t.data@[i], t.dimensions, t.side_length, t.discriminant@));
        let c = t.data@[i].coord@;
        assert forall|j: int| 0 <= j < m.4[i].0.len() implies #[trigger] m.4[i].0[j] < m.1 by {
            assert(c[j] < t.side_length);
        }
    }
    assert forall|i: int, j: int| 0 <= i < j < m.4.len() implies wide_key(#[trigger] m.4[i].0, m.1 as nat) < wide_key(
        #[trigger] m.4[j].0,
        m.1 as nat,
    ) by {
        assert(entry_ok(t.data@[i], t.dimensions, t.side_length, t.discriminant@));
        assert(entry_ok(t.data@[j], t.dimensions, t.side_length, t.discriminant@));
        lemma_wide_key(t.data@[i].coord@, t.side_length as nat);
        lemma_wide_key(t.data@[j].coord@, t.side_length as nat);
        assert(t.data@[i].key@ < t.data@[j].key@);
    }
}

/// Two well-formed tensors with one snapshot have one global root.
pub proof fn lemma_same_snapshot_same_root(a: HyperTensor, b: HyperTensor)
    requires
        a.wf(),
        b.wf(),
        snapshot_model(a) == snapshot_model(b),
    ensures
        crate::folding::root_spec(a.entries(), a.dimensions as nat, a.discriminant@) == crate::folding::root_spec(
            b.entries(),
            b.dimensions as nat,
            b.discriminant@,
        ),
{
    let (ma, mb) = (snapshot_model(a).4, snapshot_model(b).4);
    assert(a.entries().len() == ma.len());
    assert forall|i: int| 0 <= i < a.entries().len() implies #[trigger] a.entries()[i] == b.entries()[i] by {
        assert(ma[i] == mb[i]);
        let (ca, cb) = (a.entries()[i].0, b.entries()[i].0);
        assert(widen(ca) == widen(cb));
        assert(ca.len() == cb.len()) by {
            assert(widen(ca).len() == ca.len());
        }
        assert forall|j: int| 0 <= j < ca.len() implies ca[j] == cb[j] by {
            assert(widen(ca)[j] == widen(cb)[j]);
        }
        assert(ca =~= cb);
    }
    assert(a.entries() =~= b.entries());
}

} // verus!
