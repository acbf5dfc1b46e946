//! The sparse d-dimensional store of affine tuples.
//!
//! Occupied coordinates are kept in a vector sorted by their mixed-radix
//! key (axis 0 most significant), which is the ascending order the fold
//! walks them in. An absent coordinate stands for the identity tuple.

use vstd::prelude::*;
use vstd::arithmetic::div_mod::{lemma_fundamental_div_mod, lemma_fundamental_div_mod_converse};
use vstd::string::StringSliceAdditionalSpecFns;
use crate::affine::{affine_compose_spec, identity_tuple, AffineTuple, TupleView};
use crate::algebra::{is_reduced, valid_disc};
use crate::bignum::{le_val, pow_nat, BigInt, BigNat};
use crate::error::HtpError;
use crate::hashing::{append_bytes, blake3_xof, xof};

verus! {

/// The most entries a tensor holds.
pub const CAPACITY: usize = 10_000_000;

/// The largest number of dimensions.
pub const MAX_DIMENSIONS: usize = 20;

/// A coordinate and its tuple.
pub type EntryView = (Seq<usize>, TupleView);

/// The `n` low digits of `v` in base `l`, least significant first.
pub open spec fn digits(v: nat, l: nat, n: nat) -> Seq<usize>
    decreases n,
{
    if n == 0 || l == 0 {
        Seq::empty()
    } else {
        seq![(v % l) as usize] + digits(v / l, l, (n - 1) as nat)
    }
}

/// The mixed-radix value of a coordinate, axis 0 most significant.
pub open spec fn coord_key(c: Seq<usize>, l: nat) -> nat
    decreases c.len(),
{
    if c.len() == 0 {
        0
    } else {
        coord_key(c.drop_last(), l) * l + c.last() as nat
    }
}

/// Every index of `c` is below `l`.
pub open spec fn in_range(c: Seq<usize>, l: nat) -> bool {
    forall|i: int| 0 <= i < c.len() ==> #[trigger] c[i] < l
}

/// The bytes hashed to place an identifier.
pub open spec fn coord_input(id: Seq<u8>) -> Seq<u8> {
    id + seq![58u8, 104, 116, 112, 58, 99, 111, 111, 114, 100, 58, 118, 50]
}

/// The coordinate of an identifier: the first 16 bytes of its hash, read
/// little-endian, as `n` digits in base `l`.
pub open spec fn coord_of(id: Seq<u8>, l: nat, n: nat) -> Seq<usize> {
    digits(le_val(blake3_xof(coord_input(id), 16)), l, n)
}

/// The index of the first entry whose key is not below `k`.
pub open spec fn first_not_below(s: Seq<EntryView>, k: nat, l: nat) -> nat
    decreases s.len(),
{
    if s.len() == 0 || coord_key(s[0].0, l) >= k {
        0
    } else {
        1 + first_not_below(s.drop_first(), k, l)
    }
}

/// An entry at `c` stands where a new one for `c` would go in key order.
pub open spec fn merges_at(s: Seq<EntryView>, c: Seq<usize>, l: nat) -> bool {
    let p = first_not_below(s, coord_key(c, l), l) as int;
    p < s.len() && s[p].0 == c
}

/// The entries after inserting `t` at `c`: merged by composition into an
/// entry at `c`; else placed in key order, unless the tensor already holds
/// `CAPACITY` entries.
pub open spec fn insert_spec(s: Seq<EntryView>, c: Seq<usize>, t: TupleView, l: nat, d: int) -> Result<
    Seq<EntryView>,
    HtpError,
> {
    let p = first_not_below(s, coord_key(c, l), l) as int;
    if merges_at(s, c, l) {
        match affine_compose_spec(s[p].1, t, d) {
            Ok(m) => Ok(s.update(p, (c, m))),
            Err(e) => Err(e),
        }
    } else if s.len() >= CAPACITY {
        Err(HtpError::CapacityReached)
    } else {
        Ok(s.insert(p, (c, t)))
    }
}

/// The tuple stored at `c`, or the identity.
pub open spec fn get_spec(s: Seq<EntryView>, c: Seq<usize>, d: int) -> TupleView {
    if exists|i: int| 0 <= i < s.len() && #[trigger] s[i].0 == c {
        s[choose|i: int| 0 <= i < s.len() && #[trigger] s[i].0 == c].1
    } else {
        identity_tuple(d)
    }
}

proof fn lemma_first_not_below_step(s: Seq<EntryView>, k: nat, l: nat, i: int)
    requires
        0 <= i < s.len(),
        coord_key(s[i].0, l) < k,
    ensures
        first_not_below(s.subrange(i, s.len() as int), k, l) == 1 + first_not_below(
            s.subrange(i + 1, s.len() as int),
            k,
            l,
        ),
{
    assert(s.subrange(i, s.len() as int).drop_first() =~= s.subrange(i + 1, s.len() as int));
}

/// Equal keys of in-range coordinates of one length are equal coordinates.
pub proof fn lemma_coord_key_injective(a: Seq<usize>, b: Seq<usize>, l: nat)
    requires
        a.len() == b.len(),
        in_range(a, l),
        in_range(b, l),
        coord_key(a, l) == coord_key(b, l),
    ensures
        a == b,
    decreases a.len(),
{
    if a.len() > 0 {
        let (ka, kb) = (coord_key(a.drop_last(), l) as int, coord_key(b.drop_last(), l) as int);
        assert(a.last() < l && b.last() < l) by {
            assert(a[a.len() - 1] < l);
            assert(b[b.len() - 1] < l);
        }
        lemma_fundamental_div_mod_converse(coord_key(a, l) as int, l as int, ka, a.last() as int);
        lemma_fundamental_div_mod_converse(coord_key(b, l) as int, l as int, kb, b.last() as int);
        assert(in_range(a.drop_last(), l)) by {
            assert forall|i: int| 0 <= i < a.drop_last().len() implies #[trigger] a.drop_last()[i] < l by {
                assert(a[i] < l);
            }
        }
        assert(in_range(b.drop_last(), l)) by {
            assert forall|i: int| 0 <= i < b.drop_last().len() implies #[trigger] b.drop_last()[i] < l by {
                assert(b[i] < l);
            }
        }
        lemma_coord_key_injective(a.drop_last(), b.drop_last(), l);
        assert(a =~= a.drop_last().push(a.last()));
        assert(b =~= b.drop_last().push(b.last()));
    } else {
        assert(a =~= b);
    }
}

/// An entry of an `n`-axis tensor of side `l` over discriminant `d`.
pub open spec fn entry_ok(e: Entry, n: usize, l: usize, d: int) -> bool {
    &&& e.coord@.len() == n
    &&& in_range(e.coord@, l as nat)
    &&& e.key.wf()
    &&& e.key@ == coord_key(e.coord@, l as nat)
    &&& e.tuple.valid(d)
}

pub open spec fn entries_ok(s: Seq<Entry>, n: usize, l: usize, d: int) -> bool {
    forall|i: int| 0 <= i < s.len() ==> entry_ok(#[trigger] s[i], n, l, d)
}

/// Keys ascend strictly.
pub open spec fn keys_sorted(s: Seq<Entry>) -> bool {
    forall|i: int, j: int| 0 <= i < j < s.len() ==> #[trigger] s[i].key@ < #[trigger] s[j].key@
}

pub proof fn lemma_insert_keeps_order(s: Seq<Entry>, p: int, e: Entry, n: usize, l: usize, d: int)
    requires
        0 <= p <= s.len(),
        keys_sorted(s),
        entries_ok(s, n, l, d),
        entry_ok(e, n, l, d),
        forall|j: int| 0 <= j < p ==> #[trigger] s[j].key@ < e.key@,
        p < s.len() ==> e.key@ < s[p].key@,
    ensures
        keys_sorted(s.insert(p, e)),
        entries_ok(s.insert(p, e), n, l, d),
{
    let t = s.insert(p, e);
    assert forall|i: int, j: int| 0 <= i < j < t.len() implies #[trigger] t[i].key@ < #[trigger] t[j].key@ by {
        if j < p {
            assert(s[i].key@ < s[j].key@);
        } else if j == p {
            assert(s[i].key@ < e.key@);
        } else if i < p {
            assert(s[i].key@ < e.key@);
            if p < j - 1 {
                assert(s[p].key@ < s[j - 1].key@);
            }
        } else if i == p {
            if p < j - 1 {
                assert(s[p].key@ < s[j - 1].key@);
            }
        } else {
            assert(s[i - 1].key@ < s[j - 1].key@);
        }
    }
    assert forall|i: int| 0 <= i < t.len() implies entry_ok(#[trigger] t[i], n, l, d) by {
        if i > p {
            assert(t[i] == s[i - 1]);
        } else if i < p {
            assert(t[i] == s[i]);
        }
    }
}

proof fn lemma_update_keeps_order(s: Seq<Entry>, p: int, e: Entry, n: usize, l: usize, d: int)
    requires
        0 <= p < s.len(),
        keys_sorted(s),
        entries_ok(s, n, l, d),
        entry_ok(e, n, l, d),
        e.key@ == s[p].key@,
    ensures
        keys_sorted(s.update(p, e)),
        entries_ok(s.update(p, e), n, l, d),
{
    let t = s.update(p, e);
    assert forall|i: int, j: int| 0 <= i < j < t.len() implies #[trigger] t[i].key@ < #[trigger] t[j].key@ by {
        assert(s[i].key@ < s[j].key@);
    }
    assert forall|i: int| 0 <= i < t.len() implies entry_ok(#[trigger] t[i], n, l, d) by {
        if i != p {
            assert(t[i] == s[i]);
        }
    }
}

/// A coordinate and its tuple, with the coordinate's key for ordering.
#[derive(Clone, Debug, PartialEq, Eq)]
pub struct Entry {
    pub coord: Vec<usize>,
    pub key: BigNat,
    pub tuple: AffineTuple,
}

/// The sparse tensor, its cached root and its snapshot label.
#[derive(Clone, Debug, PartialEq, Eq)]
pub struct HyperTensor {
    pub dimensions: usize,
    pub side_length: usize,
    pub discriminant: BigInt,
    pub data: Vec<Entry>,
    pub cached_root: Option<AffineTuple>,
    pub epoch: u64,
}

/// Reads up to 16 little-endian bytes as a number.
pub fn le_to_u128(b: &[u8]) -> (r: u128)
    requires
        b@.len() <= 16,
    ensures
        r == le_val(b@),
        r < pow_nat(256, b@.len()),
{
    let n = b.len();
    let mut v: u128 = 0;
    let mut i: usize = n;
    proof {
        assert(b@.subrange(n as int, n as int) =~= Seq::<u8>::empty());
        lemma_pow256_mono(0, 16);
    }
    while i > 0
        invariant
            n == b@.len(),
            n <= 16,
            i <= n,
            v == le_val(b@.subrange(i as int, n as int)),
            v < pow_nat(256, (n - i) as nat),
            pow_nat(256, (n - i) as nat) <= pow_nat(256, 16),
        decreases i,
    {
        i = i - 1;
        let ghost tail = b@.subrange(i as int + 1, n as int);
        proof {
            assert(b@.subrange(i as int, n as int).drop_first() =~= tail);
            lemma_pow256_mono((n - i) as nat, 16);
            reveal_with_fuel(pow_nat, 17);
            assert(pow_nat(256, 16) == 0x1_0000_0000_0000_0000_0000_0000_0000_0000);
            let p = pow_nat(256, (n - i - 1) as nat);
            assert(pow_nat(256, (n - i) as nat) == 256 * p);
            assert(v * 256 + b@[i as int] < 256 * p) by (nonlinear_arith)
                requires
                    v < p,
                    b@[i as int] < 256,
            ;
        }
        v = v * 256 + b[i] as u128;
    }
    proof {
        assert(b@.subrange(0, n as int) =~= b@);
    }
    v
}

/// Reads eight little-endian bytes as a `u64`.
pub fn le_to_u64(b: &[u8]) -> (r: u64)
    requires
        b@.len() == 8,
    ensures
        r == le_val(b@),
{
    let v = le_to_u128(b);
    proof {
        reveal_with_fuel(pow_nat, 9);
        assert(pow_nat(256, 8) == 0x1_0000_0000_0000_0000);
    }
    v as u64
}

proof fn lemma_pow256_mono(a: nat, b: nat)
    requires
        a <= b,
    ensures
        pow_nat(256, a) <= pow_nat(256, b),
    decreases b,
{
    if a < b {
        lemma_pow256_mono(a, (b - 1) as nat);
        assert(pow_nat(256, (b - 1) as nat) >= 1) by {
            lemma_pow256_pos((b - 1) as nat);
        }
    }
}

proof fn lemma_pow256_pos(a: nat)
    ensures
        pow_nat(256, a) >= 1,
    decreases a,
{
    if a > 0 {
        lemma_pow256_pos((a - 1) as nat);
    }
}

/// The `n` low digits of `v` in base `l`.
pub fn digits_of(v: u128, l: usize, n: usize) -> (r: Vec<usize>)
    requires
        l >= 1,
    ensures
        r@ == digits(v as nat, l as nat, n as nat),
        r@.len() == n,
        in_range(r@, l as nat),
{
    let mut out: Vec<usize> = Vec::new();
    let mut rest: u128 = v;
    let mut i: usize = 0;
    while i < n
        invariant
            l >= 1,
            i <= n,
            out@.len() == i,
            in_range(out@, l as nat),
            out@ + digits(rest as nat, l as nat, (n - i) as nat) == digits(v as nat, l as nat, n as nat),
        decreases n - i,
    {
        let ghost before = out@;
        let dgt = (rest % (l as u128)) as usize;
        out.push(dgt);
        proof {
            let k = (n - i) as nat;
            assert(digits(rest as nat, l as nat, k) == seq![dgt] + digits((rest / (l as u128)) as nat, l as nat, (k - 1) as nat));
            assert(out@ + digits((rest / (l as u128)) as nat, l as nat, (k - 1) as nat) =~= before + digits(rest as nat, l as nat, k));
            assert forall|j: int| 0 <= j < out@.len() implies #[trigger] out@[j] < l by {
                if j < before.len() {
                    assert(before[j] < l);
                }
            }
        }
        rest = rest / (l as u128);
        i = i + 1;
    }
    proof {
        assert(out@ + digits(rest as nat, l as nat, 0) =~= out@);
    }
    out
}

/// The key of a coordinate.
pub fn key_of(c: &Vec<usize>, l: usize) -> (r: BigNat)
    ensures
        r.wf(),
        r@ == coord_key(c@, l as nat),
{
    let big_l = BigNat::from_u64(l as u64);
    let mut k = BigNat::zero();
    let mut i: usize = 0;
    while i < c.len()
        invariant
            i <= c@.len(),
            big_l@ == l,
            k.wf(),
            k@ == coord_key(c@.subrange(0, i as int), l as nat),
        decreases c@.len() - i,
    {
        proof {
            assert(c@.subrange(0, i as int + 1).drop_last() =~= c@.subrange(0, i as int));
        }
        k = k.mul(&big_l).add(&BigNat::from_u64(c[i] as u64));
        i = i + 1;
    }
    proof {
        assert(c@.subrange(0, c@.len() as int) =~= c@);
    }
    k
}

/// Whether two coordinates are equal.
pub fn same_coord(a: &Vec<usize>, b: &Vec<usize>) -> (r: bool)
    ensures
        r == (a@ == b@),
{
    if a.len() != b.len() {
        return false;
    }
    let mut i: usize = 0;
    while i < a.len()
        invariant
            a@.len() == b@.len(),
            i <= a@.len(),
            forall|j: int| 0 <= j < i ==> a@[j] == b@[j],
        decreases a@.len() - i,
    {
        if a[i] != b[i] {
            return false;
        }
        i = i + 1;
    }
    proof {
        assert(a@ =~= b@);
    }
    true
}

impl HyperTensor {
    /// The entries as coordinates and tuple values.
    pub open spec fn entries(&self) -> Seq<EntryView> {
        self.data@.map_values(|e: Entry| (e.coord@, e.tuple@))
    }

    /// Dimensions, side length, discriminant and stored entries are
    /// consistent; keys ascend strictly.
    pub open spec fn wf_data(&self) -> bool {
        &&& 1 <= self.dimensions <= MAX_DIMENSIONS
        &&& self.side_length >= 1
        &&& self.discriminant.wf()
        &&& valid_disc(self.discriminant@)
        &&& self.data@.len() <= CAPACITY
        &&& entries_ok(self.data@, self.dimensions, self.side_length, self.discriminant@)
        &&& keys_sorted(self.data@)
    }

    /// The tensor with a cache that, when filled, holds the fold of the data.
    pub open spec fn wf(&self) -> bool {
        &&& self.wf_data()
        &&& match self.cached_root {
            Some(r) => r.valid(self.discriminant@) && crate::folding::root_spec(self.entries(), self.dimensions as nat, self.discriminant@)
                == Ok::<TupleView, HtpError>(r@),
            None => true,
        }
    }

    /// An empty tensor; `InvalidParameters` unless `1 <= dim <= 20`,
    /// `len >= 1` and the discriminant is negative and `1 (mod 4)`.
    pub fn new(dim: usize, len: usize, discriminant: BigInt) -> (r: Result<HyperTensor, HtpError>)
        requires
            discriminant.wf(),
        ensures
            match r {
                Ok(t) => {
                    &&& t.wf()
                    &&& t.dimensions == dim
                    &&& t.side_length == len
                    &&& t.discriminant@ == discriminant@
                    &&& t.entries().len() == 0
                    &&& t.cached_root is None
                    &&& t.epoch == 1
                },
                Err(e) => {
                    &&& e == HtpError::InvalidParameters
                    &&& !(1 <= dim <= MAX_DIMENSIONS && len >= 1 && valid_disc(discriminant@))
                },
            },
    {
        let four = BigInt::from_u64(4);
        let one = BigInt::one();
        if dim < 1 || dim > MAX_DIMENSIONS || len < 1 || !discriminant.is_negative()
            || !discriminant.rem_euc(&four).equals(&one) {
            return Err(HtpError::InvalidParameters);
        }
        Ok(HyperTensor { dimensions: dim, side_length: len, discriminant, data: Vec::new(), cached_root: None, epoch: 1 })
    }

    /// The `dimensions` low digits of `numeric_id` in base `side_length`.
    pub fn map_id_to_coord(&self, numeric_id: u64) -> (r: Vec<usize>)
        requires
            self.side_length >= 1,
        ensures
            r@ == digits(numeric_id as nat, self.side_length as nat, self.dimensions as nat),
    {
        digits_of(numeric_id as u128, self.side_length, self.dimensions)
    }

    /// The coordinate of an identifier.
    pub fn map_id_to_coord_hash(&self, user_id: &str) -> (r: Vec<usize>)
        requires
            self.side_length >= 1,
        ensures
            r@ == coord_of(user_id.spec_bytes(), self.side_length as nat, self.dimensions as nat),
            r@.len() == self.dimensions,
            in_range(r@, self.side_length as nat),
    {
        let mut input: Vec<u8> = Vec::new();
        append_bytes(&mut input, user_id.as_bytes());
        let suffix: Vec<u8> = vec![58u8, 104, 116, 112, 58, 99, 111, 111, 114, 100, 58, 118, 50];
        append_bytes(&mut input, suffix.as_slice());
        proof {
            assert(input@ =~= coord_input(user_id.spec_bytes()));
        }
        let digest = xof(&input, 16);
        let v = le_to_u128(digest.as_slice());
        digits_of(v, self.side_length, self.dimensions)
    }

    /// The tuple at `coord`, or the identity where none is stored.
    pub fn get(&self, coord: &Vec<usize>) -> (r: AffineTuple)
        requires
            self.wf_data(),
        ensures
            r.wf(),
            r@ == get_spec(self.entries(), coord@, self.discriminant@),
            r.valid(self.discriminant@),
    {
        let mut i: usize = 0;
        while i < self.data.len()
            invariant
                self.wf_data(),
                i <= self.data@.len(),
                forall|j: int| 0 <= j < i ==> self.entries()[j].0 != coord@,
            decreases self.data@.len() - i,
        {
            if same_coord(&self.data[i].coord, coord) {
                proof {
                    let s = self.entries();
                    assert(s[i as int].0 == coord@);
                    let k = choose|k: int| 0 <= k < s.len() && #[trigger] s[k].0 == coord@;
                    if k != i {
                        let (a, b) = if k < i { (k, i as int) } else { (i as int, k) };
                        assert(self.data@[a].key@ < self.data@[b].key@);
                    }
                }
                return self.data[i].tuple.dup();
            }
            i = i + 1;
        }
        proof {
            let s = self.entries();
            assert(!exists|j: int| 0 <= j < s.len() && #[trigger] s[j].0 == coord@);
        }
        let r = AffineTuple::identity(&self.discriminant);
        r
    }

    /// Whether a tuple is stored at `coord`.
    pub fn contains(&self, coord: &Vec<usize>) -> (r: bool)
        ensures
            r == exists|i: int| 0 <= i < self.entries().len() && #[trigger] self.entries()[i].0 == coord@,
    {
        let mut i: usize = 0;
        while i < self.data.len()
            invariant
                i <= self.data@.len(),
                forall|j: int| 0 <= j < i ==> self.entries()[j].0 != coord@,
            decreases self.data@.len() - i,
        {
            if same_coord(&self.data[i].coord, coord) {
                proof {
                    assert(self.entries()[i as int].0 == coord@);
                }
                return true;
            }
            i = i + 1;
        }
        false
    }

    /// The primary path for `coord` along the challenged axis: the stored
    /// tuple (or the identity), then one identity aggregate where the axis
    /// has more than one index.
    pub fn get_segment_tree_path(&self, coord: &Vec<usize>, _axis: usize) -> (r: Vec<AffineTuple>)
        requires
            self.wf_data(),
        ensures
            r@.len() == (if self.side_length > 1 { 2int } else { 1int }),
            r@[0]@ == get_spec(self.entries(), coord@, self.discriminant@),
            self.side_length > 1 ==> r@[1]@ == identity_tuple(self.discriminant@),
            forall|i: int| 0 <= i < r@.len() ==> #[trigger] r@[i].valid(self.discriminant@),
            forall|i: int| 0 <= i < r@.len() ==> #[trigger] r@[i].wf(),
    {
        let mut path: Vec<AffineTuple> = Vec::new();
        path.push(self.get(coord));
        if self.side_length > 1 {
            let id = AffineTuple::identity(&self.discriminant);
            path.push(id);
        }
        path
    }

    /// One identity anchor per axis other than `axis`.
    pub fn get_orthogonal_anchors(&self, _coord: &Vec<usize>, axis: usize) -> (r: Vec<AffineTuple>)
        requires
            self.wf_data(),
        ensures
            r@.len() == (if axis < self.dimensions { self.dimensions - 1 } else { self.dimensions as int }),
            forall|i: int| 0 <= i < r@.len() ==> #[trigger] r@[i]@ == identity_tuple(self.discriminant@) && r@[i].wf(),
            forall|i: int| 0 <= i < r@.len() ==> #[trigger] r@[i].wf(),
    {
        let mut anchors: Vec<AffineTuple> = Vec::new();
        let mut dim: usize = 0;
        while dim < self.dimensions
            invariant
                self.wf_data(),
                dim <= self.dimensions,
                anchors@.len() == (if axis < dim { dim - 1 } else { dim as int }),
                forall|i: int| 0 <= i < anchors@.len() ==> #[trigger] anchors@[i]@ == identity_tuple(self.discriminant@) && anchors@[i].wf(),
            decreases self.dimensions - dim,
        {
            if dim != axis {
                anchors.push(AffineTuple::identity(&self.discriminant));
            }
            dim = dim + 1;
        }
        proof {
            assert forall|j: int| 0 <= j < anchors@.len() implies #[trigger] anchors@[j].wf() by {
                assert(anchors@[j]@ == identity_tuple(self.discriminant@));
            }
        }
        anchors
    }

    /// Stores `new_tuple` for `user_id`: composed into the tuple already at
    /// its coordinate, else placed there. Clears the cached root. Fails,
    /// changing nothing, with `CapacityReached` once the tensor is full, or
    /// with the composition's error.
    pub fn insert(&mut self, user_id: &str, new_tuple: AffineTuple) -> (r: Result<(), HtpError>)
        requires
            old(self).wf(),
            new_tuple.valid(old(self).discriminant@),
        ensures
            final(self).wf(),
            final(self).dimensions == old(self).dimensions,
            final(self).side_length == old(self).side_length,
            final(self).discriminant == old(self).discriminant,
            final(self).epoch == old(self).epoch,
            ({
                let c = coord_of(user_id.spec_bytes(), old(self).side_length as nat, old(self).dimensions as nat);
                let s = old(self).entries();
                match r {
                    Ok(_) => {
                        &&& insert_spec(s, c, new_tuple@, old(self).side_length as nat, old(self).discriminant@)
                            == Ok::<Seq<EntryView>, HtpError>(final(self).entries())
                        &&& final(self).cached_root is None
                    },
                    Err(e) => {
                        &&& *final(self) == *old(self)
                        &&& insert_spec(s, c, new_tuple@, old(self).side_length as nat, old(self).discriminant@)
                            == Err::<Seq<EntryView>, HtpError>(e)
                        &&& (e == HtpError::CapacityReached <==> old(self).data@.len() >= CAPACITY && !merges_at(
                            s,
                            c,
                            old(self).side_length as nat,
                        ))
                    },
                }
            }),
    {
        let ghost l = self.side_length as nat;
        let coord = self.map_id_to_coord_hash(user_id);
        let key = key_of(&coord, self.side_length);
        let ghost s = self.entries();
        let ghost k = key@;
        let n = self.data.len();
        let mut p: usize = 0;
        proof {
            assert(s.subrange(0, n as int) =~= s);
        }
        while p < n && self.data[p].key.lt(&key)
            invariant
                self.wf(),
                s == self.entries(),
                n == self.data@.len(),
                p <= n,
                key@ == k,
                k == coord_key(coord@, l),
                l == self.side_length,
                forall|j: int| 0 <= j < p ==> #[trigger] self.data@[j].key@ < k,
                first_not_below(s, k, l) == p + first_not_below(s.subrange(p as int, n as int), k, l),
            decreases n - p,
        {
            proof {
                lemma_first_not_below_step(s, k, l, p as int);
            }
            p = p + 1;
        }
        proof {
            if p < n {
                assert(s.subrange(p as int, n as int)[0] == s[p as int]);
            }
            assert(first_not_below(s, k, l) == p);
        }
        if p < n && same_coord(&self.data[p].coord, &coord) {
            let merged = self.data[p].tuple.compose(&new_tuple, &self.discriminant)?;
            let entry = Entry { coord, key, tuple: merged };
            proof {
                assert(entry_ok(self.data@[p as int], self.dimensions, self.side_length, self.discriminant@));
                lemma_update_keeps_order(self.data@, p as int, entry, self.dimensions, self.side_length, self.discriminant@);
            }
            self.data.set(p, entry);
            self.cached_root = None;
            proof {
                assert(self.entries() =~= s.update(p as int, (coord@, merged@)));
            }
        } else {
            if n >= CAPACITY {
                return Err(HtpError::CapacityReached);
            }
            let entry = Entry { coord, key, tuple: new_tuple };
            proof {
                if p < n {
                    assert(entry_ok(self.data@[p as int], self.dimensions, self.side_length, self.discriminant@));
                    assert(self.data@[p as int].key@ >= k);
                    if self.data@[p as int].key@ == k {
                        lemma_coord_key_injective(self.data@[p as int].coord@, coord@, l);
                    }
                }
                lemma_insert_keeps_order(self.data@, p as int, entry, self.dimensions, self.side_length, self.discriminant@);
            }
            self.data.insert(p, entry);
            self.cached_root = None;
            proof {
                assert(self.entries() =~= s.insert(p as int, (coord@, new_tuple@)));
            }
        }
        Ok(())
    }
}

} // verus!
