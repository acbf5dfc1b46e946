//! The sparse recursive fold of the tensor into its global root.
//!
//! Along each axis the occupied sub-tensors are folded in ascending order of
//! their index on that axis and composed left to right, starting from the
//! identity; a coordinate with all its indices fixed is its stored tuple.

use vstd::prelude::*;
use crate::affine::{affine_compose_spec, identity_tuple, AffineTuple, TupleView};
use crate::algebra::is_reduced;
use crate::error::HtpError;
use crate::tensor::{EntryView, HyperTensor};

verus! {

/// How many leading entries have index `v` on axis `dim`.
pub open spec fn run_len(s: Seq<EntryView>, dim: nat, v: usize) -> nat
    decreases s.len(),
{
    if s.len() == 0 || dim >= s[0].0.len() || s[0].0[dim as int] != v {
        0
    } else {
        1 + run_len(s.drop_first(), dim, v)
    }
}

/// The fold of sorted entries from axis `dim` on, of an `n`-axis tensor.
pub open spec fn fold_seq(s: Seq<EntryView>, dim: nat, n: nat, d: int) -> Result<TupleView, HtpError>
    decreases s.len(), n - dim, 1nat,
{
    if s.len() == 0 {
        Ok(identity_tuple(d))
    } else if dim >= n {
        Ok(s[0].1)
    } else {
        fold_groups(identity_tuple(d), s, dim, n, d)
    }
}

/// `acc` composed with the fold of each run of equal index on axis `dim`.
pub open spec fn fold_groups(acc: TupleView, s: Seq<EntryView>, dim: nat, n: nat, d: int) -> Result<
    TupleView,
    HtpError,
>
    decreases s.len(), n - dim, 0nat,
{
    if s.len() == 0 || dim >= n || dim >= s[0].0.len() {
        Ok(acc)
    } else {
        let r = run_len(s, dim, s[0].0[dim as int]);
        let k = if r <= s.len() { r } else { s.len() };
        if k == 0 {
            Ok(acc)
        } else {
            match fold_seq(s.subrange(0, k as int), dim + 1, n, d) {
                Err(e) => Err(e),
                Ok(sub) => match affine_compose_spec(acc, sub, d) {
                    Err(e) => Err(e),
                    Ok(next) => fold_groups(next, s.subrange(k as int, s.len() as int), dim, n, d),
                },
            }
        }
    }
}

/// The global root of the entries of an `n`-axis tensor.
pub open spec fn root_spec(s: Seq<EntryView>, n: nat, d: int) -> Result<TupleView, HtpError> {
    fold_seq(s, 0, n, d)
}

proof fn lemma_run_len_step(s: Seq<EntryView>, dim: nat, v: usize, j: int)
    requires
        0 <= j < s.len(),
        dim < s[j].0.len(),
        s[j].0[dim as int] == v,
    ensures
        run_len(s.subrange(j, s.len() as int), dim, v) == 1 + run_len(s.subrange(j + 1, s.len() as int), dim, v),
{
    assert(s.subrange(j, s.len() as int).drop_first() =~= s.subrange(j + 1, s.len() as int));
}

impl HyperTensor {
    /// The fold of entries `lo..hi` from axis `dim` on.
    fn fold_range(&self, lo: usize, hi: usize, dim: usize) -> (r: Result<AffineTuple, HtpError>)
        requires
            self.wf_data(),
            lo <= hi <= self.data@.len(),
            dim <= self.dimensions,
        ensures
            match r {
                Ok(t) => {
                    &&& t.valid(self.discriminant@)
                    &&& fold_seq(self.entries().subrange(lo as int, hi as int), dim as nat, self.dimensions as nat, self.discriminant@)
                        == Ok::<TupleView, HtpError>(t@)
                },
                Err(e) => fold_seq(self.entries().subrange(lo as int, hi as int), dim as nat, self.dimensions as nat, self.discriminant@)
                    == Err::<TupleView, HtpError>(e),
            },
        decreases hi - lo, self.dimensions - dim, 1nat,
    {
        let ghost s = self.entries();
        let ghost n = self.dimensions as nat;
        let ghost d = self.discriminant@;
        if lo == hi {
            let t = AffineTuple::identity(&self.discriminant);
            return Ok(t);
        }
        if dim == self.dimensions {
            proof {
                assert(self.data@[lo as int].tuple.valid(d));
            }
            return Ok(self.data[lo].tuple.dup());
        }
        let mut acc = AffineTuple::identity(&self.discriminant);
        let mut i = lo;
        while i < hi
            invariant
                self.wf_data(),
                s == self.entries(),
                n == self.dimensions,
                d == self.discriminant@,
                lo <= i <= hi <= self.data@.len(),
                dim < self.dimensions,
                acc.valid(d),
                fold_groups(acc@, s.subrange(i as int, hi as int), dim as nat, n, d) == fold_seq(
                    s.subrange(lo as int, hi as int),
                    dim as nat,
                    n,
                    d,
                ),
            decreases hi - i,
        {
            proof {
                assert(self.data@[i as int].coord@.len() == self.dimensions);
            }
            let v = self.data[i].coord[dim];
            let mut j = i + 1;
            proof {
                lemma_run_len_step(s.subrange(0, hi as int), dim as nat, v, i as int);
                assert(s.subrange(0, hi as int).subrange(i as int, hi as int) =~= s.subrange(i as int, hi as int));
                assert(s.subrange(0, hi as int).subrange(i + 1, hi as int) =~= s.subrange(i + 1, hi as int));
            }
            while j < hi && self.data[j].coord[dim] == v
                invariant
                    self.wf_data(),
                    s == self.entries(),
                    i < j <= hi <= self.data@.len(),
                    dim < self.dimensions,
                    run_len(s.subrange(i as int, hi as int), dim as nat, v) == (j - i) + run_len(
                        s.subrange(j as int, hi as int),
                        dim as nat,
                        v,
                    ),
                decreases hi - j,
            {
                proof {
                    assert(self.data@[j as int].coord@.len() == self.dimensions);
                    lemma_run_len_step(s.subrange(0, hi as int), dim as nat, v, j as int);
                    assert(s.subrange(0, hi as int).subrange(j as int, hi as int) =~= s.subrange(j as int, hi as int));
                    assert(s.subrange(0, hi as int).subrange(j + 1, hi as int) =~= s.subrange(j + 1, hi as int));
                }
                j = j + 1;
            }
            proof {
                if j < hi {
                    assert(self.data@[j as int].coord@.len() == self.dimensions);
                }
                assert(run_len(s.subrange(j as int, hi as int), dim as nat, v) == 0);
                let sr = s.subrange(i as int, hi as int);
                assert(sr[0].0[dim as int] == v);
                assert(sr.subrange(0, (j - i) as int) =~= s.subrange(i as int, j as int));
                assert(sr.subrange((j - i) as int, sr.len() as int) =~= s.subrange(j as int, hi as int));
            }
            let sub = self.fold_range(i, j, dim + 1)?;
            acc = acc.compose(&sub, &self.discriminant)?;
            i = j;
        }
        Ok(acc)
    }

    /// The root computed from the data, without touching the cache.
    pub fn compute_root_internal(&self) -> (r: Result<AffineTuple, HtpError>)
        requires
            self.wf_data(),
        ensures
            match r {
                Ok(t) => {
                    &&& t.valid(self.discriminant@)
                    &&& root_spec(self.entries(), self.dimensions as nat, self.discriminant@)
                        == Ok::<TupleView, HtpError>(t@)
                },
                Err(e) => root_spec(self.entries(), self.dimensions as nat, self.discriminant@) == Err::<
                    TupleView,
                    HtpError,
                >(e),
            },
    {
        proof {
            assert(self.entries().subrange(0, self.data@.len() as int) =~= self.entries());
        }
        self.fold_range(0, self.data.len(), 0)
    }

    /// The global root: the cached one if present, else computed and cached.
    /// The data are unchanged; on failure nothing changes.
    pub fn calculate_global_root(&mut self) -> (r: Result<AffineTuple, HtpError>)
        requires
            old(self).wf(),
        ensures
            final(self).wf(),
            final(self).data == old(self).data,
            final(self).dimensions == old(self).dimensions,
            final(self).side_length == old(self).side_length,
            final(self).discriminant == old(self).discriminant,
            final(self).epoch == old(self).epoch,
            match r {
                Ok(t) => {
                    &&& t.valid(final(self).discriminant@)
                    &&& root_spec(old(self).entries(), old(self).dimensions as nat, old(self).discriminant@)
                        == Ok::<TupleView, HtpError>(t@)
                    &&& final(self).cached_root matches Some(c) && c@ == t@
                },
                Err(e) => {
                    &&& *final(self) == *old(self)
                    &&& root_spec(old(self).entries(), old(self).dimensions as nat, old(self).discriminant@)
                        == Err::<TupleView, HtpError>(e)
                },
            },
    {
        match &self.cached_root {
            Some(root) => {
                return Ok(root.dup());
            },
            None => {},
        }
        let root = self.compute_root_internal()?;
        self.cached_root = Some(root.dup());
        Ok(root)
    }
}

} // verus!
