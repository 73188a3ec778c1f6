//! The biased-rank summary: ordered samples kept under a rank-error
//! invariant, with insertion, compression, quantile queries, aggregates and
//! merging.

use vstd::prelude::*;
use vstd::arithmetic::div_mod::{lemma_div_is_ordered, lemma_div_multiples_vanish};
use vstd::arithmetic::mul::lemma_mul_inequality;
use crate::entry::Entry;
use crate::fraction::{Fraction, DEN_LIMIT};
use crate::rank::{
    allowance, compress_pass, compress_step, insert_outcome, insert_position,
    lemma_allowance_at_least_one, lemma_allowance_at_one, lemma_allowance_le_double,
    lemma_allowance_monotone, lemma_prefix_g_at_least_index, lemma_prefix_g_insert,
    lemma_prefix_g_monotone, lemma_prefix_g_nonneg, lemma_prefix_g_remove,
    lemma_prefix_g_update, placed_entry, placed_samples, prefix_g, reinserted, scan_from, wadd,
    wrap_sum, lemma_wrap_sum_push, lemma_wrap_sum_concat,
};

verus! {

/// Combining two optional running sums: absence is the neutral element, and
/// two present sums combine by wrap-around addition.
pub open spec fn opt_wadd(a: Option<i64>, b: Option<i64>) -> Option<i64> {
    match (a, b) {
        (None, None) => None,
        (None, Some(y)) => Some(y),
        (Some(x), None) => Some(x),
        (Some(x), Some(y)) => Some(wadd(x, y)),
    }
}

/// The compression schedule: compression runs once every
/// `max(1, floor(1 / (2 * eps)))` insertions.
pub open spec fn threshold_spec(eps: Fraction) -> int {
    let t = (eps.den as int) / (2 * eps.num);
    if t < 1 {
        1
    } else {
        t
    }
}

/// An approximate order-statistic summary of a stream of values, with a
/// configured rank tolerance.
pub struct CKMS {
    /// Number of insertions ever performed, not the retained sample count.
    pub n: usize,
    /// The configured rank tolerance.
    pub error: Fraction,
    /// Compression runs every `insert_threshold` insertions.
    pub insert_threshold: usize,
    /// Insertion counter, kept below `insert_threshold`.
    pub inserts: usize,
    /// The retained samples, non-decreasing in their value.
    pub samples: Vec<Entry>,
    /// The most recently inserted value.
    pub last_in: Option<i64>,
    /// The running sum of inserted values; absent before any insertion.
    pub sum: Option<i64>,
    /// Every value ever placed into the sample sequence, in order.
    pub inserted: Ghost<Seq<i64>>,
    /// Every value whose insertion contributed to the running sum.
    pub summed: Ghost<Seq<i64>>,
}

impl CKMS {
    /// The well-formedness invariant: it holds after construction and is
    /// preserved by every public operation.
    pub open spec fn well_formed(&self) -> bool {
        let s = self.samples@;
        let len = s.len() as int;
        &&& self.error.valid_error()
        &&& self.insert_threshold == threshold_spec(self.error)
        &&& self.inserts < self.insert_threshold
        // the count is the number of placed values
        &&& self.n == self.inserted@.len()
        // the samples are sorted by value
        &&& forall|i: int, j: int|
            0 <= i <= j < len ==> (#[trigger] s[i]).v <= (#[trigger] s[j]).v
        // every gap is at least one
        &&& forall|i: int| 0 <= i < len ==> (#[trigger] s[i]).g >= 1
        // the first entry keeps the gap it was created with
        &&& len > 0 ==> s[0].g == 1
        // the gaps add up to the number of placed values
        &&& prefix_g(s, len) == self.n
        // the rank-error invariant: gap plus rank-error allowance fits under
        // the allowance function at the entry's inclusive rank (the sum of
        // the gaps up to and including the entry)
        &&& forall|i: int|
            1 <= i < len ==> (#[trigger] s[i]).g + s[i].delta <= allowance(
                self.error,
                prefix_g(s, i + 1),
            )
        // the endpoints are exact
        &&& len > 0 ==> s[0].delta == 0 && s[len - 1].delta == 0
        // samples exist exactly while values have been placed
        &&& len == 0 <==> self.n == 0
        // the first and last sample bracket every placed value
        &&& len > 0 ==> forall|k: int|
            0 <= k < self.inserted@.len() ==> s[0].v <= #[trigger] self.inserted@[k]
                <= s[len - 1].v
        // every sample value was placed at some point
        &&& forall|i: int| 0 <= i < len ==> self.inserted@.contains((#[trigger] s[i]).v)
        // the running sum is the wrap-around sum of the summed values
        &&& self.sum is None <==> self.summed@.len() == 0
        &&& self.summed@.len() > 0 ==> self.sum == Some(wrap_sum(self.summed@))
    }

    /// Create a new summary with tolerance `error`, clamped into the open
    /// unit interval by the policy of [`Fraction::clamped`].
    pub fn new(error: Fraction) -> (s: CKMS)
        requires
            error.admissible(),
        ensures
            s.well_formed(),
            s.error == error.clamped(),
            s.n == 0,
            s.samples@.len() == 0,
            s.inserts == 0,
            s.last_in is None,
            s.sum is None,
            s.inserted@ == Seq::<i64>::empty(),
            s.summed@ == Seq::<i64>::empty(),
    {
        let error = if error.num == 0 {
            Fraction { num: 1, den: 100_000_000 }
        } else if error.num >= error.den {
            Fraction { num: 99, den: 100 }
        } else {
            error
        };
        let half = 2 * error.num;
        let t = error.den / half;
        let insert_threshold: usize = if t < 1 {
            1
        } else {
            t as usize
        };
        let s = CKMS {
            n: 0,
            error,
            insert_threshold,
            inserts: 0,
            samples: Vec::<Entry>::new(),
            last_in: None,
            sum: None,
            inserted: Ghost(Seq::empty()),
            summed: Ghost(Seq::empty()),
        };
        s
    }

    /// The most recently inserted value, if any value was ever inserted.
    pub fn last(&self) -> (r: Option<i64>)
        ensures
            r == self.last_in,
    {
        self.last_in
    }

    /// The running sum of the inserted values, combined with the element
    /// type's wrap-around addition; absent before any insertion.
    pub fn sum(&self) -> (r: Option<i64>)
        ensures
            r == self.sum,
            self.well_formed() ==> ((r is None) <==> self.summed@.len() == 0),
            self.well_formed() && self.summed@.len() > 0 ==> r == Some(wrap_sum(self.summed@)),
    {
        self.sum
    }

    /// The number of values inserted over the lifetime of the summary, not
    /// the number of retained samples.
    pub fn count(&self) -> (r: usize)
        ensures
            r == self.n,
            self.well_formed() ==> r == self.inserted@.len(),
    {
        self.n
    }

    /// The allowance at rank `r`, computed exactly in 128-bit arithmetic.
    fn allowance_u128(eps: &Fraction, r: u128) -> (f: u128)
        requires
            eps.valid_error(),
            r <= u64::MAX as u128,
        ensures
            f as int == allowance(*eps, r as int),
    {
        proof {
            assert(2 * (eps.num as int) * (r as int) <= u128::MAX as int) by (nonlinear_arith)
                requires
                    eps.num <= 0x8000_0000u64,
                    r <= u64::MAX as u128,
            ;
        }
        let prod: u128 = 2 * (eps.num as u128) * r;
        let q: u128 = prod / (eps.den as u128);
        if q < 1 {
            1
        } else {
            q
        }
    }

    /// The allowance at rank `r`, narrowed back to a machine word; sound
    /// whenever twice the rank fits.
    fn allowance_usize(eps: &Fraction, r: usize) -> (f: usize)
        requires
            eps.valid_error(),
            2 * (r as int) < usize::MAX,
        ensures
            f as int == allowance(*eps, r as int),
            f >= 1,
    {
        let q = Self::allowance_u128(eps, r as u128);
        proof {
            lemma_allowance_le_double(*eps, r as int);
        }
        q as usize
    }

    /// Positioned insertion: place `v` into rank order at the position and
    /// with the rank-error allowance that [`placed_samples`] states, then
    /// advance the compression counter and run the compression pass exactly
    /// when it wraps.  An empty summary takes the value without touching
    /// the counter.
    #[verifier::loop_isolation(false)]
    fn priv_insert(&mut self, v: i64)
        requires
            old(self).well_formed(),
            old(self).n < usize::MAX / 2,
        ensures
            final(self).well_formed(),
            final(self).n == old(self).n + 1,
            final(self).inserted@ == old(self).inserted@.push(v),
            final(self).error == old(self).error,
            final(self).insert_threshold == old(self).insert_threshold,
            final(self).last_in == old(self).last_in,
            final(self).sum == old(self).sum,
            final(self).summed@ == old(self).summed@,
            old(self).samples@.len() == 0 ==> final(self).inserts == old(self).inserts,
            old(self).samples@.len() > 0 ==> final(self).inserts as int == ((old(self).inserts
                + 1) as int) % (old(self).insert_threshold as int),
            (old(self).samples@.len() == 0 || (((old(self).inserts + 1) as int) % (old(self).insert_threshold as int)) != 0) ==> final(self).samples@ == placed_samples(
                old(self).samples@,
                old(self).error,
                v,
            ),
            (old(self).samples@.len() > 0 && (((old(self).inserts + 1) as int) % (old(self).insert_threshold as int)) == 0) ==> final(self).samples@ == compress_pass(
                placed_samples(old(self).samples@, old(self).error, v),
                old(self).error,
            ),
    {
        let s = self.samples.len();
        if s == 0 {
            proof {
                assert(insert_position(self.samples@, v) == 0);
                assert(placed_entry(self.samples@, self.error, v) == (Entry {
                    v,
                    g: 1,
                    delta: 0,
                }));
            }
            self.samples.insert(0, Entry { v, g: 1, delta: 0 });
            self.n = self.n + 1;
            proof {
                self.inserted@ = self.inserted@.push(v);
                assert(self.samples@[0] == Entry { v, g: 1, delta: 0 });
                assert(prefix_g(self.samples@, 1) == prefix_g(self.samples@, 0) + 1);
                assert(self.inserted@[0] == v);
                assert(self.inserted@.contains(v));
            }
            return;
        }
        let ghost s0 = self.samples@;
        let mut idx: usize = 0;
        let mut r: usize = 0;
        while idx < s && self.samples[idx].v < v
            invariant
                idx <= s,
                r == prefix_g(s0, idx as int),
                forall|k: int| 0 <= k < idx ==> s0[k].v < v,
                scan_from(s0, v, 0) == scan_from(s0, v, idx as int),
            decreases s - idx,
        {
            proof {
                assert(prefix_g(s0, idx + 1) == prefix_g(s0, idx as int) + s0[idx as int].g);
                lemma_prefix_g_monotone(s0, idx + 1, s as int);
            }
            r = r + self.samples[idx].g;
            idx = idx + 1;
        }
        proof {
            lemma_prefix_g_monotone(s0, idx as int, s as int);
            assert(scan_from(s0, v, idx as int) == idx);
            assert(insert_position(s0, v) == idx);
        }
        let delta: usize = if idx == 0 || idx == s {
            0
        } else {
            let f = Self::allowance_usize(&self.error, r);
            f - 1
        };
        proof {
            assert(placed_entry(s0, self.error, v) == (Entry { v, g: 1, delta }));
        }
        let ghost pre = *self;
        self.samples.insert(idx, Entry { v, g: 1, delta });
        self.n = self.n + 1;
        proof {
            self.inserted@ = self.inserted@.push(v);
            self.lemma_priv_insert_well_formed(pre, v, idx as int, r as int, delta);
            assert(self.samples@ == placed_samples(s0, self.error, v));
        }
        self.inserts = (self.inserts + 1) % self.insert_threshold;
        if self.inserts == 0 {
            self.compress();
        }
    }

    /// Insert a value: update the running sum and the last-inserted value,
    /// then place the value by positioned insertion, compressing exactly
    /// when the schedule counter wraps.  The sum uses the element type's
    /// wrap-around addition.
    pub fn insert(&mut self, v: i64)
        requires
            old(self).well_formed(),
            old(self).n < usize::MAX / 2,
        ensures
            final(self).well_formed(),
            final(self).n == old(self).n + 1,
            final(self).inserted@ == old(self).inserted@.push(v),
            final(self).summed@ == old(self).summed@.push(v),
            final(self).last_in == Some(v),
            final(self).sum == Some(wrap_sum(final(self).summed@)),
            final(self).error == old(self).error,
            final(self).insert_threshold == old(self).insert_threshold,
            old(self).samples@.len() == 0 ==> final(self).inserts == old(self).inserts,
            old(self).samples@.len() > 0 ==> final(self).inserts as int == ((old(self).inserts
                + 1) as int) % (old(self).insert_threshold as int),
            (old(self).samples@.len() == 0 || (((old(self).inserts + 1) as int) % (old(self).insert_threshold as int)) != 0) ==> final(self).samples@ == placed_samples(
                old(self).samples@,
                old(self).error,
                v,
            ),
            (old(self).samples@.len() > 0 && (((old(self).inserts + 1) as int) % (old(self).insert_threshold as int)) == 0) ==> final(self).samples@ == compress_pass(
                placed_samples(old(self).samples@, old(self).error, v),
                old(self).error,
            ),
    {
        self.sum = match self.sum {
            None => Some(v),
            Some(s) => Some(s.wrapping_add(v)),
        };
        self.last_in = Some(v);
        proof {
            lemma_wrap_sum_push(self.summed@, v);
            self.summed@ = self.summed@.push(v);
        }
        self.priv_insert(v);
    }

    /// Merge `other` into `self`: take over its last-inserted value, combine
    /// the running sums under the absent-value rules, and re-insert every
    /// retained sample value of `other` by positioned insertion.  The count
    /// grows by the number of retained samples of `other`, not by its count.
    #[verifier::loop_isolation(false)]
    pub fn absorb(&mut self, other: CKMS)
        requires
            old(self).well_formed(),
            other.well_formed(),
            old(self).n + other.samples@.len() <= usize::MAX / 2,
        ensures
            final(self).well_formed(),
            final(self).n == old(self).n + other.samples@.len(),
            final(self).inserted@ == old(self).inserted@ + other.samples@.map_values(
                |e: Entry| e.v,
            ),
            final(self).summed@ == old(self).summed@ + other.summed@,
            final(self).last_in == other.last_in,
            final(self).sum == opt_wadd(old(self).sum, other.sum),
            final(self).error == old(self).error,
            final(self).insert_threshold == old(self).insert_threshold,
            other.samples@.len() == 0 ==> final(self).samples@ == old(self).samples@
                && final(self).inserts == old(self).inserts,
            ({
                let o = reinserted(
                    old(self).samples@,
                    old(self).inserts as int,
                    old(self).insert_threshold as int,
                    old(self).error,
                    other.samples@.map_values(|e: Entry| e.v),
                );
                final(self).samples@ == o.0 && final(self).inserts as int == o.1
            }),
    {
        self.last_in = other.last_in;
        self.sum = match (self.sum, other.sum) {
            (None, None) => None,
            (None, Some(y)) => Some(y),
            (Some(x), None) => Some(x),
            (Some(x), Some(y)) => Some(x.wrapping_add(y)),
        };
        proof {
            lemma_wrap_sum_concat(self.summed@, other.summed@);
            if other.summed@.len() == 0 {
                assert(self.summed@ + other.summed@ =~= self.summed@);
            }
            if self.summed@.len() == 0 {
                assert(self.summed@ + other.summed@ =~= other.summed@);
            }
            self.summed@ = self.summed@ + other.summed@;
        }
        let ghost mid = *self;
        let ghost vals = other.samples@.map_values(|e: Entry| e.v);
        let ghost thr = mid.insert_threshold as int;
        let k = other.samples.len();
        let mut j: usize = 0;
        proof {
            assert(vals.skip(0) =~= vals);
        }
        while j < k
            invariant
                self.well_formed(),
                j <= k,
                self.n == mid.n + j,
                self.inserted@ == mid.inserted@ + other.samples@.subrange(0, j as int).map_values(
                    |e: Entry| e.v,
                ),
                self.error == mid.error,
                self.insert_threshold == mid.insert_threshold,
                self.last_in == mid.last_in,
                self.sum == mid.sum,
                self.summed@ == mid.summed@,
                k == 0 ==> self.samples@ == mid.samples@ && self.inserts == mid.inserts,
                reinserted(self.samples@, self.inserts as int, thr, mid.error, vals.skip(j as int))
                    == reinserted(mid.samples@, mid.inserts as int, thr, mid.error, vals),
            decreases k - j,
        {
            let val = other.samples[j].v;
            let ghost before = *self;
            self.priv_insert(val);
            proof {
                assert(other.samples@.subrange(0, j + 1).map_values(|e: Entry| e.v)
                    =~= other.samples@.subrange(0, j as int).map_values(|e: Entry| e.v).push(val));
                assert(vals.skip(j as int)[0] == vals[j as int] == val);
                assert(vals.skip(j as int).drop_first() =~= vals.skip(j as int + 1));
                assert((self.samples@, self.inserts as int) == insert_outcome(
                    before.samples@,
                    before.inserts as int,
                    thr,
                    mid.error,
                    val,
                ));
            }
            j = j + 1;
        }
        proof {
            assert(other.samples@.subrange(0, k as int) =~= other.samples@);
            assert(vals.skip(k as int) =~= Seq::<i64>::empty());
        }
    }

    /// The compression pass: scan left to right, merging an entry into its
    /// right neighbour whenever their combined footprint still fits under
    /// the allowance at the running rank.  With fewer than three samples it
    /// does nothing.  The resulting samples are exactly what the spec-level
    /// pass [`compress_pass`] yields.
    #[verifier::loop_isolation(false)]
    pub fn compress(&mut self)
        requires
            old(self).well_formed(),
        ensures
            final(self).well_formed(),
            final(self).samples@ == compress_pass(old(self).samples@, old(self).error),
            final(self).n == old(self).n,
            final(self).error == old(self).error,
            final(self).insert_threshold == old(self).insert_threshold,
            final(self).inserts == old(self).inserts,
            final(self).last_in == old(self).last_in,
            final(self).sum == old(self).sum,
            final(self).inserted@ == old(self).inserted@,
            final(self).summed@ == old(self).summed@,
            final(self).samples@.len() <= old(self).samples@.len(),
            old(self).samples@.len() < 3 ==> final(self).samples@ == old(self).samples@,
            old(self).samples@.len() > 0 ==> final(self).samples@[0] == old(self).samples@[0],
            old(self).samples@.len() > 0 ==> final(self).samples@.len() > 0
                && final(self).samples@[final(self).samples@.len() - 1].v
                    == old(self).samples@[old(self).samples@.len() - 1].v,
    {
        if self.samples.len() < 3 {
            return;
        }
        let ghost orig = *self;
        let len0 = self.samples.len();
        let mut s_mx: usize = self.samples.len() - 1;
        let mut i: usize = 0;
        let mut r: usize = 1;
        proof {
            assert(prefix_g(self.samples@, 1) == prefix_g(self.samples@, 0)
                + self.samples@[0].g);
        }
        while i < s_mx
            invariant
                self.well_formed(),
                self.n == orig.n,
                self.error == orig.error,
                self.insert_threshold == orig.insert_threshold,
                self.inserts == orig.inserts,
                self.last_in == orig.last_in,
                self.sum == orig.sum,
                self.inserted@ == orig.inserted@,
                self.summed@ == orig.summed@,
                i <= s_mx,
                s_mx == self.samples@.len() - 1,
                self.samples@.len() >= 2,
                self.samples@.len() <= orig.samples@.len(),
                self.samples@[0] == orig.samples@[0],
                self.samples@[s_mx as int].v == orig.samples@[orig.samples@.len() - 1].v,
                r + (s_mx - i) == len0,
                1 <= r,
                r <= prefix_g(self.samples@, i + 1),
                i == 0 ==> r == 1,
                compress_step(self.samples@, orig.error, i as int, s_mx as int, r as int)
                    == compress_pass(orig.samples@, orig.error),
            decreases s_mx - i,
        {
            let ghost sv = self.samples@;
            let cur_g = self.samples[i].g;
            let nxt = self.samples[i + 1];
            let f = Self::allowance_u128(&self.error, r as u128);
            let w: u128 = cur_g as u128 + nxt.g as u128 + nxt.delta as u128;
            if w <= f {
                proof {
                    if i == 0 {
                        lemma_allowance_at_one(self.error);
                        assert(false);
                    }
                    // the combined gap fits in a machine word
                    assert(prefix_g(sv, i + 2) == prefix_g(sv, i + 1) + sv[i + 1].g);
                    assert(prefix_g(sv, i + 1) == prefix_g(sv, i as int) + sv[i as int].g);
                    lemma_prefix_g_monotone(sv, 0, i as int);
                    lemma_prefix_g_monotone(sv, i + 2, sv.len() as int);
                }
                let merged = Entry { v: nxt.v, g: cur_g + nxt.g, delta: nxt.delta };
                self.samples[i] = merged;
                self.samples.remove(i + 1);
                s_mx = s_mx - 1;
                proof {
                    self.lemma_compress_merge_step(orig, sv, i as int, r as int, merged);
                    assert(self.samples@ == sv.update(i as int, merged).remove(i + 1));
                    assert(sv[i as int].g + sv[i + 1].g + sv[i + 1].delta <= allowance(
                        orig.error,
                        r as int,
                    ));
                    assert(compress_step(sv, orig.error, i as int, s_mx as int + 1, r as int)
                        == compress_step(
                        self.samples@,
                        orig.error,
                        i as int,
                        s_mx as int,
                        r as int + 1,
                    ));
                }
            } else {
                proof {
                    assert(prefix_g(sv, i + 2) == prefix_g(sv, i + 1) + sv[i + 1].g);
                    assert(!(sv[i as int].g + sv[i + 1].g + sv[i + 1].delta <= allowance(
                        orig.error,
                        r as int,
                    )));
                    assert(compress_step(sv, orig.error, i as int, s_mx as int, r as int)
                        == compress_step(sv, orig.error, i as int + 1, s_mx as int, r as int + 1));
                }
                i = i + 1;
            }
            r = r + 1;
        }
        proof {
            assert(compress_step(self.samples@, orig.error, i as int, s_mx as int, r as int)
                == self.samples@);
        }
    }

    /// Re-establishing the loop facts of the compression pass after one
    /// merge of the entry at `i` into its right neighbour.
    proof fn lemma_compress_merge_step(&self, orig: CKMS, sv: Seq<Entry>, i: int, r: int, merged: Entry)
        requires
            orig.well_formed(),
            1 <= i,
            i + 1 < sv.len(),
            sv.len() >= 3,
            merged == (Entry { v: sv[i + 1].v, g: (sv[i].g + sv[i + 1].g) as usize, delta: sv[i + 1].delta }),
            sv[i].g + sv[i + 1].g <= usize::MAX,
            merged.g + merged.delta <= allowance(self.error, r),
            1 <= r,
            r <= prefix_g(sv, i + 1),
            self.samples@ == sv.update(i, merged).remove(i + 1),
            self.error == orig.error,
            self.n == orig.n,
            self.inserted@ == orig.inserted@,
            self.summed@ == orig.summed@,
            self.insert_threshold == orig.insert_threshold,
            self.inserts == orig.inserts,
            self.last_in == orig.last_in,
            self.sum == orig.sum,
            // the standing facts about the pre-merge samples
            orig.n == prefix_g(sv, sv.len() as int),
            forall|a: int, b: int| 0 <= a <= b < sv.len() ==> (#[trigger] sv[a]).v <= (#[trigger] sv[b]).v,
            forall|k: int| 0 <= k < sv.len() ==> (#[trigger] sv[k]).g >= 1,
            sv[0].g == 1,
            forall|k: int|
                1 <= k < sv.len() ==> (#[trigger] sv[k]).g + sv[k].delta <= allowance(
                    self.error,
                    prefix_g(sv, k + 1),
                ),
            sv[0].delta == 0,
            sv[sv.len() - 1].delta == 0,
            forall|k: int|
                0 <= k < self.inserted@.len() ==> sv[0].v <= #[trigger] self.inserted@[k]
                    <= sv[sv.len() - 1].v,
            forall|k: int| 0 <= k < sv.len() ==> self.inserted@.contains((#[trigger] sv[k]).v),
            self.sum is None <==> self.summed@.len() == 0,
            self.summed@.len() > 0 ==> self.sum == Some(wrap_sum(self.summed@)),
            self.error.valid_error(),
            self.insert_threshold == threshold_spec(self.error),
            self.inserts < self.insert_threshold,
            self.n == self.inserted@.len(),
            self.n > 0,
        ensures
            self.well_formed(),
            self.samples@.len() == sv.len() - 1,
            self.samples@[0] == sv[0],
            self.samples@[self.samples@.len() - 1].v == sv[sv.len() - 1].v,
            r + 1 <= prefix_g(self.samples@, i + 1),
            prefix_g(self.samples@, i + 1) == prefix_g(sv, i + 2),
    {
        let t1 = sv.update(i, merged);
        let t = self.samples@;
        let len = sv.len() as int;
        t1.remove_ensures(i + 1);
        assert(t.len() == len - 1);
        // cumulative gaps: unchanged up to the merge point, shifted past it
        assert forall|j: int| 0 <= j <= t.len() implies prefix_g(t, j) == if j <= i {
            prefix_g(sv, j)
        } else {
            prefix_g(sv, j + 1)
        } by {
            lemma_prefix_g_update(sv, i, merged, if j <= i { j } else { j + 1 });
            lemma_prefix_g_remove(t1, i + 1, j);
            if j > i {
                assert(prefix_g(t1, j + 1) == prefix_g(sv, j + 1) - sv[i].g + merged.g);
                assert(t1[i + 1] == sv[i + 1]);
            }
        }
        assert(prefix_g(t, t.len() as int) == prefix_g(sv, len) == self.n);
        // element placement
        assert forall|a: int| 0 <= a < t.len() implies t[a] == if a < i {
            sv[a]
        } else if a == i {
            merged
        } else {
            sv[a + 1]
        } by {
            if a < i + 1 {
                assert(t[a] == t1[a]);
            } else {
                assert(t[a] == t1[a + 1]);
            }
        }
        // sortedness
        assert forall|a: int, b: int| 0 <= a <= b < t.len() implies (#[trigger] t[a]).v
            <= (#[trigger] t[b]).v by {
            let av = if a < i { a } else { a + 1 };
            let bv = if b < i { b } else { b + 1 };
            assert(t[a].v == sv[av].v);
            assert(t[b].v == sv[bv].v);
        }
        // rank-error invariant
        assert forall|k: int| 1 <= k < t.len() implies (#[trigger] t[k]).g + t[k].delta
            <= allowance(self.error, prefix_g(t, k + 1)) by {
            if k < i {
                assert(t[k] == sv[k]);
                assert(prefix_g(t, k + 1) == prefix_g(sv, k + 1));
            } else if k == i {
                assert(prefix_g(t, k + 1) == prefix_g(sv, i + 2));
                assert(prefix_g(sv, i + 2) == prefix_g(sv, i + 1) + sv[i + 1].g);
                lemma_allowance_monotone(self.error, r, prefix_g(sv, i + 2));
            } else {
                assert(t[k] == sv[k + 1]);
                assert(prefix_g(t, k + 1) == prefix_g(sv, k + 2));
            }
        }
        // endpoints
        assert(t[0] == sv[0]);
        if i == t.len() - 1 {
            assert(t[t.len() - 1] == merged);
        } else {
            assert(t[t.len() - 1] == sv[len - 1]);
        }
        // every retained value was already retained before the merge
        assert forall|k: int| 0 <= k < t.len() implies self.inserted@.contains(
            (#[trigger] t[k]).v,
        ) by {
            let kv = if k < i { k } else { k + 1 };
            assert(t[k].v == sv[kv].v || t[k] == sv[k]);
            if k == i {
                assert(t[k].v == sv[i + 1].v);
            }
        }
        // the running rank still fits under the next inclusive rank
        assert(prefix_g(t, i + 1) == prefix_g(sv, i + 2));
        assert(prefix_g(sv, i + 2) == prefix_g(sv, i + 1) + sv[i + 1].g);
    }

    /// Re-establishing well-formedness after one positioned insertion.
    #[verifier::spinoff_prover]
    #[verifier::rlimit(100)]
    proof fn lemma_priv_insert_well_formed(
        &self,
        pre: CKMS,
        v: i64,
        idx: int,
        r: int,
        delta: usize,
    )
        requires
            pre.well_formed(),
            pre.samples@.len() > 0,
            pre.n < usize::MAX as int / 2,
            0 <= idx <= pre.samples@.len(),
            r == prefix_g(pre.samples@, idx),
            forall|k: int| 0 <= k < idx ==> pre.samples@[k].v < v,
            idx < pre.samples@.len() ==> pre.samples@[idx].v >= v,
            delta as int == if idx == 0 || idx == pre.samples@.len() {
                0int
            } else {
                allowance(pre.error, r) - 1
            },
            self.samples@ == pre.samples@.insert(idx, Entry { v, g: 1, delta }),
            self.n == pre.n + 1,
            self.inserted@ == pre.inserted@.push(v),
            self.error == pre.error,
            self.insert_threshold == pre.insert_threshold,
            self.inserts == pre.inserts,
            self.last_in == pre.last_in,
            self.sum == pre.sum,
            self.summed@ == pre.summed@,
        ensures
            self.well_formed(),
    {
        let s0 = pre.samples@;
        let t = self.samples@;
        let len0 = s0.len() as int;
        let e = Entry { v, g: 1, delta };
        s0.insert_ensures(idx, e);
        assert(t.len() == len0 + 1);
        // sortedness: every element sits where the scan placed it
        assert forall|a: int, b: int| 0 <= a <= b < t.len() implies (#[trigger] t[a]).v
            <= (#[trigger] t[b]).v by {
            if a < idx && b == idx {
                assert(t[a] == s0[a]);
            } else if a == idx && b > idx {
                assert(t[b] == s0[b - 1]);
                assert(s0[idx].v >= v || idx == len0);
                if b - 1 > idx - 1 {
                    assert(s0[idx].v <= s0[b - 1].v || b - 1 == idx - 1);
                }
            }
        }
        // cumulative gaps before and after the new entry
        assert forall|j: int| 0 <= j <= t.len() implies prefix_g(t, j) == if j <= idx {
            prefix_g(s0, j)
        } else {
            prefix_g(s0, j - 1) + 1
        } by {
            lemma_prefix_g_insert(s0, idx, e, j);
        }
        assert(prefix_g(t, t.len() as int) == self.n);
        // the rank-error invariant entry by entry
        assert forall|i: int| 1 <= i < t.len() implies (#[trigger] t[i]).g + t[i].delta
            <= allowance(self.error, prefix_g(t, i + 1)) by {
            if i < idx {
                assert(t[i] == s0[i]);
                assert(prefix_g(t, i + 1) == prefix_g(s0, i + 1));
            } else if i == idx {
                if idx == len0 {
                    lemma_allowance_at_least_one(self.error, prefix_g(t, i + 1));
                } else {
                    assert(t[i] == e);
                    assert(prefix_g(t, i + 1) == prefix_g(s0, i) + 1);
                    lemma_prefix_g_nonneg(s0, i);
                    lemma_allowance_monotone(self.error, r, prefix_g(s0, i) + 1);
                }
            } else {
                assert(t[i] == s0[i - 1]);
                assert(prefix_g(t, i + 1) == prefix_g(s0, i) + 1);
                if i - 1 >= 1 {
                    lemma_prefix_g_nonneg(s0, i);
                    lemma_allowance_monotone(self.error, prefix_g(s0, i), prefix_g(s0, i) + 1);
                } else {
                    // the old first entry has gap one and no allowance
                    lemma_allowance_at_least_one(self.error, prefix_g(t, i + 1));
                }
            }
        }
        // endpoints stay exact
        assert(t[0].delta == 0);
        assert(t[t.len() - 1].delta == 0);
        // bracketing of every placed value
        assert forall|k: int| 0 <= k < self.inserted@.len() implies t[0].v
            <= #[trigger] self.inserted@[k] <= t[t.len() - 1].v by {
            if k < pre.inserted@.len() {
                assert(self.inserted@[k] == pre.inserted@[k]);
                if idx == 0 {
                    assert(t[0].v == v && v <= s0[0].v);
                } else {
                    assert(t[0] == s0[0]);
                }
                if idx == len0 {
                    assert(t[t.len() - 1].v == v);
                    assert(s0[len0 - 1].v < v);
                } else {
                    assert(t[t.len() - 1] == s0[len0 - 1]);
                }
            } else {
                assert(self.inserted@[k] == v);
                if idx == 0 {
                    assert(t[0].v == v);
                } else {
                    assert(t[0] == s0[0] && s0[0].v < v);
                }
                if idx == len0 {
                    assert(t[t.len() - 1].v == v);
                } else {
                    assert(t[t.len() - 1] == s0[len0 - 1]);
                    assert(v <= s0[idx].v && s0[idx].v <= s0[len0 - 1].v);
                }
            }
        }
        // every sample value was placed
        assert forall|i: int| 0 <= i < t.len() implies self.inserted@.contains(
            (#[trigger] t[i]).v,
        ) by {
            if i == idx {
                assert(self.inserted@[self.inserted@.len() - 1] == v);
            } else {
                let oi = if i < idx {
                    i
                } else {
                    i - 1
                };
                assert(t[i] == s0[oi]);
                let w = choose|k: int| 0 <= k < pre.inserted@.len() && pre.inserted@[k] == s0[oi].v;
                assert(pre.inserted@.contains(s0[oi].v));
                assert(self.inserted@[w] == s0[oi].v);
            }
        }
    }

    /// The allowance evaluated at the target rank `phi * n`, as the query
    /// uses it: `max(1, floor(2 * eps * phi * n))`.
    pub open spec fn phi_allowance(self, phi: Fraction) -> int {
        let q = (2 * (self.error.num as int) * (phi.num as int) * (self.n as int)) / ((
        self.error.den as int) * (phi.den as int));
        if q < 1 {
            1
        } else {
            q
        }
    }

    /// The stop condition of the rank walk at index `i`: the inclusive rank
    /// of the entry plus its allowance overshoots the target window
    /// `phi * n + f(phi * n, n) / 2`, compared exactly over integers.
    pub open spec fn stop_at(self, phi: Fraction, i: int) -> bool {
        2 * (phi.den as int) * (prefix_g(self.samples@, i + 1) + self.samples@[i].delta) > 2 * (
        phi.num as int) * (self.n as int) + (phi.den as int) * self.phi_allowance(phi)
    }

    /// The rank walk itself: from index `i` upward, the first entry whose
    /// stop condition holds determines the result; if none does, the walk
    /// reports the sample count and the greatest sample.
    pub open spec fn query_walk(self, phi: Fraction, i: int) -> (int, i64)
        decreases self.samples@.len() - i,
    {
        if i < 1 || i >= self.samples@.len() {
            (self.samples@.len() as int, self.samples@[self.samples@.len() - 1].v)
        } else if self.stop_at(phi, i) {
            (prefix_g(self.samples@, i), self.samples@[i - 1].v)
        } else {
            self.query_walk(phi, i + 1)
        }
    }

    /// The query allowance never exceeds twice the target rank `phi * n`'s
    /// numerator (or one).
    proof fn lemma_phi_allowance_le(&self, phi: Fraction)
        requires
            self.error.valid_error(),
            1 <= phi.den,
        ensures
            1 <= self.phi_allowance(phi),
            self.phi_allowance(phi) <= if 2 * (phi.num as int) * (self.n as int) < 1 {
                1int
            } else {
                2 * (phi.num as int) * (self.n as int)
            },
    {
        assert((self.error.den as int) * (phi.den as int) >= 1) by (nonlinear_arith)
            requires
                self.error.den >= 1,
                phi.den >= 1,
        ;
        assert(2 * (self.error.num as int) * (phi.num as int) * (self.n as int) <= ((
        self.error.den as int) * (phi.den as int)) * (2 * (phi.num as int) * (self.n as int)))
            by (nonlinear_arith)
            requires
                0 <= self.error.num <= self.error.den,
                0 <= phi.num,
                phi.den >= 1,
                self.n >= 0,
        ;
        let a = 2 * (self.error.num as int) * (phi.num as int) * (self.n as int);
        let b = (self.error.den as int) * (phi.den as int);
        lemma_div_is_ordered(a, b * (2 * (phi.num as int) * (self.n as int)), b);
        lemma_div_multiples_vanish(2 * (phi.num as int) * (self.n as int), b);
    }

    /// At quantile zero the walk always stops at the second sample, so the
    /// least sample is reported.
    proof fn lemma_stop_at_one_when_zero(&self, phi: Fraction)
        requires
            self.well_formed(),
            phi.num == 0,
            1 <= phi.den,
            self.samples@.len() >= 2,
        ensures
            self.stop_at(phi, 1),
    {
        let s = self.samples@;
        assert(prefix_g(s, 2) == prefix_g(s, 1) + s[1].g);
        assert(prefix_g(s, 1) == prefix_g(s, 0) + s[0].g);
        assert(2 * (self.error.num as int) * (phi.num as int) * (self.n as int) == 0)
            by (nonlinear_arith)
            requires
                phi.num == 0,
        ;
        assert((self.error.den as int) * (phi.den as int) >= 1) by (nonlinear_arith)
            requires
                self.error.den >= 1,
                phi.den >= 1,
        ;
        assert(0int / ((self.error.den as int) * (phi.den as int)) == 0);
        assert(self.phi_allowance(phi) == 1);
        assert(2 * (phi.den as int) * (prefix_g(s, 2) + s[1].delta) >= 2 * (phi.den as int) * 2)
            by (nonlinear_arith)
            requires
                phi.den >= 1,
                prefix_g(s, 2) + s[1].delta >= 2,
        ;
    }

    /// At quantile one, over a summary whose entries all carry a zero
    /// allowance, the walk never stops, so the greatest sample is reported.
    proof fn lemma_walk_full_no_stop(&self, phi: Fraction, i: int)
        requires
            self.well_formed(),
            phi.num == phi.den,
            1 <= phi.den,
            forall|k: int| 0 <= k < self.samples@.len() ==> (#[trigger] self.samples@[k]).delta
                == 0,
            1 <= i < self.samples@.len(),
        ensures
            !self.stop_at(phi, i),
    {
        let s = self.samples@;
        lemma_prefix_g_monotone(s, i + 1, s.len() as int);
        lemma_prefix_g_nonneg(s, i + 1);
        assert(prefix_g(s, i + 1) <= self.n);
        self.lemma_phi_allowance_le(phi);
        lemma_mul_inequality(prefix_g(s, i + 1), self.n as int, 2 * (phi.den as int));
        assert(2 * (phi.den as int) * (prefix_g(s, i + 1) + s[i].delta) <= 2 * (phi.den as int)
            * (self.n as int)) by (nonlinear_arith)
            requires
                prefix_g(s, i + 1) <= self.n as int,
                s[i].delta == 0,
                phi.den >= 1,
        ;
    }

    /// One side of the query accuracy window: when the rank walk stops past
    /// the first interior sample, the reported rank does not overshoot the
    /// target window `phi * n + f(phi * n, n) / 2`, compared exactly over
    /// integers.
    pub proof fn lemma_query_rank_window_upper(self, phi: Fraction, i: int)
        requires
            self.well_formed(),
            1 <= phi.den,
            2 <= i < self.samples@.len(),
            self.stop_at(phi, i),
            forall|j: int| 1 <= j < i ==> !self.stop_at(phi, j),
        ensures
            self.query_walk(phi, 1).0 == prefix_g(self.samples@, i),
            2 * (phi.den as int) * self.query_walk(phi, 1).0 <= 2 * (phi.num as int) * (
            self.n as int) + (phi.den as int) * self.phi_allowance(phi),
    {
        self.lemma_walk_stops(phi, 1, i);
        let s = self.samples@;
        assert(!self.stop_at(phi, i - 1));
        assert(prefix_g(s, i) == prefix_g(s, i - 1) + s[i - 1].g);
        assert(2 * (phi.den as int) * (prefix_g(s, i) + s[i - 1].delta) <= 2 * (phi.num as int)
            * (self.n as int) + (phi.den as int) * self.phi_allowance(phi));
        assert(2 * (phi.den as int) * prefix_g(s, i) <= 2 * (phi.den as int) * (prefix_g(s, i)
            + s[i - 1].delta)) by (nonlinear_arith)
            requires
                phi.den >= 1,
                s[i - 1].delta >= 0,
        ;
    }

    /// A walk whose first stop is at `i` reports the pair determined there.
    proof fn lemma_walk_stops(self, phi: Fraction, from: int, i: int)
        requires
            1 <= from <= i < self.samples@.len(),
            self.stop_at(phi, i),
            forall|j: int| from <= j < i ==> !self.stop_at(phi, j),
        ensures
            self.query_walk(phi, from) == (prefix_g(self.samples@, i), self.samples@[i - 1].v),
        decreases i - from,
    {
        if from < i {
            self.lemma_walk_stops(phi, from + 1, i);
        }
    }

    /// Query the summary for a tolerance-approximate quantile.
    ///
    /// Returns nothing on an empty summary.  Otherwise walks the samples and
    /// returns the cumulative rank and value determined by the first sample
    /// whose rank-error window overshoots the target, exactly as
    /// [`Self::query_walk`] states.  Quantile zero always reports the least
    /// inserted value at rank one.
    #[verifier::loop_isolation(false)]
    pub fn query(&self, phi: Fraction) -> (r: Option<(usize, i64)>)
        requires
            self.well_formed(),
            phi.admissible(),
            phi.num <= DEN_LIMIT,
        ensures
            (r is None) <==> self.samples@.len() == 0,
            self.samples@.len() > 0 ==> (r matches Some(p) && p.0 as int == self.query_walk(
                phi,
                1,
            ).0 && p.1 == self.query_walk(phi, 1).1),
            phi.num == 0 && self.samples@.len() > 0 ==> r == Some((1usize, self.samples@[0].v)),
            (phi.num == phi.den && self.samples@.len() > 0 && (forall|k: int|
                0 <= k < self.samples@.len() ==> (#[trigger] self.samples@[k]).delta == 0)) ==> (
            r matches Some(p) && p.0 as int == self.samples@.len() && p.1 == self.samples@[
                self.samples@.len() - 1].v),
            r matches Some(p) ==> exists|j: int|
                0 <= j < self.samples@.len() && p.1 == (#[trigger] self.samples@[j]).v,
            r matches Some(p) ==> p.0 <= self.n,
    {
        let s = self.samples.len();
        if s == 0 {
            return None;
        }
        proof {
            self.lemma_phi_allowance_le(phi);
            assert(2 * (self.error.num as int) * (phi.num as int) <= 0x1_0000_0000_0000_0000int)
                by (nonlinear_arith)
                requires
                    0 <= self.error.num <= 0x4000_0000u64,
                    0 <= phi.num <= 0x4000_0000u64,
            ;
            assert(2 * (self.error.num as int) * (phi.num as int) * (self.n as int)
                <= 0xffff_ffff_ffff_ffff_0000_0000_0000_0000int) by (nonlinear_arith)
                requires
                    0 <= 2 * (self.error.num as int) * (phi.num as int)
                        <= 0x1_0000_0000_0000_0000int,
                    0 <= self.n <= u64::MAX,
            ;
            assert((self.error.den as int) * (phi.den as int) <= 0x1_0000_0000_0000_0000int)
                by (nonlinear_arith)
                requires
                    0 <= self.error.den <= 0x4000_0000u64,
                    0 <= phi.den <= 0x4000_0000u64,
            ;
            assert((self.error.den as int) * (phi.den as int) >= 1) by (nonlinear_arith)
                requires
                    self.error.den >= 1,
                    phi.den >= 1,
            ;
        }
        let num128: u128 = 2 * (self.error.num as u128) * (phi.num as u128) * (self.n as u128);
        let den128: u128 = (self.error.den as u128) * (phi.den as u128);
        let q128: u128 = num128 / den128;
        let fhat: u128 = if q128 < 1 {
            1
        } else {
            q128
        };
        proof {
            assert(fhat as int == self.phi_allowance(phi));
            assert(2 * (phi.num as int) * (self.n as int) <= 0x1_0000_0000_0000_0000_0000_0000int)
                by (nonlinear_arith)
                requires
                    0 <= phi.num <= 0x4000_0000u64,
                    0 <= self.n <= u64::MAX,
            ;
            assert((phi.den as int) * (fhat as int)
                <= 0x4000_0000_0000_0000_0000_0000_0000_0000int) by (nonlinear_arith)
                requires
                    0 <= phi.den <= 0x4000_0000u64,
                    0 <= fhat as int <= 0x1_0000_0000_0000_0000_0000_0000int,
            ;
        }
        let rhs: u128 = 2 * (phi.num as u128) * (self.n as u128) + (phi.den as u128) * fhat;
        let ghost sv = self.samples@;
        let mut i: usize = 1;
        let mut r_run: usize = 0;
        while i < s
            invariant
                1 <= i <= s,
                r_run == prefix_g(sv, i - 1),
                self.query_walk(phi, 1) == self.query_walk(phi, i as int),
                forall|j: int| 1 <= j < i ==> !self.stop_at(phi, j),
            decreases s - i,
        {
            proof {
                assert(prefix_g(sv, i as int) == prefix_g(sv, i - 1) + sv[i - 1].g);
                assert(prefix_g(sv, i + 1) == prefix_g(sv, i as int) + sv[i as int].g);
                lemma_prefix_g_monotone(sv, i + 1, s as int);
            }
            r_run = r_run + self.samples[i - 1].g;
            let cur = self.samples[i];
            let lhs: u128 = r_run as u128 + cur.g as u128 + cur.delta as u128;
            proof {
                assert(2 * (phi.den as u128) as int * (lhs as int) <= u128::MAX as int)
                    by (nonlinear_arith)
                    requires
                        phi.den <= 0x4000_0000u64,
                        lhs <= 0xffff_ffff_ffff_ffff_0000_0000u128,
                ;
            }
            if 2 * (phi.den as u128) * lhs > rhs {
                proof {
                    assert(self.stop_at(phi, i as int));
                    lemma_prefix_g_nonneg(sv, i - 1);
                    if phi.num == 0 {
                        if i > 1 {
                            self.lemma_stop_at_one_when_zero(phi);
                        }
                        assert(prefix_g(sv, 1) == prefix_g(sv, 0) + sv[0].g);
                    }
                    if phi.num == phi.den && (forall|k: int|
                        0 <= k < sv.len() ==> (#[trigger] sv[k]).delta == 0) {
                        self.lemma_walk_full_no_stop(phi, i as int);
                    }
                    assert(sv[i - 1].v == self.samples@[i - 1].v);
                }
                return Some((r_run, self.samples[i - 1].v));
            }
            proof {
                assert(!self.stop_at(phi, i as int));
            }
            i = i + 1;
        }
        proof {
            lemma_prefix_g_at_least_index(sv, s as int);
            if phi.num == 0 && s >= 2 {
                self.lemma_stop_at_one_when_zero(phi);
            }
            if s == 1 {
                assert(prefix_g(sv, 1) == prefix_g(sv, 0) + sv[0].g);
            }
        }
        Some((s, self.samples[s - 1].v))
    }

    /// The ordering invariant: after any sequence of operations the samples
    /// are non-decreasing in their value.
    pub proof fn lemma_samples_sorted(&self)
        requires
            self.well_formed(),
        ensures
            forall|i: int, j: int|
                0 <= i <= j < self.samples@.len() ==> (#[trigger] self.samples@[i]).v
                    <= (#[trigger] self.samples@[j]).v,
    {
    }

    /// The rank-error invariant: every entry past the first fits, together
    /// with its rank-error allowance, under the allowance function taken at
    /// the entry's inclusive rank.  (Compression can push an entry up to its
    /// inclusive rank, so the bound is stated there rather than at the
    /// exclusive rank of the entry.)
    pub proof fn lemma_rank_error_invariant(&self)
        requires
            self.well_formed(),
        ensures
            forall|i: int|
                1 <= i < self.samples@.len() ==> (#[trigger] self.samples@[i]).g
                    + self.samples@[i].delta <= allowance(
                    self.error,
                    prefix_g(self.samples@, i + 1),
                ),
    {
    }

    /// The retained samples never outnumber the inserted values: every
    /// entry carries a gap of at least one and the gaps add up to the count.
    pub proof fn lemma_sample_count_bounded(&self)
        requires
            self.well_formed(),
        ensures
            self.samples@.len() <= self.n,
    {
        lemma_prefix_g_at_least_index(self.samples@, self.samples@.len() as int);
    }

    /// The first retained sample is the least value ever placed, and the
    /// last retained sample is the greatest.
    pub proof fn lemma_endpoint_samples(&self)
        requires
            self.well_formed(),
            self.samples@.len() > 0,
        ensures
            self.inserted@.contains(self.samples@[0].v),
            self.inserted@.contains(self.samples@[self.samples@.len() - 1].v),
            forall|k: int|
                0 <= k < self.inserted@.len() ==> self.samples@[0].v
                    <= #[trigger] self.inserted@[k],
            forall|k: int|
                0 <= k < self.inserted@.len() ==> #[trigger] self.inserted@[k]
                    <= self.samples@[self.samples@.len() - 1].v,
    {
    }
}

} // verus!
