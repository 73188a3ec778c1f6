//! Rank arithmetic: cumulative gaps, the allowance function, wrapping sums
//! of stream values, and the spec-level model of the positioned-insertion
//! and compression passes.

use vstd::prelude::*;
use vstd::arithmetic::div_mod::lemma_div_is_ordered;
use vstd::arithmetic::mul::lemma_mul_inequality;
use crate::entry::Entry;
use crate::fraction::Fraction;

verus! {

/// The sum of the gaps of the first `i` entries: the rank implied for the
/// entry at index `i` by the entries before it.
pub open spec fn prefix_g(s: Seq<Entry>, i: int) -> int
    decreases i,
{
    if i <= 0 {
        0
    } else {
        prefix_g(s, i - 1) + s[i - 1].g
    }
}

/// The allowance function: the ceiling `max(1, floor(2 * eps * r))` that the
/// rank-error invariant grants at rank `r` under tolerance `eps`.
pub open spec fn allowance(eps: Fraction, r: int) -> int {
    let q = (2 * eps.num * r) / (eps.den as int);
    if q < 1 {
        1
    } else {
        q
    }
}

/// The allowance is always at least one.
pub proof fn lemma_allowance_at_least_one(eps: Fraction, r: int)
    ensures
        allowance(eps, r) >= 1,
{
}

/// The allowance grows with the rank.
pub proof fn lemma_allowance_monotone(eps: Fraction, r1: int, r2: int)
    requires
        eps.valid_error(),
        0 <= r1 <= r2,
    ensures
        allowance(eps, r1) <= allowance(eps, r2),
{
    lemma_mul_inequality(r1, r2, 2 * eps.num);
    assert(2 * eps.num * r1 == r1 * (2 * eps.num)) by (nonlinear_arith);
    assert(2 * eps.num * r2 == r2 * (2 * eps.num)) by (nonlinear_arith);
    lemma_div_is_ordered(2 * eps.num * r1, 2 * eps.num * r2, eps.den as int);
}

/// Since the tolerance is below one, the allowance at rank `r` never exceeds
/// twice `r` (or one, whichever is larger).
pub proof fn lemma_allowance_le_double(eps: Fraction, r: int)
    requires
        eps.valid_error(),
        0 <= r,
    ensures
        allowance(eps, r) <= if 2 * r < 1 { 1 } else { 2 * r },
{
    let d = eps.den as int;
    assert(2 * eps.num * r <= 2 * d * r) by (nonlinear_arith)
        requires
            eps.num < d,
            0 <= r,
    ;
    lemma_div_is_ordered(2 * eps.num * r, 2 * d * r, d);
    assert((2 * d * r) / d == 2 * r) by (nonlinear_arith)
        requires
            d >= 1,
    ;
}

/// At rank one the allowance is exactly one.
pub proof fn lemma_allowance_at_one(eps: Fraction)
    requires
        eps.valid_error(),
    ensures
        allowance(eps, 1) == 1,
{
    let d = eps.den as int;
    assert(2 * eps.num * 1 == 2 * eps.num);
    assert((2 * (eps.num as int)) / d <= 1) by (nonlinear_arith)
        requires
            eps.num < d,
            d >= 1,
    ;
}

/// Cumulative gaps grow with the index.
pub proof fn lemma_prefix_g_monotone(s: Seq<Entry>, i: int, j: int)
    requires
        i <= j,
    ensures
        prefix_g(s, i) <= prefix_g(s, j),
    decreases j - i,
{
    if i < j {
        lemma_prefix_g_monotone(s, i, j - 1);
    }
}

/// Cumulative gaps are never negative.
pub proof fn lemma_prefix_g_nonneg(s: Seq<Entry>, i: int)
    requires
        0 <= i,
    ensures
        prefix_g(s, i) >= 0,
{
    lemma_prefix_g_monotone(s, 0, i);
}

/// When every gap below `i` is at least one, the cumulative gap at `i` is at
/// least `i`.
pub proof fn lemma_prefix_g_at_least_index(s: Seq<Entry>, i: int)
    requires
        0 <= i,
        forall|k: int| 0 <= k < i ==> (#[trigger] s[k]).g >= 1,
    ensures
        prefix_g(s, i) >= i,
    decreases i,
{
    if i > 0 {
        lemma_prefix_g_at_least_index(s, i - 1);
    }
}

/// How cumulative gaps change when an entry is inserted at `idx`.
pub proof fn lemma_prefix_g_insert(s: Seq<Entry>, idx: int, e: Entry, j: int)
    requires
        0 <= idx <= s.len(),
        0 <= j <= s.len() + 1,
    ensures
        j <= idx ==> prefix_g(s.insert(idx, e), j) == prefix_g(s, j),
        j > idx ==> prefix_g(s.insert(idx, e), j) == prefix_g(s, j - 1) + e.g,
    decreases j,
{
    if j > 0 {
        lemma_prefix_g_insert(s, idx, e, j - 1);
    }
}

/// How cumulative gaps change when the entry at `idx` is replaced.
pub proof fn lemma_prefix_g_update(s: Seq<Entry>, idx: int, e: Entry, j: int)
    requires
        0 <= idx < s.len(),
        0 <= j <= s.len(),
    ensures
        j <= idx ==> prefix_g(s.update(idx, e), j) == prefix_g(s, j),
        j > idx ==> prefix_g(s.update(idx, e), j) == prefix_g(s, j) - s[idx].g + e.g,
    decreases j,
{
    if j > 0 {
        lemma_prefix_g_update(s, idx, e, j - 1);
    }
}

/// How cumulative gaps change when the entry at `idx` is removed.
pub proof fn lemma_prefix_g_remove(s: Seq<Entry>, idx: int, j: int)
    requires
        0 <= idx < s.len(),
        0 <= j <= s.len() - 1,
    ensures
        j <= idx ==> prefix_g(s.remove(idx), j) == prefix_g(s, j),
        j > idx ==> prefix_g(s.remove(idx), j) == prefix_g(s, j + 1) - s[idx].g,
    decreases j,
{
    if j > 0 {
        lemma_prefix_g_remove(s, idx, j - 1);
        if j - 1 == idx {
            assert(prefix_g(s, j + 1) == prefix_g(s, j) + s[j].g);
            assert(prefix_g(s, j) == prefix_g(s, j - 1) + s[j - 1].g);
        }
    }
}

/// The index the insertion scan stops at, starting from `i`: the first
/// position at or past `i` whose value is not strictly less than `v`, or the
/// length when every value is less.  A value equal to an existing sample is
/// therefore placed before the first equal sample.
pub open spec fn scan_from(s: Seq<Entry>, v: i64, i: int) -> int
    recommends
        0 <= i <= s.len(),
    decreases s.len() - i,
{
    if i >= s.len() {
        i
    } else if s[i].v < v {
        scan_from(s, v, i + 1)
    } else {
        i
    }
}

/// Where positioned insertion places `v`: the number of leading samples
/// strictly below it.
pub open spec fn insert_position(s: Seq<Entry>, v: i64) -> int {
    scan_from(s, v, 0)
}

/// The entry that positioned insertion creates for `v`: gap one, and a
/// rank-error allowance of zero at the endpoints or `f(r) - 1` at the
/// running rank `r` of the insertion point otherwise.
pub open spec fn placed_entry(s: Seq<Entry>, eps: Fraction, v: i64) -> Entry {
    let idx = insert_position(s, v);
    let d = if idx == 0 || idx == s.len() {
        0int
    } else {
        allowance(eps, prefix_g(s, idx)) - 1
    };
    Entry { v, g: 1, delta: d as usize }
}

/// The sample sequence after positioned insertion of `v`, before any
/// compression.
pub open spec fn placed_samples(s: Seq<Entry>, eps: Fraction, v: i64) -> Seq<Entry> {
    s.insert(insert_position(s, v), placed_entry(s, eps, v))
}

/// One state of the compression scan: at index `i`, with upper bound `s_mx`
/// and running rank `r`, either merge the entry at `i` into its right
/// neighbour (keeping the right value and allowance, absorbing the left
/// gap) or advance, until `i` reaches the bound.
pub open spec fn compress_step(s: Seq<Entry>, eps: Fraction, i: int, s_mx: int, r: int) -> Seq<
    Entry,
>
    recommends
        0 <= i,
        s_mx < s.len(),
    decreases s_mx - i,
{
    if i >= s_mx {
        s
    } else {
        let cur = s[i];
        let nxt = s[i + 1];
        if cur.g + nxt.g + nxt.delta <= allowance(eps, r) {
            let merged = Entry { v: nxt.v, g: (cur.g + nxt.g) as usize, delta: nxt.delta };
            compress_step(s.update(i, merged).remove(i + 1), eps, i, s_mx - 1, r + 1)
        } else {
            compress_step(s, eps, i + 1, s_mx, r + 1)
        }
    }
}

/// The whole compression pass of a sample sequence: a no-op below three
/// samples, otherwise the left-to-right merge scan started at the first
/// entry with running rank one.
pub open spec fn compress_pass(s: Seq<Entry>, eps: Fraction) -> Seq<Entry> {
    if s.len() < 3 {
        s
    } else {
        compress_step(s, eps, 0, s.len() - 1, 1)
    }
}

/// One positioned insertion as the summary performs it: the placed sequence,
/// compressed when the schedule counter wraps, paired with the counter's new
/// value.  An empty sequence takes the value without touching the counter.
pub open spec fn insert_outcome(s: Seq<Entry>, ins: int, thr: int, eps: Fraction, v: i64) -> (
    Seq<Entry>,
    int,
) {
    if s.len() == 0 {
        (placed_samples(s, eps, v), ins)
    } else {
        let ins2 = (ins + 1) % thr;
        let t = placed_samples(s, eps, v);
        if ins2 == 0 {
            (compress_pass(t, eps), ins2)
        } else {
            (t, ins2)
        }
    }
}

/// Re-inserting a sequence of values one by one, left to right: what merging
/// another summary does to the samples and the schedule counter.
pub open spec fn reinserted(s: Seq<Entry>, ins: int, thr: int, eps: Fraction, vals: Seq<i64>) -> (
    Seq<Entry>,
    int,
)
    decreases vals.len(),
{
    if vals.len() == 0 {
        (s, ins)
    } else {
        let o = insert_outcome(s, ins, thr, eps, vals[0]);
        reinserted(o.0, o.1, thr, eps, vals.drop_first())
    }
}

/// Addition on the element type with its native wrap-around semantics.
pub open spec fn wadd(a: i64, b: i64) -> i64 {
    vstd::wrapping::i64_specs::wrapping_add(a, b)
}

/// The wrap-around sum of a sequence of stream values, folded left to right.
pub open spec fn wrap_sum(s: Seq<i64>) -> i64
    decreases s.len(),
{
    if s.len() == 0 {
        0
    } else {
        wadd(wrap_sum(s.drop_last()), s.last())
    }
}

/// Appending one value extends the wrap-around sum by one wrap-around
/// addition.
pub proof fn lemma_wrap_sum_push(s: Seq<i64>, v: i64)
    ensures
        wrap_sum(s.push(v)) == wadd(wrap_sum(s), v),
{
    assert(s.push(v).drop_last() =~= s);
}

/// Wrap-around addition is associative.
pub proof fn lemma_wadd_assoc(a: i64, b: i64, c: i64)
    ensures
        wadd(wadd(a, b), c) == wadd(a, wadd(b, c)),
{
}

/// The wrap-around sum of a concatenation is the wrap-around addition of the
/// two sums.
pub proof fn lemma_wrap_sum_concat(a: Seq<i64>, b: Seq<i64>)
    ensures
        wrap_sum(a + b) == wadd(wrap_sum(a), wrap_sum(b)),
    decreases b.len(),
{
    if b.len() == 0 {
        assert(a + b =~= a);
    } else {
        lemma_wrap_sum_concat(a, b.drop_last());
        assert((a + b).drop_last() =~= a + b.drop_last());
        assert((a + b).len() > 0);
        assert((a + b).last() == b.last());
        lemma_wadd_assoc(wrap_sum(a), wrap_sum(b.drop_last()), b.last());
    }
}

} // verus!
