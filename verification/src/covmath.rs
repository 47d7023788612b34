//! Sums over coverage rows: absolute mass and prefix sums, with the lemmas
//! the rasterizer's overflow accounting rests on.

use vstd::prelude::*;

verus! {

pub open spec fn iabs(v: int) -> int {
    if v < 0 {
        -v
    } else {
        v
    }
}

pub open spec fn spec_imin(a: int, b: int) -> int {
    if a <= b {
        a
    } else {
        b
    }
}

pub open spec fn spec_imax(a: int, b: int) -> int {
    if a >= b {
        a
    } else {
        b
    }
}

/// Sum of the absolute values of a sequence.
pub open spec fn abs_sum(s: Seq<i64>) -> int
    decreases s.len(),
{
    if s.len() == 0 {
        0
    } else {
        abs_sum(s.drop_last()) + iabs(s.last() as int)
    }
}

/// Sum of the first `k` entries (signed).
pub open spec fn prefix_sum(s: Seq<i64>, k: int) -> int
    decreases k,
{
    if k <= 0 {
        0
    } else {
        prefix_sum(s, k - 1) + s[k - 1]
    }
}

pub proof fn lemma_abs_sum_nonneg(s: Seq<i64>)
    ensures
        0 <= abs_sum(s),
    decreases s.len(),
{
    if s.len() > 0 {
        lemma_abs_sum_nonneg(s.drop_last());
    }
}

/// Replacing one entry changes the absolute mass by the difference of the
/// absolute values.
pub proof fn lemma_abs_sum_update(s: Seq<i64>, i: int, v: i64)
    requires
        0 <= i < s.len(),
    ensures
        abs_sum(s.update(i, v)) == abs_sum(s) - iabs(s[i] as int) + iabs(v as int),
    decreases s.len(),
{
    if i == s.len() - 1 {
        assert(s.update(i, v).drop_last() =~= s.drop_last());
        assert(s.update(i, v).last() == v);
    } else {
        assert(s.update(i, v).drop_last() =~= s.drop_last().update(i, v));
        assert(s.update(i, v).last() == s.last());
        lemma_abs_sum_update(s.drop_last(), i, v);
    }
}

/// Any entry is bounded by the absolute mass.
pub proof fn lemma_abs_sum_entry(s: Seq<i64>, i: int)
    requires
        0 <= i < s.len(),
    ensures
        iabs(s[i] as int) <= abs_sum(s),
    decreases s.len(),
{
    lemma_abs_sum_nonneg(s.drop_last());
    if i < s.len() - 1 {
        lemma_abs_sum_entry(s.drop_last(), i);
    }
}

pub proof fn lemma_abs_sum_take(s: Seq<i64>, k: int)
    requires
        0 <= k <= s.len(),
    ensures
        abs_sum(s.take(k)) <= abs_sum(s),
    decreases s.len(),
{
    if k == s.len() {
        assert(s.take(k) =~= s);
    } else if s.len() > 0 {
        assert(s.drop_last().take(k) =~= s.take(k));
        lemma_abs_sum_take(s.drop_last(), k);
    }
}

/// A prefix sum never exceeds the absolute mass in magnitude.
pub proof fn lemma_prefix_sum_abs(s: Seq<i64>, k: int)
    requires
        0 <= k <= s.len(),
    ensures
        iabs(prefix_sum(s, k)) <= abs_sum(s),
    decreases k,
{
    if k == 0 {
        lemma_abs_sum_nonneg(s);
    } else {
        lemma_prefix_sum_abs_helper(s, k);
        lemma_abs_sum_take(s, k);
    }
}

proof fn lemma_prefix_sum_abs_helper(s: Seq<i64>, k: int)
    requires
        0 <= k <= s.len(),
    ensures
        iabs(prefix_sum(s, k)) <= abs_sum(s.take(k)),
    decreases k,
{
    if k > 0 {
        lemma_prefix_sum_abs_helper(s, k - 1);
        assert(s.take(k).drop_last() =~= s.take(k - 1));
        assert(s.take(k).last() == s[k - 1]);
    }
}

/// Prefix sums only see the entries below `k`: updating at or above `k`
/// leaves them alone.
pub proof fn lemma_prefix_sum_update_above(s: Seq<i64>, k: int, i: int, v: i64)
    requires
        0 <= k <= i < s.len(),
    ensures
        prefix_sum(s.update(i, v), k) == prefix_sum(s, k),
    decreases k,
{
    if k > 0 {
        lemma_prefix_sum_update_above(s, k - 1, i, v);
    }
}

} // verus!
