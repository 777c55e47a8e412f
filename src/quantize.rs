//! Bounded-capacity proportional quantizer: counts in, lit positions out.
use vstd::arithmetic::div_mod::{lemma_div_is_ordered, lemma_multiply_divide_lt};
use vstd::prelude::*;

verus! {

/// Number of lit positions one column can hold.
pub const CAPACITY: u64 = 16;

/// Largest total that `usize::MAX` magnitudes of at most `u32::MAX` can reach.
const TOTAL_BOUND: u128 = 0xFFFF_FFFF_FFFF_FFFF * 0xFFFF_FFFF;

/// Sum of the input magnitudes.
pub open spec fn total_of(vals: Seq<u32>) -> int
    decreases vals.len(),
{
    if vals.len() == 0 {
        0
    } else {
        total_of(vals.drop_last()) + vals.last()
    }
}

/// Sum of a unit distribution.
pub open spec fn sum_units(u: Seq<int>) -> int
    decreases u.len(),
{
    if u.len() == 0 {
        0
    } else {
        sum_units(u.drop_last()) + u.last()
    }
}

/// A sequence of machine units seen as mathematical integers.
pub open spec fn units_of(s: Seq<u64>) -> Seq<int> {
    s.map_values(|x: u64| x as int)
}

/// `CAPACITY * v / t` rounded half away from zero, for `v >= 0` and `t > 0`.
pub open spec fn rounded_share(v: int, t: int) -> int {
    (2 * CAPACITY * v + t) / (2 * t)
}

/// The raw share `CAPACITY * v / t` is strictly above one and a half.
pub open spec fn above_threshold(v: int, t: int) -> bool {
    2 * CAPACITY * v > 3 * t
}

/// Each magnitude's share, rounded (only meaningful for a positive total).
pub open spec fn rounded_units(vals: Seq<u32>) -> Seq<int> {
    Seq::new(vals.len(), |i: int| rounded_share(vals[i] as int, total_of(vals)))
}

/// Among the first `n` magnitudes whose raw share is above one and a half,
/// the index of the smallest (the first one on ties), or -1 if there is none.
/// The raw shares share one denominator, so they order as the magnitudes do.
pub open spec fn least_candidate(vals: Seq<u32>, n: int) -> int
    decreases n,
{
    if n <= 0 {
        -1
    } else {
        let m = least_candidate(vals, n - 1);
        if above_threshold(vals[n - 1] as int, total_of(vals)) && (m < 0 || vals[n - 1] < vals[m]) {
            n - 1
        } else {
            m
        }
    }
}

/// Index of the first largest entry among the first `n` entries of `u`.
pub open spec fn first_largest(u: Seq<int>, n: int) -> int
    decreases n,
{
    if n <= 1 {
        0
    } else {
        let m = first_largest(u, n - 1);
        if u[n - 1] > u[m] {
            n - 1
        } else {
            m
        }
    }
}

/// The rounded shares after the single-unit correction: when they overflow the
/// capacity, the smallest share above one and a half gives up one unit.
pub open spec fn corrected_units(vals: Seq<u32>) -> Seq<int> {
    let u = rounded_units(vals);
    let j = least_candidate(vals, vals.len() as int);
    if sum_units(u) > CAPACITY && j >= 0 {
        u.update(j, u[j] - 1)
    } else {
        u
    }
}

/// Takes `k` more units away, one at a time, each from the first largest entry.
/// This settles what the single correction leaves over the capacity: an
/// overflow of more than one, or one with no share above one and a half.
pub open spec fn trimmed(u: Seq<int>, k: int) -> Seq<int>
    decreases k,
{
    if k <= 0 || u.len() == 0 {
        u
    } else {
        let j = first_largest(u, u.len() as int);
        trimmed(u.update(j, u[j] - 1), k - 1)
    }
}

/// The unit distribution of a sequence of magnitudes.
pub open spec fn quantized(vals: Seq<u32>) -> Seq<int> {
    if total_of(vals) == 0 {
        Seq::new(vals.len(), |i: int| 0)
    } else {
        let c = corrected_units(vals);
        trimmed(c, sum_units(c) - CAPACITY)
    }
}

proof fn lemma_total_prefix(vals: Seq<u32>, i: int)
    requires
        0 <= i < vals.len(),
    ensures
        total_of(vals.subrange(0, i + 1)) == total_of(vals.subrange(0, i)) + vals[i],
{
    assert(vals.subrange(0, i + 1).drop_last() =~= vals.subrange(0, i));
}

proof fn lemma_element_le_total(vals: Seq<u32>, i: int)
    requires
        0 <= i < vals.len(),
    ensures
        vals[i] <= total_of(vals),
        total_of(vals) >= 0,
    decreases vals.len(),
{
    if i < vals.len() - 1 {
        lemma_element_le_total(vals.drop_last(), i);
    } else {
        lemma_total_nonneg(vals.drop_last());
    }
}

proof fn lemma_total_nonneg(vals: Seq<u32>)
    ensures
        total_of(vals) >= 0,
    decreases vals.len(),
{
    if vals.len() > 0 {
        lemma_total_nonneg(vals.drop_last());
    }
}

proof fn lemma_sum_push(u: Seq<int>, x: int)
    ensures
        sum_units(u.push(x)) == sum_units(u) + x,
{
    assert(u.push(x).drop_last() =~= u);
}

proof fn lemma_sum_update(u: Seq<int>, j: int, x: int)
    requires
        0 <= j < u.len(),
    ensures
        sum_units(u.update(j, x)) == sum_units(u) - u[j] + x,
    decreases u.len(),
{
    if j < u.len() - 1 {
        assert(u.update(j, x).drop_last() =~= u.drop_last().update(j, x));
        lemma_sum_update(u.drop_last(), j, x);
    } else {
        assert(u.update(j, x).drop_last() =~= u.drop_last());
    }
}

proof fn lemma_sum_nonpos(u: Seq<int>)
    requires
        forall|i: int| 0 <= i < u.len() ==> #[trigger] u[i] <= 0,
    ensures
        sum_units(u) <= 0,
    decreases u.len(),
{
    if u.len() > 0 {
        lemma_sum_nonpos(u.drop_last());
    }
}

proof fn lemma_first_largest(u: Seq<int>, n: int)
    requires
        1 <= n <= u.len(),
    ensures
        0 <= first_largest(u, n) < n,
        forall|i: int| 0 <= i < n ==> #[trigger] u[i] <= u[first_largest(u, n)],
    decreases n,
{
    if n > 1 {
        lemma_first_largest(u, n - 1);
    }
}

proof fn lemma_least_candidate(vals: Seq<u32>, n: int)
    requires
        0 <= n <= vals.len(),
    ensures
        -1 <= least_candidate(vals, n) < n,
        least_candidate(vals, n) >= 0 ==> above_threshold(
            vals[least_candidate(vals, n)] as int,
            total_of(vals),
        ),
    decreases n,
{
    if n > 0 {
        lemma_least_candidate(vals, n - 1);
    }
}

proof fn lemma_trimmed_len(u: Seq<int>, k: int)
    ensures
        trimmed(u, k).len() == u.len(),
    decreases k,
{
    if k > 0 {
        let j = first_largest(u, u.len() as int);
        if u.len() > 0 {
            lemma_first_largest(u, u.len() as int);
        }
        lemma_trimmed_len(u.update(j, u[j] - 1), k - 1);
    }
}

proof fn lemma_trimmed_sum(u: Seq<int>, k: int)
    ensures
        u.len() > 0 && k >= 0 ==> sum_units(trimmed(u, k)) == sum_units(u) - k,
    decreases k,
{
    if k > 0 && u.len() > 0 {
        let j = first_largest(u, u.len() as int);
        lemma_first_largest(u, u.len() as int);
        lemma_sum_update(u, j, u[j] - 1);
        lemma_trimmed_sum(u.update(j, u[j] - 1), k - 1);
    }
}

/// The distribution has one entry per magnitude.
pub proof fn lemma_quantized_len(vals: Seq<u32>)
    ensures
        quantized(vals).len() == vals.len(),
{
    if total_of(vals) != 0 {
        lemma_least_candidate(vals, vals.len() as int);
        assert(corrected_units(vals).len() == vals.len());
        lemma_trimmed_len(corrected_units(vals), sum_units(corrected_units(vals)) - CAPACITY);
    }
}

/// The distribution never lights more than `CAPACITY` positions.
pub proof fn lemma_quantized_within_capacity(vals: Seq<u32>)
    ensures
        sum_units(quantized(vals)) <= CAPACITY,
{
    let c = corrected_units(vals);
    if total_of(vals) == 0 {
        lemma_sum_nonpos(quantized(vals));
    } else if sum_units(c) > CAPACITY {
        if vals.len() == 0 {
            assert(c.len() == 0);
        }
        lemma_trimmed_sum(c, sum_units(c) - CAPACITY);
    }
}

/// Magnitudes that sum to zero give a distribution of zeros.
pub proof fn lemma_quantized_zero_total(vals: Seq<u32>)
    requires
        total_of(vals) == 0,
    ensures
        forall|i: int| 0 <= i < vals.len() ==> #[trigger] quantized(vals)[i] == 0,
{
}

/// A single positive magnitude fills the whole column.
pub proof fn lemma_quantized_single(vals: Seq<u32>)
    requires
        vals.len() == 1,
        vals[0] > 0,
    ensures
        quantized(vals) == seq![CAPACITY as int],
{
    assert(vals.drop_last().len() == 0);
    assert(total_of(vals.drop_last()) == 0);
    let t = total_of(vals);
    assert(t == vals[0]);
    assert((2 * CAPACITY * t + t) / (2 * t) == CAPACITY) by (nonlinear_arith)
        requires
            t > 0,
    ;
    let u = rounded_units(vals);
    assert(u =~= seq![CAPACITY as int]);
    assert(u.drop_last().len() == 0);
    assert(sum_units(u.drop_last()) == 0);
    assert(sum_units(u) == CAPACITY);
    assert(quantized(vals) =~= seq![CAPACITY as int]);
}

/// Maps each magnitude to its share of `CAPACITY` lit positions.
///
/// A zero total gives all zeros. Otherwise each share is rounded half away
/// from zero; if that overflows the capacity, the smallest share above one and
/// a half (the first on ties) gives up one unit, and any overflow still left
/// is taken one unit at a time from the first largest entry.
pub fn vector_of_leds(vals: Vec<u32>) -> (r: Vec<u64>)
    ensures
        units_of(r@) == quantized(vals@),
{
    let n = vals.len();
    let mut total: u128 = 0;
    let mut i: usize = 0;
    while i < n
        invariant
            n == vals.len(),
            i <= n,
            total == total_of(vals@.subrange(0, i as int)),
            total <= i * (u32::MAX as int),
        decreases n - i,
    {
        proof {
            lemma_total_prefix(vals@, i as int);
            assert((i + 1) * (u32::MAX as int) == i * (u32::MAX as int) + u32::MAX) by (nonlinear_arith);
            assert(i * (u32::MAX as int) <= u64::MAX * (u32::MAX as int)) by (nonlinear_arith)
                requires
                    i <= u64::MAX,
            ;
        }
        total = total + vals[i] as u128;
        i = i + 1;
    }
    assert(vals@.subrange(0, n as int) =~= vals@);
    assert(total <= TOTAL_BOUND) by (nonlinear_arith)
        requires
            total <= n * (u32::MAX as int),
            n <= u64::MAX,
    ;
    let mut units: Vec<u64> = Vec::new();
    if total == 0 {
        let mut k: usize = 0;
        while k < n
            invariant
                n == vals.len(),
                k <= n,
                units_of(units@) =~= Seq::new(k as nat, |i: int| 0int),
            decreases n - k,
        {
            let ghost prev = units@;
            units.push(0);
            assert(units@ =~= prev.push(0));
            assert(units_of(units@) =~= units_of(prev).push(0));
            k = k + 1;
        }
        return units;
    }
    proof {
        lemma_total_nonneg(vals@);
    }
    let mut sum: u128 = 0;
    let mut k: usize = 0;
    while k < n
        invariant
            n == vals.len(),
            k <= n,
            total == total_of(vals@),
            total > 0,
            total <= TOTAL_BOUND,
            units_of(units@) =~= rounded_units(vals@).subrange(0, k as int),
            sum == sum_units(units_of(units@)),
            sum <= CAPACITY * k,
        decreases n - k,
    {
        let v = vals[k] as u128;
        proof {
            lemma_element_le_total(vals@, k as int);
            assert(2 * CAPACITY * v + total < (2 * total) * 17) by (nonlinear_arith)
                requires
                    v <= total,
                    total > 0,
            ;
            lemma_multiply_divide_lt(2 * CAPACITY * v + total, 2 * total, 17);
            lemma_sum_push(units_of(units@), (2 * CAPACITY * v + total) / (2 * total));
        }
        let q = (2 * CAPACITY as u128 * v + total) / (2 * total);
        let ghost prev = units@;
        units.push(q as u64);
        assert(units_of(units@) =~= units_of(prev).push(q as int));
        sum = sum + q;
        k = k + 1;
    }
    assert(rounded_units(vals@).subrange(0, n as int) =~= rounded_units(vals@));
    if sum <= CAPACITY as u128 {
        return units;
    }
    let ghost rounded = units_of(units@);
    let mut best: usize = 0;
    let mut found = false;
    let mut k: usize = 0;
    while k < n
        invariant
            n == vals.len(),
            k <= n,
            total == total_of(vals@),
            total <= TOTAL_BOUND,
            found ==> best == least_candidate(vals@, k as int),
            found ==> best < k,
            !found ==> least_candidate(vals@, k as int) == -1,
        decreases n - k,
    {
        proof {
            lemma_least_candidate(vals@, k as int);
        }
        let v = vals[k] as u128;
        assert(2 * CAPACITY * v <= 2 * CAPACITY * (u32::MAX as int)) by (nonlinear_arith)
            requires
                v <= u32::MAX,
        ;
        if 2 * (CAPACITY as u128) * v > 3 * total && (!found || vals[k] < vals[best]) {
            best = k;
            found = true;
        }
        k = k + 1;
    }
    if found {
        proof {
            lemma_least_candidate(vals@, n as int);
            let v = vals@[best as int] as int;
            assert(2 * CAPACITY * v + total >= (2 * total) * 2) by (nonlinear_arith)
                requires
                    2 * CAPACITY * v > 3 * total,
            ;
            lemma_div_is_ordered((2 * total) * 2, 2 * CAPACITY * v + total, 2 * total);
            assert(((2 * total) * 2) / (2 * total) == 2) by (nonlinear_arith)
                requires
                    total > 0,
            ;
            lemma_sum_update(rounded, best as int, rounded[best as int] - 1);
        }
        let x = units[best] - 1;
        units.set(best, x);
        sum = sum - 1;
        assert(units_of(units@) =~= rounded.update(best as int, rounded[best as int] - 1));
    }
    let ghost target = quantized(vals@);
    while sum > CAPACITY as u128
        invariant
            n == vals.len(),
            units@.len() == n,
            sum == sum_units(units_of(units@)),
            trimmed(units_of(units@), sum - CAPACITY) == target,
        decreases sum,
    {
        let ghost u = units_of(units@);
        let mut m: usize = 0;
        let mut k: usize = 1;
        proof {
            if n == 0 {
                assert(u =~= Seq::<int>::empty());
            }
        }
        while k < n
            invariant
                n == units@.len(),
                1 <= k <= n,
                u == units_of(units@),
                m == first_largest(u, k as int),
                m < k,
            decreases n - k,
        {
            if units[k] > units[m] {
                m = k;
            }
            k = k + 1;
        }
        proof {
            lemma_first_largest(u, n as int);
            if u[m as int] <= 0 {
                lemma_sum_nonpos(u);
            }
            lemma_sum_update(u, m as int, u[m as int] - 1);
        }
        let x = units[m] - 1;
        units.set(m, x);
        sum = sum - 1;
        assert(units_of(units@) =~= u.update(m as int, u[m as int] - 1));
    }
    units
}

} // verus!
