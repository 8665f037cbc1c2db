//! Maximum-subarray searches over `i64` sequences.
//!
//! Sums accumulate in the element type itself: every contiguous range the
//! caller's window admits must have a sum representable in `i64`, which the
//! `sums_fit` precondition states and `lemma_bounded_sums_fit` helps
//! discharge.

use vstd::prelude::*;

use crate::number::Number;

verus! {

/// The sum of the elements of `s` at positions `i..j` (half-open).
pub open spec fn range_sum(s: Seq<i64>, i: int, j: int) -> int
    decreases j - i,
{
    if 0 <= i && i < j && j <= s.len() {
        s[i] + range_sum(s, i + 1, j)
    } else {
        0
    }
}

/// Every contiguous range of `s` that lies inside positions `lo..=hi` has a
/// sum that fits in `i64`.
pub open spec fn sums_fit(s: Seq<i64>, lo: int, hi: int) -> bool {
    forall|a: int, b: int|
        lo <= a <= b <= hi + 1 ==> i64::MIN <= #[trigger] range_sum(s, a, b) <= i64::MAX
}

/// `[l, r]` is a contiguous range inside `lo..=hi` whose element sum is `m`,
/// and no contiguous range inside `lo..=hi` sums to more than `m`.
pub open spec fn is_max_subarray(s: Seq<i64>, lo: int, hi: int, l: int, r: int, m: int) -> bool {
    &&& 0 <= lo <= l <= r <= hi < s.len()
    &&& m == range_sum(s, l, r + 1)
    &&& forall|a: int, b: int| lo <= a < b <= hi + 1 ==> #[trigger] range_sum(s, a, b) <= m
}

/// Splitting a range at any interior point splits its sum.
pub proof fn lemma_range_sum_concat(s: Seq<i64>, i: int, j: int, k: int)
    requires
        0 <= i <= j <= k <= s.len(),
    ensures
        range_sum(s, i, k) == range_sum(s, i, j) + range_sum(s, j, k),
    decreases j - i,
{
    if i < j {
        lemma_range_sum_concat(s, i + 1, j, k);
    }
}

/// Extending a range by one element on the right adds that element's value.
pub proof fn lemma_range_sum_snoc(s: Seq<i64>, i: int, j: int)
    requires
        0 <= i <= j < s.len(),
    ensures
        range_sum(s, i, j + 1) == range_sum(s, i, j) + s[j],
{
    lemma_range_sum_concat(s, i, j, j + 1);
    assert(range_sum(s, j, j + 1) == s[j] + range_sum(s, j + 1, j + 1));
    assert(range_sum(s, j + 1, j + 1) == 0);
}

/// The sum of a range of at most `n` elements, each within `[-bound, bound]`,
/// lies within `[-n * bound, n * bound]`.
proof fn lemma_range_sum_bounded(s: Seq<i64>, a: int, b: int, bound: int)
    requires
        0 <= a <= b <= s.len(),
        0 <= bound,
        forall|q: int| a <= q < b ==> -bound <= #[trigger] s[q] <= bound,
    ensures
        -((b - a) * bound) <= range_sum(s, a, b) <= (b - a) * bound,
    decreases b - a,
{
    if a < b {
        lemma_range_sum_bounded(s, a + 1, b, bound);
        assert((b - a) * bound == bound + (b - a - 1) * bound) by (nonlinear_arith);
    }
}

/// Discharges `sums_fit` for a sequence of elements bounded by `bound` in
/// magnitude, provided `len * bound` itself fits: no contiguous range can
/// then overflow an `i64` sum.
pub proof fn lemma_bounded_sums_fit(s: Seq<i64>, bound: int)
    requires
        0 <= bound,
        forall|q: int| 0 <= q < s.len() ==> -bound <= #[trigger] s[q] <= bound,
        s.len() * bound <= i64::MAX,
    ensures
        sums_fit(s, 0, s.len() - 1),
{
    assert forall|a: int, b: int| 0 <= a <= b <= s.len() implies i64::MIN <= #[trigger] range_sum(
        s,
        a,
        b,
    ) <= i64::MAX by {
        lemma_range_sum_bounded(s, a, b, bound);
        vstd::arithmetic::mul::lemma_mul_inequality(b - a, s.len() as int, bound);
    }
}

/// The maximum subarray sum is unique: any two maximal ranges over the same
/// window carry the same sum. In particular the divide-and-conquer search
/// and Kadane's scan agree on the sum they return for a given array, even
/// where their index ranges differ on ties.
pub proof fn lemma_max_subarray_sum_unique(
    s: Seq<i64>,
    lo: int,
    hi: int,
    l1: int,
    r1: int,
    m1: int,
    l2: int,
    r2: int,
    m2: int,
)
    requires
        is_max_subarray(s, lo, hi, l1, r1, m1),
        is_max_subarray(s, lo, hi, l2, r2, m2),
    ensures
        m1 == m2,
{
    assert(range_sum(s, l1, r1 + 1) <= m2);
    assert(range_sum(s, l2, r2 + 1) <= m1);
}

/// A one-element window holds exactly one subarray: the maximum subarray of
/// the window `[i, i]` is `(i, i, s[i])`.
pub proof fn lemma_single_element_window(s: Seq<i64>, i: int, l: int, r: int, m: int)
    requires
        is_max_subarray(s, i, i, l, r, m),
    ensures
        l == i && r == i && m == s[i],
{
    assert(range_sum(s, i, i + 1) == s[i] + range_sum(s, i + 1, i + 1));
    assert(range_sum(s, i + 1, i + 1) == 0);
}

/// Finds the maximum subarray that crosses the midpoint of the given range.
///
/// Scans right-to-left from `mid` down to `low` for the maximum-sum prefix
/// ending at `mid`, and left-to-right from `mid + 1` up to `high` for the
/// maximum-sum suffix starting at `mid + 1`; the two are concatenated, since
/// a range crossing the midpoint takes at least one element from each side.
fn find_cross_subarray(arr: &Vec<i64>, low: usize, mid: usize, high: usize) -> (r: (
    usize,
    usize,
    i64,
))
    requires
        low <= mid < high < arr@.len(),
        sums_fit(arr@, low as int, high as int),
    ensures
        low <= r.0 <= mid && mid < r.1 <= high,
        r.2 == range_sum(arr@, r.0 as int, r.1 as int + 1),
        forall|a: int, b: int|
            low <= a <= mid && mid + 2 <= b <= high + 1 ==> #[trigger] range_sum(arr@, a, b)
                <= r.2,
{
    let n = arr.len();
    let mut left_sum: i64 = Number::min();
    let mut sum: i64 = Number::zero();
    let mut max_left: usize = mid;
    let mut i: usize = mid + 1;
    while i > low
        invariant
            low <= i <= mid + 1,
            low <= mid < high < arr@.len(),
            sums_fit(arr@, low as int, high as int),
            sum == range_sum(arr@, i as int, mid + 1),
            i == mid + 1 ==> left_sum == i64::MIN && max_left == mid,
            i <= mid ==> i <= max_left <= mid && left_sum == range_sum(
                arr@,
                max_left as int,
                mid + 1,
            ) && forall|a: int| i <= a <= mid ==> #[trigger] range_sum(arr@, a, mid + 1)
                <= left_sum,
        decreases i,
    {
        let idx = i - 1;
        proof {
            assert(range_sum(arr@, idx as int, mid + 1) == arr@[idx as int] + range_sum(
                arr@,
                idx as int + 1,
                mid + 1,
            ));
            assert(i64::MIN <= range_sum(arr@, idx as int, mid + 1) <= i64::MAX);
        }
        sum = sum + arr[idx];
        if sum > left_sum {
            left_sum = sum;
            max_left = idx;
        } else {
            proof {
                if i == mid + 1 {
                    assert(range_sum(arr@, idx as int, mid + 1) >= i64::MIN);
                    assert(sum == i64::MIN);
                    assert(max_left == mid && idx == mid);
                }
            }
        }
        i = idx;
    }
    let mut right_sum: i64 = Number::min();
    let mut sum: i64 = Number::zero();
    let mut max_right: usize = mid + 1;
    let mut j: usize = mid + 1;
    while j <= high
        invariant
            mid + 1 <= j <= high + 1,
            low <= mid < high < arr@.len(),
            sums_fit(arr@, low as int, high as int),
            sum == range_sum(arr@, mid + 1, j as int),
            j == mid + 1 ==> right_sum == i64::MIN && max_right == mid + 1,
            j > mid + 1 ==> mid + 1 <= max_right && max_right < j && max_right <= high
                && right_sum == range_sum(arr@, mid + 1, max_right as int + 1) && forall|b: int|
                mid + 1 < b <= j ==> #[trigger] range_sum(arr@, mid + 1, b) <= right_sum,
            high < n && n == arr@.len(),
        decreases high + 1 - j,
    {
        proof {
            lemma_range_sum_snoc(arr@, mid + 1, j as int);
            assert(i64::MIN <= range_sum(arr@, mid + 1, j as int + 1) <= i64::MAX);
        }
        sum = sum + arr[j];
        if sum > right_sum {
            right_sum = sum;
            max_right = j;
        } else {
            proof {
                if j == mid + 1 {
                    assert(sum == i64::MIN);
                    assert(max_right == mid + 1 && max_right as int + 1 == j as int + 1);
                }
            }
        }
        j = j + 1;
    }
    proof {
        lemma_range_sum_concat(arr@, max_left as int, mid + 1, max_right as int + 1);
        assert(i64::MIN <= range_sum(arr@, max_left as int, max_right as int + 1) <= i64::MAX);
        assert forall|a: int, b: int| low <= a <= mid && mid + 2 <= b <= high + 1 implies #[trigger]
            range_sum(arr@, a, b) <= left_sum + right_sum by {
            lemma_range_sum_concat(arr@, a, mid + 1, b);
        }
    }
    (max_left, max_right, left_sum + right_sum)
}

/// Finds the maximum subarray of `arr` within the inclusive index range
/// `[low, high]`, by divide and conquer.
///
/// Returns `(left, right, sum)`: a contiguous range `[left, right]` inside
/// `[low, high]` whose element sum is `sum`, such that no contiguous range
/// inside `[low, high]` sums to more. The range is split at its midpoint;
/// the best range of the left half, of the right half, and crossing the
/// midpoint are compared, ties favouring the left, then the right.
pub fn find_maximum_subarray(arr: &Vec<i64>, low: usize, high: usize) -> (r: (usize, usize, i64))
    requires
        low <= high < arr@.len(),
        sums_fit(arr@, low as int, high as int),
    ensures
        is_max_subarray(arr@, low as int, high as int, r.0 as int, r.1 as int, r.2 as int),
    decreases high - low,
{
    if low == high {
        proof {
            assert(range_sum(arr@, low as int, low as int + 1) == arr@[low as int] + range_sum(
                arr@,
                low as int + 1,
                low as int + 1,
            ));
            assert(range_sum(arr@, low as int + 1, low as int + 1) == 0);
        }
        return (low, high, arr[low]);
    }
    let mid = low + (high - low) / 2;
    proof {
        // The overflow-safe form splits at the usual midpoint.
        assert(mid as int == (low as int + high as int) / 2);
    }
    let (left_low, left_high, left_sum) = find_maximum_subarray(arr, low, mid);
    let (right_low, right_high, right_sum) = find_maximum_subarray(arr, mid + 1, high);
    let (cross_low, cross_high, cross_sum) = find_cross_subarray(arr, low, mid, high);

    if left_sum >= right_sum && left_sum >= cross_sum {
        (left_low, left_high, left_sum)
    } else if right_sum >= left_sum && right_sum >= cross_sum {
        (right_low, right_high, right_sum)
    } else {
        (cross_low, cross_high, cross_sum)
    }
}

/// Finds the maximum subarray of `arr` with Kadane's linear scan.
///
/// Returns `(start, end, sum)`: a contiguous range `[start, end]` whose
/// element sum is `sum`, such that no contiguous range of `arr` sums to
/// more. The scan keeps the best sum of a range ending at the current
/// position, restarting whenever the element alone beats the extended sum,
/// and records a new best range only on strict improvement.
///
/// Ties never displace the recorded range, so the earliest-found maximal
/// range is kept: every range ending before `end` sums to strictly less
/// than the maximum, and so does every range over `[a, end]` with
/// `a < start`.
pub fn find_maximum_subarray_kad(arr: &Vec<i64>) -> (r: (usize, usize, i64))
    requires
        arr@.len() > 0,
        sums_fit(arr@, 0, arr@.len() - 1),
    ensures
        is_max_subarray(arr@, 0, arr@.len() - 1, r.0 as int, r.1 as int, r.2 as int),
        forall|a: int, b: int| 0 <= a < b <= r.1 ==> #[trigger] range_sum(arr@, a, b) < r.2,
        forall|a: int| 0 <= a < r.0 ==> #[trigger] range_sum(arr@, a, r.1 as int + 1) < r.2,
{
    let mut max_sum = arr[0];
    let mut current_sum = arr[0];
    let mut start: usize = 0;
    let mut end: usize = 0;
    let mut temp_start: usize = 0;
    proof {
        assert(range_sum(arr@, 0, 1) == arr@[0] + range_sum(arr@, 1, 1));
        assert(range_sum(arr@, 1, 1) == 0);
    }
    let mut i: usize = 1;
    while i < arr.len()
        invariant
            1 <= i <= arr@.len(),
            sums_fit(arr@, 0, arr@.len() - 1),
            temp_start < i,
            current_sum == range_sum(arr@, temp_start as int, i as int),
            forall|a: int| 0 <= a < i ==> #[trigger] range_sum(arr@, a, i as int) <= current_sum,
            start <= end < i,
            max_sum == range_sum(arr@, start as int, end as int + 1),
            forall|a: int, b: int| 0 <= a < b <= i ==> #[trigger] range_sum(arr@, a, b) <= max_sum,
            forall|a: int| 0 <= a < temp_start ==> #[trigger] range_sum(arr@, a, i as int)
                < current_sum,
            forall|a: int, b: int|
                0 <= a < b <= i && #[trigger] range_sum(arr@, a, b) >= max_sum ==> b > end + 1 || (
                b == end + 1 && a >= start),
        decreases arr@.len() - i,
    {
        let ghost old_max = max_sum as int;
        let ghost old_end = end as int;
        let ghost old_start = start as int;
        proof {
            lemma_range_sum_snoc(arr@, temp_start as int, i as int);
            assert(i64::MIN <= range_sum(arr@, temp_start as int, i as int + 1) <= i64::MAX);
        }
        let item = arr[i];
        let extended = current_sum + item;
        if item > extended {
            current_sum = item;
            temp_start = i;
        } else {
            current_sum = extended;
        }
        proof {
            assert(range_sum(arr@, i as int, i as int + 1) == arr@[i as int] + range_sum(
                arr@,
                i as int + 1,
                i as int + 1,
            ));
            assert(range_sum(arr@, i as int + 1, i as int + 1) == 0);
            assert forall|a: int| 0 <= a < i + 1 implies #[trigger] range_sum(arr@, a, i as int + 1)
                <= current_sum by {
                if a < i {
                    lemma_range_sum_snoc(arr@, a, i as int);
                }
            }
            assert forall|a: int| 0 <= a < temp_start implies #[trigger] range_sum(
                arr@,
                a,
                i as int + 1,
            ) < current_sum by {
                lemma_range_sum_snoc(arr@, a, i as int);
            }
        }
        if current_sum > max_sum {
            max_sum = current_sum;
            start = temp_start;
            end = i;
        }
        proof {
            assert forall|a: int, b: int|
                0 <= a < b <= i + 1 && #[trigger] range_sum(arr@, a, b) >= max_sum implies b > end
                + 1 || (b == end + 1 && a >= start) by {
                if b <= i {
                    assert(range_sum(arr@, a, b) <= old_max);
                } else {
                    assert(range_sum(arr@, a, b) <= current_sum);
                }
            }
        }
        i = i + 1;
    }
    (start, end, max_sum)
}

} // verus!
