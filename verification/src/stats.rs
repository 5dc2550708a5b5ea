//! Mean, median and mode of a sample of unsigned integers.
//!
//! A sample is a non-empty `Vec<u64>` handed over wholesale by the
//! caller; it need not be sorted. Each statistic is computed in one
//! call, against its own working data, and proved against a
//! mathematical model of the sample:
//!
//! - [`mean`] returns the truncating integer quotient of the sample's
//!   sum by its length;
//! - [`median`] sorts a copy ascending and returns the element at
//!   index `(len - 1) / 2` (the lower middle for even lengths);
//! - [`mode`] returns the value with the greatest number of
//!   occurrences, and on a tie the smallest such value.
//!
//! Each operation rejects the empty sample with
//! [`StatsError::EmptyInput`] instead of failing at run time.

use vstd::prelude::*;
use vstd::relations::sorted_by;
use vstd::relations::total_ordering;
use vstd::seq_lib::group_to_multiset_ensures;
use vstd::seq_lib::lemma_sorted_unique;
use vstd::arithmetic::div_mod::lemma_fundamental_div_mod;
use vstd::arithmetic::div_mod::lemma_mod_division_less_than_divisor;

verus! {

broadcast use group_to_multiset_ensures;

/// The single failure condition: a statistic was requested for an
/// empty sample.
#[derive(Clone, Copy, Debug, PartialEq, Eq, Structural)]
pub enum StatsError {
    EmptyInput,
}

/// The sum of a sample, as an unbounded integer.
pub open spec fn sum_of(s: Seq<u64>) -> int
    decreases s.len(),
{
    if s.len() == 0 {
        0
    } else {
        sum_of(s.drop_last()) + s.last()
    }
}

/// How many times `x` occurs in `s`.
pub open spec fn count_in(s: Seq<u64>, x: u64) -> nat {
    s.to_multiset().count(x)
}

/// The ascending order the summarizer sorts by.
pub open spec fn u64_le() -> spec_fn(u64, u64) -> bool {
    |x: u64, y: u64| x <= y
}

/// The sample rearranged into ascending order.
pub open spec fn sorted_of(s: Seq<u64>) -> Seq<u64> {
    s.sort_by(u64_le())
}

/// The truncating arithmetic mean of a non-empty sample.
pub open spec fn mean_of(s: Seq<u64>) -> int
    recommends
        s.len() > 0,
{
    sum_of(s) / s.len() as int
}

/// The lower-middle median of a non-empty sample: the element at
/// index `(len - 1) / 2` of the sorted sample.
pub open spec fn median_of(s: Seq<u64>) -> u64
    recommends
        s.len() > 0,
{
    sorted_of(s)[((s.len() - 1) / 2) as int]
}

/// `m` is the mode of `s`: it occurs in `s`, no value occurs more
/// often than it, and among the values tied for the greatest count it
/// is the smallest.
pub open spec fn is_mode_of(s: Seq<u64>, m: u64) -> bool {
    &&& s.contains(m)
    &&& forall|x: u64| #[trigger] count_in(s, x) <= count_in(s, m)
    &&& forall|x: u64| #[trigger] count_in(s, x) == count_in(s, m) ==> m <= x
}

/// Extending a prefix by one element adds that element to the sum.
proof fn lemma_sum_take_succ(s: Seq<u64>, i: int)
    requires
        0 <= i < s.len(),
    ensures
        sum_of(s.take(i + 1)) == sum_of(s.take(i)) + s[i],
{
    assert(s.take(i + 1).drop_last() =~= s.take(i));
    assert(s.take(i + 1).last() == s[i]);
}

/// A sum of unsigned values is never negative.
proof fn lemma_sum_nonneg(s: Seq<u64>)
    ensures
        sum_of(s) >= 0,
    decreases s.len(),
{
    if s.len() > 0 {
        lemma_sum_nonneg(s.drop_last());
    }
}

/// A prefix of unsigned values never sums to more than the whole.
proof fn lemma_sum_prefix_le(s: Seq<u64>, i: int)
    requires
        0 <= i <= s.len(),
    ensures
        sum_of(s.take(i)) <= sum_of(s),
    decreases s.len() - i,
{
    if i == s.len() {
        assert(s.take(i) =~= s);
    } else {
        lemma_sum_take_succ(s, i);
        lemma_sum_prefix_le(s, i + 1);
    }
}

/// Removing one element takes exactly its value out of the sum.
proof fn lemma_sum_remove(s: Seq<u64>, j: int)
    requires
        0 <= j < s.len(),
    ensures
        sum_of(s) == s[j] + sum_of(s.remove(j)),
    decreases s.len(),
{
    if j == s.len() - 1 {
        assert(s.remove(j) =~= s.drop_last());
    } else {
        lemma_sum_remove(s.drop_last(), j);
        assert(s.remove(j).drop_last() =~= s.drop_last().remove(j));
        assert(s.remove(j).last() == s.last());
    }
}

/// Two samples with the same multiset of values have the same sum.
pub proof fn lemma_sum_permutation(s: Seq<u64>, t: Seq<u64>)
    requires
        s.to_multiset() == t.to_multiset(),
    ensures
        sum_of(s) == sum_of(t),
    decreases s.len(),
{
    if s.len() == 0 {
        assert(s.to_multiset().len() == 0);
        assert(t.to_multiset().len() == 0);
        assert(t.len() == 0);
    } else {
        let a = s.last();
        assert(s.contains(a));
        assert(t.to_multiset().count(a) > 0);
        assert(t.contains(a));
        let j = choose|j: int| 0 <= j < t.len() && t[j] == a;
        assert(s.drop_last() =~= s.remove(s.len() - 1));
        assert(s.remove(s.len() - 1).to_multiset() == s.to_multiset().remove(a));
        assert(t.remove(j).to_multiset() == t.to_multiset().remove(a));
        lemma_sum_permutation(s.drop_last(), t.remove(j));
        lemma_sum_remove(t, j);
    }
}

/// The first `n` elements of `s` stand in ascending order.
spec fn sorted_prefix(s: Seq<u64>, n: int) -> bool {
    forall|a: int, b: int| 0 <= a < b < n ==> #[trigger] s[a] <= #[trigger] s[b]
}

/// `u64` under `<=` is a total ordering, as the sort relation requires.
proof fn lemma_u64_le_total_ordering()
    ensures
        total_ordering(u64_le()),
{
    let le = u64_le();
    assert forall|x: u64| #[trigger] le(x, x) by {}
    assert forall|x: u64, y: u64| #[trigger] le(x, y) && #[trigger] le(y, x) implies x == y by {}
    assert forall|x: u64, y: u64, z: u64| #[trigger] le(x, y) && #[trigger] le(y, z) implies le(
        x,
        z,
    ) by {}
    assert forall|x: u64, y: u64| #[trigger] le(x, y) || #[trigger] le(y, x) by {}
}

/// Returns the sample rearranged into ascending order, by insertion
/// sort, and proves the result equal to the sorted model of the input.
fn sorted_copy(v: &Vec<u64>) -> (out: Vec<u64>)
    ensures
        out@ == sorted_of(v@),
        out@.len() == v@.len(),
        out@.to_multiset() == v@.to_multiset(),
        sorted_by(out@, u64_le()),
{
    let mut s: Vec<u64> = Vec::new();
    let mut k: usize = 0;
    while k < v.len()
        invariant
            k <= v@.len(),
            s@ == v@.take(k as int),
        decreases v@.len() - k,
    {
        s.push(v[k]);
        proof {
            assert(v@.take(k as int + 1) =~= v@.take(k as int).push(v@[k as int]));
        }
        k = k + 1;
    }
    proof {
        assert(v@.take(v@.len() as int) =~= v@);
    }
    let mut i: usize = 1;
    while i < s.len()
        invariant
            1 <= i,
            s@.len() == v@.len(),
            s@.to_multiset() == v@.to_multiset(),
            sorted_prefix(s@, i as int),
        decreases s@.len() - i,
    {
        let ghost before = s@;
        let x = s.remove(i);
        let ghost mid = s@;
        proof {
            assert(forall|q: int| 0 <= q < i ==> mid[q] == before[q]);
        }
        let mut p: usize = 0;
        while p < i && s[p] <= x
            invariant
                p <= i,
                i < before.len(),
                s@ == mid,
                mid == before.remove(i as int),
                x == before[i as int],
                sorted_prefix(before, i as int),
                forall|q: int| 0 <= q < i ==> mid[q] == before[q],
                forall|q: int| 0 <= q < p ==> mid[q] <= x,
            decreases i - p,
        {
            p = p + 1;
        }
        s.insert(p, x);
        proof {
            mid.insert_ensures(p as int, x);
            assert(s@.to_multiset() == v@.to_multiset()) by {
                assert(mid.to_multiset() == before.to_multiset().remove(x));
                assert(s@.to_multiset() == mid.to_multiset().insert(x));
                assert(before.contains(before[i as int]));
                assert(before.to_multiset().count(x) > 0);
                assert(s@.to_multiset() =~= before.to_multiset());
            }
            assert(sorted_prefix(s@, i as int + 1)) by {
                assert forall|a: int, b: int| 0 <= a < b < i + 1 implies #[trigger] s@[a]
                    <= #[trigger] s@[b] by {
                    if b < p {
                        assert(s@[a] == before[a] && s@[b] == before[b]);
                    } else if b == p {
                        assert(s@[b] == x && s@[a] == mid[a]);
                    } else {
                        assert(s@[b] == mid[b - 1]);
                        if p < i {
                            assert(mid[p as int] > x);
                        }
                        if a < p {
                            assert(s@[a] == mid[a] && mid[a] <= x);
                            if b - 1 == p {
                                assert(mid[b - 1] > x);
                            } else {
                                assert(mid[b - 1] == before[b - 1]);
                                assert(mid[a] == before[a]);
                            }
                        } else if a == p {
                            assert(s@[a] == x);
                            assert(mid[b - 1] > x || mid[b - 1] >= mid[p as int]);
                            if b - 1 > p {
                                assert(mid[b - 1] == before[b - 1]);
                                assert(mid[p as int] == before[p as int]);
                                assert(before[p as int] <= before[b - 1]);
                            }
                        } else {
                            assert(s@[a] == mid[a - 1] && s@[b] == mid[b - 1]);
                            assert(mid[a - 1] == before[a - 1] && mid[b - 1] == before[b - 1]);
                        }
                    }
                }
            }
        }
        i = i + 1;
    }
    proof {
        lemma_u64_le_total_ordering();
        v@.lemma_sort_by_ensures(u64_le());
        assert(s@.len() == s@.to_multiset().len());
        assert(sorted_by(s@, u64_le())) by {
            assert forall|a: int, b: int| 0 <= a < b < s@.len() implies u64_le()(s@[a], s@[b]) by {
                assert(s@[a] <= s@[b]);
            }
        }
        lemma_sorted_unique(s@, v@.sort_by(u64_le()), u64_le());
        assert(s@ == sorted_of(v@));
    }
    s
}

/// Returns the median of the sample: a copy is sorted ascending and
/// the element at index `(len - 1) / 2` is returned, which for an
/// even-length sample is the lower of the two middle elements. The
/// empty sample is rejected with [`StatsError::EmptyInput`].
pub fn median(v: &Vec<u64>) -> (r: Result<u64, StatsError>)
    ensures
        v@.len() == 0 <==> r == Err::<u64, StatsError>(StatsError::EmptyInput),
        v@.len() > 0 ==> (r matches Ok(m) && m == median_of(v@)),
{
    if v.len() == 0 {
        return Err(StatsError::EmptyInput);
    }
    let s = sorted_copy(v);
    Ok(s[(s.len() - 1) / 2])
}

/// The median of a non-empty sample is one of its elements.
pub proof fn lemma_median_in_sample(s: Seq<u64>)
    requires
        s.len() > 0,
    ensures
        s.contains(median_of(s)),
{
    lemma_u64_le_total_ordering();
    s.lemma_sort_by_ensures(u64_le());
    let t = sorted_of(s);
    assert(t.len() == t.to_multiset().len());
    assert(s.len() == s.to_multiset().len());
    let idx = ((s.len() - 1) / 2) as int;
    assert(t.contains(t[idx]));
    assert(t.to_multiset().count(t[idx]) > 0);
    assert(s.to_multiset().count(t[idx]) > 0);
}

/// Returns the truncating mean of the sample: the sum of its elements
/// divided by their number, the fractional part discarded.
///
/// The caller must provide a sample whose sum fits in `u64`; the
/// running sum is then proved free of overflow. The empty sample is
/// rejected with [`StatsError::EmptyInput`].
pub fn mean(v: &Vec<u64>) -> (r: Result<u64, StatsError>)
    requires
        sum_of(v@) <= u64::MAX,
    ensures
        v@.len() == 0 <==> r == Err::<u64, StatsError>(StatsError::EmptyInput),
        v@.len() > 0 ==> (r matches Ok(m) && m == mean_of(v@)),
{
    if v.len() == 0 {
        return Err(StatsError::EmptyInput);
    }
    let mut sum: u64 = 0;
    let mut i: usize = 0;
    while i < v.len()
        invariant
            i <= v@.len(),
            sum == sum_of(v@.take(i as int)),
            sum_of(v@) <= u64::MAX,
        decreases v@.len() - i,
    {
        proof {
            lemma_sum_take_succ(v@, i as int);
            lemma_sum_prefix_le(v@, i as int + 1);
        }
        sum = sum + v[i];
        i = i + 1;
    }
    proof {
        assert(v@.take(v@.len() as int) =~= v@);
        lemma_sum_nonneg(v@);
    }
    Ok(sum / (v.len() as u64))
}

/// Counts how many elements of the sample equal `x`.
fn occurrences(v: &Vec<u64>, x: u64) -> (c: usize)
    ensures
        c == count_in(v@, x),
{
    let mut c: usize = 0;
    let mut j: usize = 0;
    while j < v.len()
        invariant
            j <= v@.len(),
            c <= j,
            c == count_in(v@.take(j as int), x),
        decreases v@.len() - j,
    {
        proof {
            assert(v@.take(j as int + 1) =~= v@.take(j as int).push(v@[j as int]));
        }
        if v[j] == x {
            c = c + 1;
        }
        j = j + 1;
    }
    proof {
        assert(v@.take(v@.len() as int) =~= v@);
    }
    c
}

/// Returns the mode of the sample: the value that occurs most often.
/// The occurrences of each value are counted in a full pass, and when
/// several values are tied for the greatest count the smallest of them
/// is returned, so the result does not depend on any traversal order.
/// The empty sample is rejected with [`StatsError::EmptyInput`].
pub fn mode(v: &Vec<u64>) -> (r: Result<u64, StatsError>)
    ensures
        v@.len() == 0 <==> r == Err::<u64, StatsError>(StatsError::EmptyInput),
        v@.len() > 0 ==> (r matches Ok(m) && is_mode_of(v@, m)),
{
    if v.len() == 0 {
        return Err(StatsError::EmptyInput);
    }
    let mut best_val: u64 = v[0];
    let mut best_cnt: usize = occurrences(v, best_val);
    let mut i: usize = 1;
    while i < v.len()
        invariant
            1 <= i <= v@.len(),
            best_cnt == count_in(v@, best_val),
            exists|k: int| 0 <= k < i && v@[k] == best_val,
            forall|k: int| 0 <= k < i ==> #[trigger] count_in(v@, v@[k]) <= best_cnt,
            forall|k: int|
                0 <= k < i && #[trigger] count_in(v@, v@[k]) == best_cnt ==> best_val <= v@[k],
        decreases v@.len() - i,
    {
        let c = occurrences(v, v[i]);
        if c > best_cnt || (c == best_cnt && v[i] < best_val) {
            best_val = v[i];
            best_cnt = c;
        }
        i = i + 1;
    }
    proof {
        assert(v@.contains(best_val));
        assert(count_in(v@, best_val) > 0);
        assert forall|x: u64| #[trigger] count_in(v@, x) <= count_in(v@, best_val) by {
            if count_in(v@, x) > 0 {
                assert(v@.contains(x));
                let k = choose|k: int| 0 <= k < v@.len() && v@[k] == x;
                assert(count_in(v@, v@[k]) <= best_cnt);
            }
        }
        assert forall|x: u64| #[trigger] count_in(v@, x) == count_in(v@, best_val) implies best_val
            <= x by {
            assert(count_in(v@, x) > 0);
            assert(v@.contains(x));
            let k = choose|k: int| 0 <= k < v@.len() && v@[k] == x;
            assert(count_in(v@, v@[k]) == best_cnt);
        }
    }
    Ok(best_val)
}

/// The truncating-division contract of the mean: for every non-empty
/// sample `s`, `mean_of(s) * s.len() <= sum_of(s) < (mean_of(s) + 1) * s.len()`.
pub proof fn lemma_mean_truncating(s: Seq<u64>)
    requires
        s.len() > 0,
    ensures
        mean_of(s) * s.len() <= sum_of(s),
        sum_of(s) < (mean_of(s) + 1) * s.len(),
{
    lemma_sum_nonneg(s);
    let n = s.len() as int;
    let q = mean_of(s);
    lemma_fundamental_div_mod(sum_of(s), n);
    lemma_mod_division_less_than_divisor(sum_of(s), n);
    assert(sum_of(s) == n * q + sum_of(s) % n);
    assert(n * q == q * n) by (nonlinear_arith);
    assert((q + 1) * n == q * n + n) by (nonlinear_arith);
}

/// A mode of a sample is a mode of every rearrangement of it.
proof fn lemma_mode_carries_over(s: Seq<u64>, t: Seq<u64>, m: u64)
    requires
        s.to_multiset() == t.to_multiset(),
        is_mode_of(s, m),
    ensures
        is_mode_of(t, m),
{
    assert(s.contains(m) <==> s.to_multiset().count(m) > 0);
    assert(t.contains(m) <==> t.to_multiset().count(m) > 0);
    assert forall|x: u64| #[trigger] count_in(t, x) <= count_in(t, m) by {
        assert(count_in(s, x) <= count_in(s, m));
    }
    assert forall|x: u64| #[trigger] count_in(t, x) == count_in(t, m) implies m <= x by {
        assert(count_in(s, x) == count_in(s, m));
    }
}

/// The statistics depend only on which values occur how often: two
/// samples holding the same values with the same multiplicities, in
/// any order, have the same length, the same sum (hence the same
/// mean), the same sorted form (hence the same median) and the same
/// modes.
pub proof fn lemma_stats_order_independent(s: Seq<u64>, t: Seq<u64>)
    requires
        s.to_multiset() == t.to_multiset(),
    ensures
        s.len() == t.len(),
        sum_of(s) == sum_of(t),
        sorted_of(s) == sorted_of(t),
        s.len() > 0 ==> mean_of(s) == mean_of(t),
        s.len() > 0 ==> median_of(s) == median_of(t),
        forall|m: u64| is_mode_of(s, m) <==> is_mode_of(t, m),
{
    assert(s.len() == s.to_multiset().len());
    assert(t.len() == t.to_multiset().len());
    lemma_sum_permutation(s, t);
    lemma_u64_le_total_ordering();
    s.lemma_sort_by_ensures(u64_le());
    t.lemma_sort_by_ensures(u64_le());
    lemma_sorted_unique(sorted_of(s), sorted_of(t), u64_le());
    assert forall|m: u64| is_mode_of(s, m) <==> is_mode_of(t, m) by {
        if is_mode_of(s, m) {
            lemma_mode_carries_over(s, t, m);
        }
        if is_mode_of(t, m) {
            lemma_mode_carries_over(t, s, m);
        }
    }
}

/// Sorting a sample first changes neither its length, its sum, its
/// mean, its median nor its modes.
pub proof fn lemma_sort_preserves_stats(s: Seq<u64>)
    ensures
        sorted_of(s).len() == s.len(),
        sum_of(sorted_of(s)) == sum_of(s),
        s.len() > 0 ==> mean_of(sorted_of(s)) == mean_of(s),
        s.len() > 0 ==> median_of(sorted_of(s)) == median_of(s),
        forall|m: u64| is_mode_of(sorted_of(s), m) <==> is_mode_of(s, m),
{
    lemma_u64_le_total_ordering();
    s.lemma_sort_by_ensures(u64_le());
    lemma_stats_order_independent(sorted_of(s), s);
}

} // verus!
