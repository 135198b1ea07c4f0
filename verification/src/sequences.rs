//! Extrapolation of integer sequences by repeated differencing.
//!
//! A reading is extended by stacking rows of pairwise differences until a row
//! is a single value, then summing back up: forwards for the next value,
//! backwards (with alternating signs) for the value before the first.

use vstd::prelude::*;

verus! {

/// The largest magnitude an input reading may have.
pub const VALUE_BOUND: i64 = 1_000_000_000;

/// The largest number of readings one sequence may hold.
pub const LENGTH_BOUND: usize = 30;

/// True when every value of the row lies within `b` of zero.
pub open spec fn bounded_row(row: Seq<i64>, b: int) -> bool {
    forall|i: int| 0 <= i < row.len() ==> -b <= #[trigger] row[i] <= b
}

/// The row of pairwise differences of `row`.
pub open spec fn diff_row(row: Seq<i64>) -> Seq<i64> {
    Seq::new((row.len() - 1) as nat, |i: int| (row[i + 1] - row[i]) as i64)
}

/// The views of the rows of a difference pyramid.
pub open spec fn pyramid_views(rows: Seq<Vec<i64>>) -> Seq<Seq<i64>> {
    rows.map_values(|v: Vec<i64>| v@)
}

/// True when `rows` is the difference pyramid of its own first row: each row
/// is the differences of the one above, down to a single value.
pub open spec fn is_pyramid(rows: Seq<Seq<i64>>) -> bool {
    &&& rows.len() >= 1
    &&& forall|k: int| 1 <= k < rows.len() ==> #[trigger] rows[k] == diff_row(rows[k - 1])
    &&& forall|k: int| 0 <= k < rows.len() ==> #[trigger] rows[k].len() == rows[0].len() - k
    &&& (rows[0].len() <= 1 ==> rows.len() == 1)
    &&& (rows[0].len() > 1 ==> rows.len() == rows[0].len())
}

/// True when row `k` of the pyramid is bounded by the input bound doubled
/// `k` times, which keeps all arithmetic inside the machine word.
pub open spec fn bounded_pyramid(rows: Seq<Seq<i64>>) -> bool {
    forall|k: int|
        0 <= k < rows.len() ==> bounded_row(
            #[trigger] rows[k],
            vstd::arithmetic::power2::pow2(k as nat) * VALUE_BOUND,
        )
}

/// The sum of the last values of all rows: the next reading.
pub open spec fn sum_of_lasts(rows: Seq<Seq<i64>>) -> int
    decreases rows.len(),
{
    if rows.len() == 0 {
        0
    } else {
        sum_of_lasts(rows.drop_last()) + rows.last().last()
    }
}

/// The alternating difference of the first values of all rows: the reading
/// before the first.
pub open spec fn alternating_firsts(rows: Seq<Seq<i64>>) -> int
    decreases rows.len(),
{
    if rows.len() == 0 {
        0
    } else {
        rows[0][0] - alternating_firsts(rows.drop_first())
    }
}

/// Builds the difference pyramid of `input`: row zero is the input itself,
/// and each further row holds the pairwise differences of the row above,
/// down to a row of one value.
pub fn get_steps(input: Vec<i64>) -> (r: Vec<Vec<i64>>)
    requires
        input@.len() <= LENGTH_BOUND,
        bounded_row(input@, VALUE_BOUND as int),
    ensures
        is_pyramid(pyramid_views(r@)),
        bounded_pyramid(pyramid_views(r@)),
        pyramid_views(r@)[0] == input@,
    {
    proof {
        vstd::arithmetic::power2::lemma2_to64();
    }
    let n: usize = input.len();
    let mut rows: Vec<Vec<i64>> = Vec::new();
    rows.push(input);
    if n <= 1 {
        return rows;
    }
    let mut k: usize = 1;
    while k < n
        invariant
            2 <= n <= LENGTH_BOUND,
            1 <= k <= n,
            rows@.len() == k,
            pyramid_views(rows@)[0] == input@,
            pyramid_views(rows@)[0].len() == n,
            forall|t: int|
                0 <= t < k ==> #[trigger] pyramid_views(rows@)[t].len() == n - t,
            forall|t: int|
                1 <= t < k ==> #[trigger] pyramid_views(rows@)[t] == diff_row(
                    pyramid_views(rows@)[t - 1],
                ),
            forall|t: int|
                0 <= t < k ==> bounded_row(
                    #[trigger] pyramid_views(rows@)[t],
                    vstd::arithmetic::power2::pow2(t as nat) * VALUE_BOUND,
                ),
        decreases n - k,
    {
        proof {
            vstd::arithmetic::power2::lemma2_to64();
            vstd::arithmetic::power2::lemma_pow2_strictly_increases((k - 1) as nat, 30nat);
            vstd::arithmetic::power2::lemma_pow2_unfold(k as nat);
        }
        let prev: &Vec<i64> = &rows[k - 1];
        proof {
            assert(prev@ == pyramid_views(rows@)[k - 1]);
            assert(prev@.len() == n - (k - 1));
        }
        let len: usize = prev.len();
        let mut next: Vec<i64> = Vec::new();
        let mut i: usize = 0;
        while i < len - 1
            invariant
                len == prev@.len(),
                len >= 1,
                i <= len - 1,
                1 <= k <= LENGTH_BOUND,
                bounded_row(prev@, vstd::arithmetic::power2::pow2((k - 1) as nat) * VALUE_BOUND),
                vstd::arithmetic::power2::pow2((k - 1) as nat) * VALUE_BOUND < i64::MAX / 2,
                next@.len() == i,
                forall|j: int| 0 <= j < i ==> #[trigger] next@[j] == prev@[j + 1] - prev@[j],
            decreases len - i,
        {
            let d: i64 = prev[i + 1] - prev[i];
            next.push(d);
            i = i + 1;
        }
        proof {
            assert(next@ =~= diff_row(prev@));
        }
        let ghost before = rows@;
        rows.push(next);
        proof {
            assert(pyramid_views(rows@) =~= pyramid_views(before).push(next@));
            vstd::arithmetic::power2::lemma_pow2_unfold(k as nat);
            assert forall|j: int| 0 <= j < next@.len() implies -(
                vstd::arithmetic::power2::pow2(k as nat) * VALUE_BOUND) <= #[trigger] next@[j]
                <= vstd::arithmetic::power2::pow2(k as nat) * VALUE_BOUND by {
                assert(next@[j] == prev@[j + 1] - prev@[j]);
            }
        }
        k = k + 1;
    }
    rows
}

/// The next reading of the sequence whose pyramid this is: the sum of every
/// row's last value.
pub fn one(steps: Vec<Vec<i64>>) -> (r: i64)
    requires
        is_pyramid(pyramid_views(steps@)),
        bounded_pyramid(pyramid_views(steps@)),
        steps@.len() <= LENGTH_BOUND,
        pyramid_views(steps@)[0].len() >= 1,
    ensures
        r == sum_of_lasts(pyramid_views(steps@)),
{
    proof {
        vstd::arithmetic::power2::lemma2_to64();
    }
    let n: usize = steps.len();
    let mut acc: i64 = 0;
    let mut k: usize = 0;
    while k < n
        invariant
            n == steps@.len(),
            n <= LENGTH_BOUND,
            k <= n,
            is_pyramid(pyramid_views(steps@)),
            bounded_pyramid(pyramid_views(steps@)),
            pyramid_views(steps@)[0].len() >= 1,
            acc == sum_of_lasts(pyramid_views(steps@).take(k as int)),
            -(vstd::arithmetic::power2::pow2(k as nat) as int) * VALUE_BOUND <= acc as int
                <= vstd::arithmetic::power2::pow2(k as nat) * VALUE_BOUND,
        decreases n - k,
    {
        proof {
            vstd::arithmetic::power2::lemma2_to64();
            vstd::arithmetic::power2::lemma_pow2_unfold((k + 1) as nat);
            vstd::arithmetic::power2::lemma_pow2_strictly_increases(k as nat, 31nat);
            let pv = pyramid_views(steps@);
            assert(pv.take(k + 1).drop_last() =~= pv.take(k as int));
            assert(pv.take(k + 1).last() == pv[k as int]);
            assert(pv[k as int].len() >= 1);
        }
        let row: &Vec<i64> = &steps[k];
        let last: i64 = row[row.len() - 1];
        proof {
            let pv = pyramid_views(steps@);
            assert(last == pv[k as int].last());
            assert(-(vstd::arithmetic::power2::pow2(k as nat) as int) * VALUE_BOUND <= last as int
                <= vstd::arithmetic::power2::pow2(k as nat) * VALUE_BOUND) by {
                assert(pv[k as int][pv[k as int].len() - 1] == last);
            }
        }
        acc = acc + last;
        k = k + 1;
    }
    proof {
        assert(pyramid_views(steps@).take(n as int) =~= pyramid_views(steps@));
    }
    acc
}

/// The reading before the first of the sequence whose pyramid this is: the
/// alternating difference of every row's first value.
#[verifier::rlimit(60)]
pub fn two(steps: Vec<Vec<i64>>) -> (r: i64)
    requires
        is_pyramid(pyramid_views(steps@)),
        bounded_pyramid(pyramid_views(steps@)),
        steps@.len() <= LENGTH_BOUND,
        pyramid_views(steps@)[0].len() >= 1,
    ensures
        r == alternating_firsts(pyramid_views(steps@)),
{
    proof {
        vstd::arithmetic::power2::lemma2_to64();
    }
    let n: usize = steps.len();
    let mut acc: i64 = 0;
    let mut k: usize = n;
    while k > 0
        invariant
            n == steps@.len(),
            1 <= n <= LENGTH_BOUND,
            k <= n,
            is_pyramid(pyramid_views(steps@)),
            bounded_pyramid(pyramid_views(steps@)),
            pyramid_views(steps@)[0].len() >= 1,
            acc == alternating_firsts(pyramid_views(steps@).skip(k as int)),
            -((vstd::arithmetic::power2::pow2(n as nat) as int
                - vstd::arithmetic::power2::pow2(k as nat) as int) * VALUE_BOUND) <= acc as int
                <= (vstd::arithmetic::power2::pow2(n as nat) as int
                - vstd::arithmetic::power2::pow2(k as nat) as int) * VALUE_BOUND,
        decreases k,
    {
        proof {
            vstd::arithmetic::power2::lemma2_to64();
            vstd::arithmetic::power2::lemma_pow2_unfold(k as nat);
            if (n as nat) < 31 {
                vstd::arithmetic::power2::lemma_pow2_strictly_increases(n as nat, 31nat);
            }
            vstd::arithmetic::power2::lemma_pow2_strictly_increases((k - 1) as nat, n as nat);
            let pv = pyramid_views(steps@);
            assert(pv.skip(k - 1).drop_first() =~= pv.skip(k as int));
            assert(pv.skip(k - 1)[0] == pv[k - 1]);
            assert(pv[k - 1].len() >= 1);
        }
        let row: &Vec<i64> = &steps[k - 1];
        let first: i64 = row[0];
        proof {
            let pv = pyramid_views(steps@);
            assert(first == pv[k - 1][0]);
        }
        acc = first - acc;
        k = k - 1;
    }
    proof {
        assert(pyramid_views(steps@).skip(0) =~= pyramid_views(steps@));
    }
    acc
}

} // verus!
