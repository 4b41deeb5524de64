//! The common interface of the range-minimum structures.
pub mod block;
pub mod cartesian;
pub mod naive;
pub mod range_min;
pub mod segment_tree;
pub mod shape;
pub mod sparse_table;
pub mod store;
pub mod util;

use vstd::prelude::*;
use crate::rmq::range_min::range_min;

verus! {

/// A structure built once over a slice of values that answers range-minimum
/// queries over it: `query(l, r)` is the minimum of `data[l..=r]`.
///
/// Every structure answers every nonempty range `l <= r < n`. Some also
/// answer empty ranges (`l > r`) with `u64::MAX`, the minimum of nothing;
/// `admits` says which ranges a structure answers.
pub trait Rmq<'a>: Sized {
    /// The values the structure answers queries about.
    spec fn values(&self) -> Seq<u64>;

    /// The structure's internal invariant, which `build` establishes.
    spec fn well_formed(&self) -> bool;

    /// The ranges `[l, r]` that `query` answers.
    spec fn admits(&self, l: int, r: int) -> bool;

    /// Every nonempty range inside the values is answered.
    proof fn lemma_admits_ranges(&self, l: int, r: int)
        requires
            self.well_formed(),
            0 <= l <= r < self.values().len(),
        ensures
            self.admits(l, r),
    ;

    /// The input lengths on which `build` succeeds: beyond them it would
    /// panic, or ask for more memory than an allocation may hold.
    spec fn buildable(n: nat) -> bool;

    /// The structure's name, as the benchmark prints it.
    fn name() -> String;

    /// To save time, only run benchmarks up to this n.
    fn max_n() -> (m: usize)
        default_ensures
            m == usize::MAX,
    {
        usize::MAX
    }

    /// Whether `build` accepts an input of length `n`.
    fn can_build(n: usize) -> (b: bool)
        ensures
            b == Self::buildable(n as nat),
    ;

    fn build(data: &'a [u64]) -> (s: Self)
        requires
            Self::buildable(data@.len()),
        ensures
            s.well_formed(),
            s.values() == data@,
    ;

    /// Space usage in bytes.
    fn space(&self) -> usize
        requires
            self.well_formed(),
    ;

    /// Whether `query` answers the range `[l, r]`.
    fn can_query(&self, l: usize, r: usize) -> (b: bool)
        requires
            self.well_formed(),
        ensures
            b == self.admits(l as int, r as int),
    ;

    /// Minimum of `values[l..=r]` (`u64::MAX` for an empty range).
    fn query(&self, l: usize, r: usize) -> (m: u64)
        requires
            self.well_formed(),
            self.admits(l as int, r as int),
        ensures
            m == range_min(self.values(), l as int, r + 1),
    ;
}

/// Sum of the answers to `queries`, in order.
pub open spec fn answers_sum(vals: Seq<u64>, queries: Seq<(usize, usize)>) -> int
    decreases queries.len(),
{
    if queries.len() == 0 {
        0
    } else {
        answers_sum(vals, queries.drop_last()) + range_min(
            vals,
            queries.last().0 as int,
            queries.last().1 + 1,
        )
    }
}

/// A prefix of the queries sums to no more than all of them.
pub proof fn lemma_answers_sum_prefix(vals: Seq<u64>, queries: Seq<(usize, usize)>, k: int)
    requires
        0 <= k <= queries.len(),
    ensures
        0 <= answers_sum(vals, queries.take(k)) <= answers_sum(vals, queries),
    decreases queries.len(),
{
    if k < queries.len() {
        lemma_answers_sum_prefix(vals, queries.drop_last(), k);
        assert(queries.drop_last().take(k) == queries.take(k));
    } else {
        assert(queries.take(k) == queries);
        if k > 0 {
            lemma_answers_sum_prefix(vals, queries.drop_last(), k - 1);
        }
    }
}

/// The sum of the answers of `rmq` to `queries`, as the benchmark adds them
/// up; `None` when the sum exceeds `u64::MAX`, where that running sum
/// overflows.
pub fn query_sum<'a, R: Rmq<'a>>(rmq: &R, queries: &[(usize, usize)]) -> (s: Option<u64>)
    requires
        rmq.well_formed(),
        forall|k: int|
            0 <= k < queries@.len() ==> rmq.admits(#[trigger] queries@[k].0 as int, queries@[k].1 as int),
    ensures
        match s {
            Some(v) => v == answers_sum(rmq.values(), queries@),
            None => answers_sum(rmq.values(), queries@) > u64::MAX,
        },
{
    let mut sum: u64 = 0;
    let mut k: usize = 0;
    while k < queries.len()
        invariant
            rmq.well_formed(),
            forall|k: int|
                0 <= k < queries@.len() ==> rmq.admits(#[trigger] queries@[k].0 as int, queries@[k].1 as int),
            k <= queries@.len(),
            sum == answers_sum(rmq.values(), queries@.take(k as int)),
        decreases queries@.len() - k,
    {
        let (l, r) = queries[k];
        let m = rmq.query(l, r);
        proof {
            assert(queries@.take(k + 1).drop_last() == queries@.take(k as int));
        }
        match sum.checked_add(m) {
            Some(next) => {
                sum = next;
            },
            None => {
                proof {
                    lemma_answers_sum_prefix(rmq.values(), queries@, k + 1);
                }
                return None;
            },
        }
        k = k + 1;
    }
    proof {
        assert(queries@.take(queries@.len() as int) == queries@);
    }
    Some(sum)
}

/// Adding one more query adds its answer, the minimum of
/// `vals[q.0 ..= q.1]`, to the sum; repeated queries count every time.
pub proof fn lemma_answers_sum_push(vals: Seq<u64>, queries: Seq<(usize, usize)>, q: (usize, usize))
    ensures
        answers_sum(vals, queries.push(q)) == answers_sum(vals, queries) + range_min(
            vals,
            q.0 as int,
            q.1 + 1,
        ),
{
    assert(queries.push(q).drop_last() == queries);
}

/// The sum over two lists of queries, one after the other, is the sum of
/// their sums; the empty list sums to 0.
pub proof fn lemma_answers_sum_concat(
    vals: Seq<u64>,
    a: Seq<(usize, usize)>,
    b: Seq<(usize, usize)>,
)
    ensures
        answers_sum(vals, a + b) == answers_sum(vals, a) + answers_sum(vals, b),
        answers_sum(vals, Seq::empty()) == 0,
    decreases b.len(),
{
    if b.len() == 0 {
        assert(a + b == a);
    } else {
        lemma_answers_sum_concat(vals, a, b.drop_last());
        assert((a + b).drop_last() == a + b.drop_last());
        assert((a + b).last() == b.last());
    }
}

/// A single query sums to its answer.
pub proof fn lemma_answers_sum_single(vals: Seq<u64>, q: (usize, usize))
    ensures
        answers_sum(vals, seq![q]) == range_min(vals, q.0 as int, q.1 + 1),
{
    lemma_answers_sum_push(vals, Seq::empty(), q);
    assert(Seq::<(usize, usize)>::empty().push(q) == seq![q]);
}

} // verus!
