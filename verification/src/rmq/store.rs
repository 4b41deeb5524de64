//! Stores the answer of every query: the answers for ranges starting at `l`
//! are laid out one after another, row `l` holding `r = l, l + 1, ..., n - 1`.
use vstd::prelude::*;
use crate::rmq::Rmq;
use crate::rmq::range_min::range_min;

verus! {

pub struct Store {
    n: usize,
    results: Vec<u64>,
}

/// Position of the first answer of row `l`: the number of ranges that start
/// before `l`, i.e. `n + (n - 1) + ... + (n - l + 1)`.
pub open spec fn row_start(n: int, l: int) -> int
    decreases l,
{
    if l <= 0 {
        0
    } else {
        row_start(n, l - 1) + (n - (l - 1))
    }
}

/// Number of ranges `[l, r]` with `l <= r < n`.
pub open spec fn num_ranges(n: int) -> int {
    n * (n + 1) / 2
}

/// The closed form the query computes: `row_start(n, l) == l * (2n - l + 1) / 2`.
pub proof fn lemma_row_start_closed_form(n: int, l: int)
    requires
        0 <= l,
    ensures
        2 * row_start(n, l) == l * (2 * n - l + 1),
        row_start(n, l) == l * (2 * n - l + 1) / 2,
    decreases l,
{
    if l > 0 {
        lemma_row_start_closed_form(n, l - 1);
        assert(l * (2 * n - l + 1) == (l - 1) * (2 * n - (l - 1) + 1) + 2 * (n - (l - 1)))
            by (nonlinear_arith);
    }
}

/// Rows start no later than the end of the table.
pub proof fn lemma_row_start_bounds(n: int, l: int)
    requires
        0 <= l <= n,
    ensures
        0 <= row_start(n, l) <= row_start(n, n),
        row_start(n, n) == num_ranges(n),
        row_start(n, l) + (n - l) <= row_start(n, n),
    decreases n - l,
{
    lemma_row_start_closed_form(n, n);
    assert(n * (2 * n - n + 1) == n * (n + 1)) by (nonlinear_arith);
    if l < n {
        lemma_row_start_bounds(n, l + 1);
    }
    lemma_row_start_nonneg(n, l);
}

proof fn lemma_row_start_nonneg(n: int, l: int)
    requires
        0 <= l <= n,
    ensures
        0 <= row_start(n, l),
    decreases l,
{
    if l > 0 {
        lemma_row_start_nonneg(n, l - 1);
    }
}

/// An input length is accepted when the table of all answers fits in one allocation.
pub open spec fn store_fits(n: nat) -> bool {
    num_ranges(n as int) * 8 <= isize::MAX
}

impl Store {
    /// The answer stored for the range `[l, r]`.
    pub closed spec fn answer(&self, l: int, r: int) -> u64 {
        self.results@[row_start(self.n as int, l) + (r - l)]
    }

    /// Row `l`, column `r - l` holds the minimum of `values[l..=r]`.
    pub proof fn lemma_stored_answers(&self, l: int, r: int)
        requires
            self.well_formed(),
            0 <= l <= r < self.values().len(),
        ensures
            self.answer(l, r) == range_min(self.values(), l, r + 1),
    {
    }

    /// Number of stored answers.
    pub closed spec fn results_len(&self) -> nat {
        self.results@.len()
    }
}

impl<'a> Rmq<'a> for Store {
    closed spec fn values(&self) -> Seq<u64> {
        Seq::new(self.n as nat, |i: int| self.answer(i, i))
    }

    closed spec fn well_formed(&self) -> bool {
        &&& store_fits(self.n as nat)
        &&& self.results@.len() == num_ranges(self.n as int)
        &&& forall|l: int, r: int|
            0 <= l <= r < self.n ==> #[trigger] self.answer(l, r) == range_min(self.values(), l, r + 1)
    }

    open spec fn admits(&self, l: int, r: int) -> bool {
        0 <= l <= r < self.values().len()
    }

    proof fn lemma_admits_ranges(&self, l: int, r: int) {
    }

    fn can_query(&self, l: usize, r: usize) -> (b: bool) {
        l <= r && r < self.n
    }

    open spec fn buildable(n: nat) -> bool {
        store_fits(n)
    }

    fn name() -> (s: String)
        ensures
            s@ == "CachedQuery"@,
    {
        "CachedQuery".to_string()
    }

    fn max_n() -> (m: usize)
        ensures
            m == 10_000,
    {
        10_000
    }

    fn can_build(n: usize) -> (b: bool) {
        if n >= usize::MAX / 2 {
            proof {
                assert(n * (n + 1) / 2 * 8 > isize::MAX) by (nonlinear_arith)
                    requires n >= usize::MAX / 2;
            }
            return false;
        }
        match n.checked_mul(n + 1) {
            Some(p) => p / 2 <= (isize::MAX as usize) / 8,
            None => {
                proof {
                    assert(n * (n + 1) / 2 * 8 > isize::MAX) by (nonlinear_arith)
                        requires n * (n + 1) > usize::MAX;
                }
                false
            },
        }
    }

    fn build(data: &'a [u64]) -> (s: Self)
        ensures
            s.results_len() == num_ranges(data@.len() as int),
    {
        let n = data.len();
        proof {
            lemma_row_start_bounds(n as int, 0);
            assert(n * (n + 1) <= 2 * num_ranges(n as int) + 1) by (nonlinear_arith)
                requires num_ranges(n as int) == n * (n + 1) / 2;
        }
        let mut results = Vec::with_capacity(n * (n + 1) / 2);

        let mut l: usize = 0;
        while l < n
            invariant
                n == data@.len(),
                store_fits(n as nat),
                l <= n,
                results@.len() == row_start(n as int, l as int),
                forall|a: int, b: int|
                    0 <= a < l && a <= b < n ==> #[trigger] results@[row_start(n as int, a) + (b - a)]
                        == range_min(data@, a, b + 1),
            decreases n - l,
        {
            proof {
                lemma_row_start_bounds(n as int, l as int);
            }
            let mut min = u64::MAX;
            let mut r: usize = l;
            while r < n
                invariant
                    n == data@.len(),
                    store_fits(n as nat),
                    l < n,
                    l <= r <= n,
                    results@.len() == row_start(n as int, l as int) + (r - l),
                    min == range_min(data@, l as int, r as int),
                    forall|a: int, b: int|
                        0 <= a < l && a <= b < n ==> #[trigger] results@[row_start(n as int, a) + (b - a)]
                            == range_min(data@, a, b + 1),
                    forall|b: int|
                        l <= b < r ==> #[trigger] results@[row_start(n as int, l as int) + (b - l)]
                            == range_min(data@, l as int, b + 1),
                decreases n - r,
            {
                min = min.min(data[r]);
                proof {
                    lemma_row_start_bounds(n as int, l as int);
                    lemma_row_start_bounds(n as int, 0);
                }
                let ghost before = results@;
                results.push(min);
                proof {
                    assert(results@ == before.push(min));
                    assert forall|a: int, b: int|
                        0 <= a < l && a <= b < n implies #[trigger] results@[row_start(n as int, a) + (b - a)]
                            == range_min(data@, a, b + 1) by {
                        lemma_row_start_bounds(n as int, a + 1);
                        lemma_row_start_bounds(n as int, a);
                        lemma_row_start_monotonic(n as int, a + 1, l as int);
                        assert(row_start(n as int, a + 1) == row_start(n as int, a) + (n - a));
                        assert(row_start(n as int, a) + (b - a) < before.len());
                        assert(before[row_start(n as int, a) + (b - a)] == range_min(data@, a, b + 1));
                        assert(results@[row_start(n as int, a) + (b - a)] == before[row_start(n as int, a) + (b - a)]);
                    }
                    assert forall|b: int|
                        l <= b < r + 1 implies #[trigger] results@[row_start(n as int, l as int) + (b - l)]
                            == range_min(data@, l as int, b + 1) by {
                        if b < r {
                            assert(before[row_start(n as int, l as int) + (b - l)] == range_min(data@, l as int, b + 1));
                        }
                    }
                }
                r = r + 1;
            }
            proof {
                assert forall|a: int, b: int|
                    0 <= a < l + 1 && a <= b < n implies #[trigger] results@[row_start(n as int, a) + (b - a)]
                        == range_min(data@, a, b + 1) by {
                    if a == l {
                        assert(results@[row_start(n as int, l as int) + (b - l)] == range_min(data@, l as int, b + 1));
                    }
                }
            }
            l = l + 1;
        }
        let s = Self { n, results };
        proof {
            assert forall|i: int| 0 <= i < n implies #[trigger] s.answer(i, i) == data@[i] by {
                assert(range_min(data@, i, i) == u64::MAX);
            }
            assert(s.values() =~= data@);
        }
        s
    }

    fn space(&self) -> (b: usize)
        ensures
            b == vstd::layout::size_of::<Store>() + self.results_len() * 8,
    {
        broadcast use vstd::layout::layout_of_primitives;

        vstd::layout::layout_for_type_is_valid::<Store>();
        core::mem::size_of::<Store>() + self.results.len() * core::mem::size_of::<u64>()
    }

    fn query(&self, l: usize, r: usize) -> (m: u64) {
        proof {
            assert(self.values().len() == self.n);
            lemma_row_start_closed_form(self.n as int, l as int);
            lemma_row_start_bounds(self.n as int, l as int);
            lemma_row_start_closed_form(self.n as int, self.n as int);
            assert(l * (2 * self.n - l + 1) <= self.n * (self.n + 1)) by (nonlinear_arith)
                requires l <= self.n;
            assert(self.n * (self.n + 1) <= 2 * num_ranges(self.n as int) + 1) by (nonlinear_arith)
                requires num_ranges(self.n as int) == self.n * (self.n + 1) / 2;
            assert(self.answer(l as int, r as int) == range_min(self.values(), l as int, r + 1));
            assert(2 * self.n <= self.n * (self.n + 1)) by (nonlinear_arith);
        }
        // The index of the result for the range [l, r] in the flattened results vector.
        // The number of elements before the index is the sum of the lengths of all
        // ranges starting at indices 0 to l-1, plus the offset (r - l) in the range starting at index l.
        let idx = l * (2 * self.n - l + 1) / 2 + (r - l);
        self.results[idx]
    }
}

/// Rows start in order.
proof fn lemma_row_start_monotonic(n: int, a: int, b: int)
    requires
        0 <= a <= b <= n,
    ensures
        row_start(n, a) <= row_start(n, b),
    decreases b - a,
{
    if a < b {
        lemma_row_start_monotonic(n, a, b - 1);
    }
}


impl Store {
    /// A store is built exactly when its `n (n + 1) / 2` answers of 8 bytes
    /// fit in one allocation.
    pub proof fn lemma_accepted_lengths(n: nat)
        ensures
            <Store as Rmq<'static>>::buildable(n) <==> n * (n + 1) / 2 * 8 <= isize::MAX,
    {
    }
}

} // verus!
