//! Sparse table: level `j` holds the minimum of every window of `2^j` values,
//! so any range is covered by two (possibly overlapping) windows.
use vstd::prelude::*;
use crate::rmq::Rmq;
use crate::rmq::range_min::{lemma_range_min_cover, range_min};
use crate::rmq::util::{exp2, ilog2, lemma_exp2_monotonic, lemma_log2_bounds, lemma_log2_is_largest, lemma_shl_is_exp2, log2};

verus! {

pub struct SparseTable {
    n: usize,
    table: Vec<u64>,  // level j occupies table[j*n .. (j+1)*n]
}

/// Number of levels of a sparse table over `n` values.
pub open spec fn levels(n: nat) -> nat {
    log2(n) + 1
}

/// Entries of a table over `n` values; an input length is accepted when
/// the table's bytes fit in one allocation.
pub open spec fn table_fits(n: nat) -> bool {
    n >= 1 && levels(n) * n * 8 <= isize::MAX
}

/// Offsets of distinct levels do not collide.
proof fn lemma_level_offsets(n: int, j: int, i: int, l: int, k: int)
    requires
        0 <= j < l,
        0 <= i < n,
        0 <= k,
    ensures
        j * n + i < l * n + k,
        j * n + i < l * n,
{
    assert(j * n + n <= l * n) by (nonlinear_arith)
        requires
            j < l,
            n >= 0,
    ;
}

/// The last entry of a level lies inside the table.
proof fn lemma_in_level(n: int, j: int, i: int, levels: int)
    requires
        0 <= j < levels,
        0 <= i < n,
    ensures
        0 <= j * n + i < levels * n,
        0 <= j * n,
{
    assert(0 <= j * n && j * n + n <= levels * n) by (nonlinear_arith)
        requires
            0 <= j < levels,
            n >= 0,
    ;
}

impl SparseTable {
    /// The value stored for the window of level `j` that starts at `i`.
    pub closed spec fn entry(&self, j: int, i: int) -> u64 {
        self.table@[j * self.n + i]
    }

    /// Number of entries of the table.
    pub closed spec fn table_len(&self) -> nat {
        self.table@.len()
    }

    /// What the invariant says of the table's size.
    pub proof fn lemma_table_len(&self)
        requires
            self.well_formed(),
        ensures
            self.values().len() >= 1,
            self.table_len() == levels(self.values().len()) * self.values().len(),
            self.table_len() * 8 <= isize::MAX,
    {
        lemma_in_level(self.n as int, 0, self.n - 1, levels(self.n as nat) as int);
    }

    /// Level `j` holds the minimum of every window of `2^j` values.
    pub proof fn lemma_window_minima(&self, j: int, i: int)
        requires
            self.well_formed(),
            0 <= j < levels(self.values().len()),
            0 <= i,
            i + exp2(j as nat) <= self.values().len(),
        ensures
            self.entry(j, i) == range_min(self.values(), i, i + exp2(j as nat)),
    {
        lemma_in_level(self.n as int, 0, self.n - 1, levels(self.n as nat) as int);
        assert(self.values() == self.table@.subrange(0, self.n as int));
        assert(self.values().len() == self.n);
        assert(self.entry(j, i) == range_min(
            self.table@.subrange(0, self.n as int),
            i,
            i + exp2(j as nat),
        ));
    }

    /// Bytes the table holds on the heap.
    pub fn heap_bytes(&self) -> (b: usize)
        requires
            self.well_formed(),
        ensures
            b == self.table_len() * 8,
    {
        broadcast use vstd::layout::layout_of_primitives;

        self.table.len() * core::mem::size_of::<u64>()
    }
}

impl<'a> Rmq<'a> for SparseTable {
    closed spec fn values(&self) -> Seq<u64> {
        self.table@.subrange(0, self.n as int)
    }

    closed spec fn well_formed(&self) -> bool {
        &&& table_fits(self.n as nat)
        &&& self.table@.len() == levels(self.n as nat) * self.n
        &&& forall|j: int, i: int|
            0 <= j < levels(self.n as nat) && 0 <= i && i + exp2(j as nat) <= self.n
                ==> #[trigger] self.entry(j, i) == range_min(
                self.table@.subrange(0, self.n as int),
                i,
                i + exp2(j as nat),
            )
    }

    open spec fn admits(&self, l: int, r: int) -> bool {
        0 <= l <= r < self.values().len()
    }

    proof fn lemma_admits_ranges(&self, l: int, r: int) {
    }

    fn can_query(&self, l: usize, r: usize) -> (b: bool) {
        proof {
            lemma_in_level(self.n as int, 0, self.n - 1, levels(self.n as nat) as int);
        }
        l <= r && r < self.n
    }

    open spec fn buildable(n: nat) -> bool {
        table_fits(n)
    }

    fn name() -> (s: String)
        ensures
            s@ == "SparseTable"@,
    {
        "SparseTable".to_string()
    }

    fn max_n() -> (m: usize)
        ensures
            m == 10_000_000,
    {
        10_000_000
    }

    fn can_build(n: usize) -> (b: bool) {
        if n == 0 {
            return false;
        }
        let levels = ilog2(n) + 1;
        match levels.checked_mul(n) {
            Some(cells) => cells <= (isize::MAX as usize) / 8,
            None => false,
        }
    }

    fn build(data: &'a [u64]) -> (s: Self)
        ensures
            s.table_len() == levels(data@.len()) * data@.len(),
    {
        let n = data.len();
        let levels = ilog2(n) + 1;
        proof {
            lemma_in_level(n as int, 0, 0, levels as int);
            assert(levels * n >= n) by (nonlinear_arith)
                requires levels >= 1;
        }
        // We are allocating a little too much memory, but it does not change
        // the asymptotic space.
        let mut table = vec![0u64; levels * n];

        // 0th level: Window of size 1
        let mut i: usize = 0;
        while i < n
            invariant
                n == data@.len(),
                table@.len() == levels * n,
                levels * n >= n,
                i <= n,
                forall|k: int| 0 <= k < i ==> table@[k] == data@[k],
            decreases n - i,
        {
            table.set(i, data[i]);
            i = i + 1;
        }
        proof {
            assert(exp2(0) == 1);
            assert forall|j: int, k: int|
                0 <= j < 1 && 0 <= k && k + exp2(j as nat) <= n
                    implies #[trigger] table@[j * n + k] == range_min(data@, k, k + exp2(j as nat)) by {
                assert(range_min(data@, k, k) == u64::MAX);
            }
        }

        let mut l: usize = 1;
        while l < levels
            invariant
                n == data@.len(),
                n >= 1,
                levels == log2(n as nat) + 1,
                table@.len() == levels * n,
                table_fits(n as nat),
                1 <= l <= levels,
                forall|k: int| 0 <= k < n ==> table@[k] == data@[k],
                forall|j: int, k: int|
                    0 <= j < l && 0 <= k && k + exp2(j as nat) <= n
                        ==> #[trigger] table@[j * n + k] == range_min(data@, k, k + exp2(j as nat)),
            decreases levels - l,
        {
            proof {
                lemma_log2_bounds(n as nat);
                lemma_exp2_monotonic(l as nat, log2(n as nat));
                lemma_shl_is_exp2(l);
                lemma_shl_is_exp2((l - 1) as usize);
                lemma_exp2_monotonic(0, (l - 1) as nat);
                lemma_in_level(n as int, l as int, 0, levels as int);
                lemma_in_level(n as int, (l - 1) as int, 0, levels as int);
            }
            // 2^l * 1/2
            let half = 1usize << (l - 1);
            // The number of elements in the current level is n - 2^l + 1
            let len = n - (1usize << l) + 1;
            let prev = (l - 1) * n;
            let cur = l * n;
            let mut i: usize = 0;
            while i < len
                invariant
                    n == data@.len(),
                    n >= 1,
                    levels == log2(n as nat) + 1,
                    table@.len() == levels * n,
                    table_fits(n as nat),
                    1 <= l < levels,
                    half == exp2((l - 1) as nat),
                    half >= 1,
                    exp2(l as nat) == 2 * half,
                    len == n - exp2(l as nat) + 1,
                    prev == (l - 1) * n,
                    cur == l * n,
                    i <= len,
                    forall|k: int| 0 <= k < n ==> table@[k] == data@[k],
                    forall|j: int, k: int|
                        0 <= j < l && 0 <= k && k + exp2(j as nat) <= n
                            ==> #[trigger] table@[j * n + k] == range_min(data@, k, k + exp2(j as nat)),
                    forall|k: int|
                        0 <= k < i ==> #[trigger] table@[cur + k] == range_min(data@, k, k + exp2(l as nat)),
                decreases len - i,
            {
                proof {
                    lemma_in_level(n as int, l as int, i as int, levels as int);
                    lemma_in_level(n as int, (l - 1) as int, i as int, levels as int);
                    lemma_in_level(n as int, (l - 1) as int, (i + half) as int, levels as int);
                }
                let x = table[prev + i];
                let y = table[prev + i + half];
                proof {
                    let j1 = (l - 1) as int;
                    assert(table@[j1 * n + i] == range_min(data@, i as int, i + exp2(j1 as nat)));
                    assert(table@[j1 * n + (i + half)] == range_min(data@, i + half, i + half + exp2(j1 as nat)));
                    assert(x == range_min(data@, i as int, i + half));
                    assert(y == range_min(data@, i + half, i + half + half));
                    lemma_range_min_cover(data@, i as int, i + half, i + half, i + 2 * half);
                }
                table.set(cur + i, x.min(y));
                proof {
                    assert forall|j: int, k: int|
                        0 <= j < l && 0 <= k && k + exp2(j as nat) <= n
                            implies #[trigger] table@[j * n + k] == range_min(data@, k, k + exp2(j as nat)) by {
                        lemma_exp2_monotonic(0, j as nat);
                        lemma_level_offsets(n as int, j, k, l as int, i as int);
                    }
                    assert forall|k: int| 0 <= k < n implies table@[k] == data@[k] by {
                        lemma_level_offsets(n as int, 0, k, l as int, i as int);
                    }
                }
                i = i + 1;
            }
            l = l + 1;
        }
        let s = Self { n, table };
        proof {
            assert(s.values() =~= data@);
        }
        s
    }

    fn space(&self) -> (b: usize)
        ensures
            b == vstd::layout::size_of::<SparseTable>() + self.table_len() * 8,
    {
        vstd::layout::layout_for_type_is_valid::<SparseTable>();
        core::mem::size_of::<SparseTable>() + self.heap_bytes()
    }

    fn query(&self, l: usize, r: usize) -> (m: u64) {
        let ghost vals = self.table@.subrange(0, self.n as int);
        proof {
            lemma_in_level(self.n as int, 0, self.n - 1, levels(self.n as nat) as int);
            assert(self.values() == vals);
        }
        let j = ilog2(r - l + 1);
        proof {
            lemma_log2_is_largest(self.n as nat, j as nat);
            lemma_shl_is_exp2(j);
            lemma_in_level(self.n as int, j as int, l as int, levels(self.n as nat) as int);
            lemma_in_level(
                self.n as int,
                j as int,
                r + 1 - exp2(j as nat),
                levels(self.n as nat) as int,
            );
        }
        let base = j * self.n;
        let a = self.table[base + l];
        let b = self.table[base + r + 1 - (1usize << j)];
        proof {
            assert(self.entry(j as int, l as int) == range_min(vals, l as int, l + exp2(j as nat)));
            let d = r + 1 - exp2(j as nat);
            assert(self.entry(j as int, d) == range_min(vals, d, d + exp2(j as nat)));
            lemma_range_min_cover(vals, l as int, d, l + exp2(j as nat), r + 1);
        }
        a.min(b)
    }
}


impl SparseTable {
    /// A sparse table is built exactly over a nonempty input whose
    /// `floor(log2(n)) + 1` levels of `n` entries of 8 bytes fit in one
    /// allocation.
    pub proof fn lemma_accepted_lengths(n: nat)
        ensures
            <SparseTable as Rmq<'static>>::buildable(n) <==> (n >= 1 && (log2(n) + 1) * n * 8
                <= isize::MAX),
    {
    }
}

} // verus!
