//! Block decompositions: the values are cut into blocks of `S`, a sparse
//! table answers for runs of whole blocks, and the partial blocks at either
//! end of a query are handled on their own.
use vstd::prelude::*;
use crate::rmq::Rmq;
use crate::rmq::range_min::{
    lemma_range_min_cover, lemma_range_min_split, lemma_range_min_subrange, min_u64, range_min,
};
use crate::rmq::sparse_table::{levels, table_fits, SparseTable};
use crate::rmq::util::{ilog2, log2, min_of, sized_name};

verus! {

/// Number of blocks of size `s` that `n` values make (the last may be short).
pub open spec fn num_blocks(n: int, s: int) -> int {
    (n + s - 1) / s
}

/// End (exclusive) of block `b`.
pub open spec fn block_end(n: int, s: int, b: int) -> int {
    if (b + 1) * s <= n {
        (b + 1) * s
    } else {
        n
    }
}

/// `minima[b]` is the minimum of block `b` of `data`, for every block.
pub open spec fn block_minima(data: Seq<u64>, s: int, minima: Seq<u64>) -> bool {
    &&& minima.len() == num_blocks(data.len() as int, s)
    &&& forall|b: int|
        0 <= b < minima.len() ==> #[trigger] minima[b] == range_min(
            data,
            b * s,
            block_end(data.len() as int, s, b),
        )
}

/// An input length is accepted for blocks of size `s` when `s >= 1`, index
/// arithmetic up to `n + s` fits, and the sparse table over the block minima
/// fits in memory.
pub open spec fn blocks_fit(n: nat, s: nat) -> bool {
    &&& s >= 1
    &&& n + s <= usize::MAX
    &&& table_fits(num_blocks(n as int, s as int) as nat)
}

/// Division facts: `q = x / s` satisfies `q * s <= x < q * s + s`.
pub proof fn lemma_div_bounds(x: int, s: int)
    requires
        x >= 0,
        s >= 1,
    ensures
        (x / s) * s <= x < (x / s) * s + s,
        x / s >= 0,
{
    vstd::arithmetic::div_mod::lemma_fundamental_div_mod(x, s);
    vstd::arithmetic::div_mod::lemma_mod_bound(x, s);
    vstd::arithmetic::div_mod::lemma_div_pos_is_pos(x, s);
    assert((x / s) * s == s * (x / s)) by (nonlinear_arith);
}

/// Block `b` exists exactly when it starts before `n`.
pub proof fn lemma_num_blocks(n: int, s: int, b: int)
    requires
        n >= 0,
        s >= 1,
        b >= 0,
    ensures
        b < num_blocks(n, s) <==> b * s < n,
        num_blocks(n, s) * s >= n,
        num_blocks(n, s) >= 0,
{
    lemma_div_bounds(n + s - 1, s);
    let q = num_blocks(n, s);
    assert((q - 1) * s == q * s - s) by (nonlinear_arith);
    if b < q {
        assert(b * s <= (q - 1) * s) by (nonlinear_arith)
            requires b <= q - 1, s >= 1;
    } else {
        assert(b * s >= q * s) by (nonlinear_arith)
            requires b >= q, s >= 1;
    }
    if n > 0 {
        assert(q >= 1) by (nonlinear_arith)
            requires q * s > n - 1 >= 0, s >= 1;
    }
}

/// A position inside block `b` belongs to block `b`.
pub proof fn lemma_in_block(i: int, b: int, s: int)
    requires
        s >= 1,
        b >= 0,
        b * s <= i < b * s + s,
    ensures
        i / s == b,
{
    lemma_div_bounds(i, s);
    let q = i / s;
    if q < b {
        assert(q * s + s <= b * s) by (nonlinear_arith)
            requires q < b, s >= 1;
    } else if q > b {
        assert(b * s + s <= q * s) by (nonlinear_arith)
            requires q > b, s >= 1;
    }
}

/// Products of block numbers and the block size are ordered as the numbers are.
pub proof fn lemma_mul_le(a: int, b: int, s: int)
    requires
        a <= b,
        s >= 0,
    ensures
        a * s <= b * s,
{
    assert(a * s <= b * s) by (nonlinear_arith)
        requires a <= b, s >= 0;
}

/// The minimum over whole blocks `lb..rb` is the minimum over their values.
pub proof fn lemma_whole_blocks(data: Seq<u64>, s: int, minima: Seq<u64>, lb: int, rb: int)
    requires
        s >= 1,
        block_minima(data, s, minima),
        0 <= lb <= rb,
        rb * s <= data.len(),
    ensures
        range_min(minima, lb, rb) == range_min(data, lb * s, rb * s),
    decreases rb - lb,
{
    let n = data.len() as int;
    if lb < rb {
        lemma_mul_le(lb, rb - 1, s);
        lemma_mul_le(rb - 1, rb, s);
        lemma_whole_blocks(data, s, minima, lb, rb - 1);
        lemma_num_blocks(n, s, rb - 1);
        assert(rb * s == (rb - 1) * s + s) by (nonlinear_arith);
        assert(minima[rb - 1] == range_min(data, (rb - 1) * s, rb * s));
        lemma_range_min_split(data, lb * s, (rb - 1) * s, rb * s);
    } else {
        assert(range_min(data, lb * s, rb * s) == u64::MAX);
    }
}

/// The minimum of every block of `data`, the blocks cut at multiples of `S`.
fn block_minima_of<const S: usize>(data: &[u64]) -> (minima: Vec<u64>)
    requires
        S >= 1,
        data@.len() + S <= usize::MAX,
    ensures
        block_minima(data@, S as int, minima@),
{
    let n = data.len();
    let mut minima: Vec<u64> = Vec::new();
    let mut start: usize = 0;
    let ghost mut b: int = 0;
    while start < n
        invariant
            n == data@.len(),
            S >= 1,
            n + S <= usize::MAX,
            b >= 0,
            start == (if b * S < n { b * S } else { n as int }),
            b == 0 || (b - 1) * S < n,
            start <= n,
            minima@.len() == b,
            forall|k: int|
                0 <= k < b ==> #[trigger] minima@[k] == range_min(
                    data@,
                    k * S,
                    block_end(n as int, S as int, k),
                ),
        decreases n - start,
    {
        let end = if n - start < S { n } else { start + S };
        proof {
            assert((b + 1) * S == b * S + S) by (nonlinear_arith);
            lemma_range_min_subrange(data@, start as int, end as int, 0, end - start);
        }
        minima.push(min_of(&data[start..end]));
        start = end;
        proof {
            b = b + 1;
        }
    }
    proof {
        lemma_num_blocks(n as int, S as int, b);
        if b > 0 {
            lemma_num_blocks(n as int, S as int, b - 1);
        }
    }
    minima
}

pub struct BlockRmq<'a, const S: usize> {
    data: &'a [u64],
    table: SparseTable,
}

impl<'a, const S: usize> BlockRmq<'a, S> {
    /// Entries of the sparse table over the block minima.
    pub closed spec fn table_len(&self) -> nat {
        self.table.table_len()
    }

    /// The values the sparse table is built over.
    pub closed spec fn block_minima_values(&self) -> Seq<u64> {
        self.table.values()
    }

    /// The sparse table is built over the minima of the blocks.
    pub proof fn lemma_block_minima(&self)
        requires
            self.well_formed(),
        ensures
            block_minima(self.values(), S as int, self.block_minima_values()),
    {
    }
}

impl<'a, const S: usize> Rmq<'a> for BlockRmq<'a, S> {
    closed spec fn values(&self) -> Seq<u64> {
        self.data@
    }

    closed spec fn well_formed(&self) -> bool {
        &&& blocks_fit(self.data@.len(), S as nat)
        &&& self.table.well_formed()
        &&& block_minima(self.data@, S as int, self.table.values())
    }

    /// Also the empty range `l == r + 1`: its minimum is `u64::MAX`.
    open spec fn admits(&self, l: int, r: int) -> bool {
        0 <= l <= r + 1 && r < self.values().len()
    }

    proof fn lemma_admits_ranges(&self, l: int, r: int) {
    }

    fn can_query(&self, l: usize, r: usize) -> (b: bool) {
        r < self.data.len() && l <= r + 1
    }

    open spec fn buildable(n: nat) -> bool {
        blocks_fit(n, S as nat)
    }

    fn name() -> (s: String)
        ensures
            s@ == "Block"@ + seq!['<'] + crate::rmq::util::decimal(S as nat) + seq!['>'],
    {
        sized_name("Block", S)
    }

    fn max_n() -> (m: usize)
        ensures
            m == 10_000_000,
    {
        10_000_000
    }

    fn can_build(n: usize) -> (b: bool) {
        if S == 0 || n > usize::MAX - S {
            return false;
        }
        let nb = (n + S - 1) / S;
        <SparseTable as Rmq>::can_build(nb)
    }

    fn build(data: &'a [u64]) -> (s: Self)
        ensures
            s.table_len() == levels(num_blocks(data@.len() as int, S as int) as nat) * num_blocks(
                data@.len() as int,
                S as int,
            ),
    {
        let minima = block_minima_of::<S>(data);
        Self { data, table: SparseTable::build(minima.as_slice()) }
    }

    fn space(&self) -> (b: usize)
        ensures
            b == vstd::layout::size_of::<BlockRmq<'a, S>>() + self.table_len() * 8,
    {
        vstd::layout::layout_for_type_is_valid::<BlockRmq<'a, S>>();
        proof {
            self.table.lemma_table_len();
        }
        core::mem::size_of::<BlockRmq<'a, S>>() + self.table.heap_bytes()
    }

    fn query(&self, l: usize, r: usize) -> (m: u64) {
        let ghost vals = self.data@;
        let ghost n = vals.len() as int;
        let lb = (l + S - 1) / S;  // first fully covered block
        let rb = (r + 1) / S;  // one past last fully covered block
        proof {
            lemma_div_bounds(l + S - 1, S as int);
            lemma_div_bounds(r + 1, S as int);
        }

        if lb >= rb {
            proof {
                lemma_range_min_subrange(vals, l as int, r + 1, 0, r + 1 - l);
            }
            return min_of(&self.data[l..r + 1]);
        }
        proof {
            lemma_mul_le(lb as int, rb as int, S as int);
            self.table.lemma_table_len();
            assert((rb - 1) * S < rb * S) by (nonlinear_arith)
                requires S >= 1;
            lemma_num_blocks(n, S as int, rb - 1);
            lemma_whole_blocks(vals, S as int, self.table.values(), lb as int, rb as int);
            lemma_range_min_split(vals, l as int, lb * S, r + 1);
            lemma_range_min_split(vals, lb * S, rb * S, r + 1);
        }
        let mut min_val = self.table.query(lb, rb - 1);
        if l < lb * S {
            proof {
                lemma_range_min_subrange(vals, l as int, lb * S, 0, lb * S - l);
            }
            min_val = min_val.min(min_of(&self.data[l..lb * S]));
        }
        if rb * S <= r {
            proof {
                lemma_range_min_subrange(vals, rb * S, r + 1, 0, r + 1 - rb * S);
            }
            min_val = min_val.min(min_of(&self.data[rb * S..r + 1]));
        }
        min_val
    }
}

/// An input length is accepted by the precomputing variant when, besides
/// the blocks, the prefix and suffix minima fit in memory together with the
/// sparse table.
pub open spec fn precompute_fits(n: nat, s: nat) -> bool {
    let nb = num_blocks(n as int, s as int) as nat;
    &&& blocks_fit(n, s)
    &&& n * 16 + levels(nb) * nb * 8 <= isize::MAX
}

pub struct PrecomputeBlockRmq<'a, const S: usize> {
    data: &'a [u64],
    table: SparseTable,
    suff: Vec<u64>,
    pref: Vec<u64>,
}

impl<'a, const S: usize> PrecomputeBlockRmq<'a, S> {
    /// Entries of the sparse table over the block minima.
    pub closed spec fn table_len(&self) -> nat {
        self.table.table_len()
    }

    /// `pref[i]` is the minimum from the start of `i`'s block up to `i`.
    pub closed spec fn prefix_minima(&self) -> Seq<u64> {
        self.pref@
    }

    /// `suff[i]` is the minimum from `i` to the end of `i`'s block.
    pub closed spec fn suffix_minima(&self) -> Seq<u64> {
        self.suff@
    }

    /// The values the sparse table is built over.
    pub closed spec fn block_minima_values(&self) -> Seq<u64> {
        self.table.values()
    }

    /// The sparse table is built over the minima of the blocks, and every
    /// position knows the minimum of its block up to it and from it on.
    pub proof fn lemma_block_minima(&self, i: int)
        requires
            self.well_formed(),
            0 <= i < self.values().len(),
        ensures
            block_minima(self.values(), S as int, self.block_minima_values()),
            self.prefix_minima()[i] == range_min(self.values(), (i / S as int) * S, i + 1),
            self.suffix_minima()[i] == range_min(
                self.values(),
                i,
                block_end(self.values().len() as int, S as int, i / S as int),
            ),
    {
    }
}

impl<'a, const S: usize> Rmq<'a> for PrecomputeBlockRmq<'a, S> {
    closed spec fn values(&self) -> Seq<u64> {
        self.data@
    }

    closed spec fn well_formed(&self) -> bool {
        let n = self.data@.len() as int;
        &&& precompute_fits(self.data@.len(), S as nat)
        &&& self.table.well_formed()
        &&& block_minima(self.data@, S as int, self.table.values())
        &&& self.pref@.len() == n
        &&& self.suff@.len() == n
        &&& forall|i: int|
            0 <= i < n ==> #[trigger] self.pref@[i] == range_min(self.data@, (i / S as int) * S, i + 1)
        &&& forall|i: int|
            0 <= i < n ==> #[trigger] self.suff@[i] == range_min(
                self.data@,
                i,
                block_end(n, S as int, i / S as int),
            )
    }

    /// Also the empty range `l == r + 1`: its minimum is `u64::MAX`.
    open spec fn admits(&self, l: int, r: int) -> bool {
        0 <= l <= r + 1 && r < self.values().len()
    }

    proof fn lemma_admits_ranges(&self, l: int, r: int) {
    }

    fn can_query(&self, l: usize, r: usize) -> (b: bool) {
        r < self.data.len() && l <= r + 1
    }

    open spec fn buildable(n: nat) -> bool {
        precompute_fits(n, S as nat)
    }

    fn name() -> (s: String)
        ensures
            s@ == "PrecomputeBlock"@ + seq!['<'] + crate::rmq::util::decimal(S as nat) + seq!['>'],
    {
        sized_name("PrecomputeBlock", S)
    }

    fn max_n() -> (m: usize)
        ensures
            m == 10_000_000,
    {
        10_000_000
    }

    fn can_build(n: usize) -> (b: bool) {
        if S == 0 || n > usize::MAX - S || n > (isize::MAX as usize) / 16 {
            return false;
        }
        let nb = (n + S - 1) / S;
        if !<SparseTable as Rmq>::can_build(nb) {
            return false;
        }
        let cells = (ilog2(nb) + 1) * nb;
        cells <= ((isize::MAX as usize) - n * 16) / 8
    }

    fn build(data: &'a [u64]) -> (s: Self)
        ensures
            s.table_len() == levels(num_blocks(data@.len() as int, S as int) as nat) * num_blocks(
                data@.len() as int,
                S as int,
            ),
            s.prefix_minima().len() == data@.len(),
            s.suffix_minima().len() == data@.len(),
    {
        let n = data.len();
        let mut pref = vec![0u64; n];
        let mut suff = vec![0u64; n];
        let mut minima: Vec<u64> = Vec::new();

        let mut start: usize = 0;
        let ghost mut b: int = 0;
        while start < n
            invariant
                n == data@.len(),
                S >= 1,
                n + S <= usize::MAX,
                b >= 0,
                start == (if b * S < n { b * S } else { n as int }),
                b == 0 || (b - 1) * S < n,
                start <= n,
                pref@.len() == n,
                suff@.len() == n,
                minima@.len() == b,
                forall|k: int|
                    0 <= k < b ==> #[trigger] minima@[k] == range_min(
                        data@,
                        k * S,
                        block_end(n as int, S as int, k),
                    ),
                forall|i: int|
                    0 <= i < start ==> #[trigger] pref@[i] == range_min(data@, (i / S as int) * S, i + 1),
                forall|i: int|
                    0 <= i < start ==> #[trigger] suff@[i] == range_min(
                        data@,
                        i,
                        block_end(n as int, S as int, i / S as int),
                    ),
            decreases n - start,
        {
            let end = if n - start < S { n } else { start + S };
            proof {
                assert((b + 1) * S == b * S + S) by (nonlinear_arith);
                assert(end == block_end(n as int, S as int, b));
            }

            let mut m = u64::MAX;
            let mut i = start;
            while i < end
                invariant
                    n == data@.len(),
                    S >= 1,
                    start == b * S,
                    end == block_end(n as int, S as int, b),
                    start < end <= n,
                    end <= start + S,
                    start <= i <= end,
                    pref@.len() == n,
                    m == range_min(data@, start as int, i as int),
                    forall|k: int|
                        0 <= k < start ==> #[trigger] pref@[k] == range_min(data@, (k / S as int) * S, k + 1),
                    forall|k: int|
                        start <= k < i ==> #[trigger] pref@[k] == range_min(data@, start as int, k + 1),
                decreases end - i,
            {
                m = m.min(data[i]);
                pref.set(i, m);
                i = i + 1;
            }
            minima.push(pref[end - 1]);

            let mut m = u64::MAX;
            let mut i = end;
            while i > start
                invariant
                    n == data@.len(),
                    S >= 1,
                    start == b * S,
                    end == block_end(n as int, S as int, b),
                    start < end <= n,
                    start <= i <= end,
                    suff@.len() == n,
                    m == range_min(data@, i as int, end as int),
                    forall|k: int|
                        0 <= k < start ==> #[trigger] suff@[k] == range_min(
                            data@,
                            k,
                            block_end(n as int, S as int, k / S as int),
                        ),
                    forall|k: int|
                        i <= k < end ==> #[trigger] suff@[k] == range_min(data@, k, end as int),
                decreases i,
            {
                i = i - 1;
                proof {
                    lemma_range_min_split(data@, i as int, i + 1, end as int);
                    assert(range_min(data@, i as int, i as int) == u64::MAX);
                }
                m = m.min(data[i]);
                suff.set(i, m);
            }
            proof {
                assert forall|k: int| 0 <= k < end implies #[trigger] pref@[k] == range_min(
                    data@,
                    (k / S as int) * S,
                    k + 1,
                ) by {
                    if k >= start {
                        lemma_in_block(k, b, S as int);
                    }
                }
                assert forall|k: int| 0 <= k < end implies #[trigger] suff@[k] == range_min(
                    data@,
                    k,
                    block_end(n as int, S as int, k / S as int),
                ) by {
                    if k >= start {
                        lemma_in_block(k, b, S as int);
                    }
                }
            }
            start = end;
            proof {
                b = b + 1;
            }
        }
        proof {
            lemma_num_blocks(n as int, S as int, b);
            if b > 0 {
                lemma_num_blocks(n as int, S as int, b - 1);
            }
        }
        Self { data, table: SparseTable::build(minima.as_slice()), pref, suff }
    }

    fn space(&self) -> (b: usize)
        ensures
            b == vstd::layout::size_of::<PrecomputeBlockRmq<'a, S>>() + self.prefix_minima().len()
                * 8 + self.suffix_minima().len() * 8 + self.table_len() * 8,
    {
        broadcast use vstd::layout::layout_of_primitives;

        vstd::layout::layout_for_type_is_valid::<PrecomputeBlockRmq<'a, S>>();
        proof {
            self.table.lemma_table_len();
        }
        core::mem::size_of::<PrecomputeBlockRmq<'a, S>>() + self.pref.len()
            * core::mem::size_of::<u64>() + self.suff.len() * core::mem::size_of::<u64>()
            + self.table.heap_bytes()
    }

    fn query(&self, l: usize, r: usize) -> (m: u64) {
        let ghost vals = self.data@;
        let ghost n = vals.len() as int;
        let lb = (l + S - 1) / S;  // first fully covered block
        let rb = (r + 1) / S;  // one past last fully covered block
        proof {
            lemma_div_bounds(l + S - 1, S as int);
            lemma_div_bounds(r + 1, S as int);
        }

        if lb >= rb {
            proof {
                lemma_range_min_subrange(vals, l as int, r + 1, 0, r + 1 - l);
            }
            return min_of(&self.data[l..r + 1]);
        }
        let ghost s = S as int;
        let ghost bl = l as int / s;
        let ghost br = r as int / s;
        proof {
            lemma_div_bounds(l as int, s);
            lemma_div_bounds(r as int, s);
            // l's block ends inside the query, r's block starts inside it
            assert(lb <= bl + 1) by (nonlinear_arith)
                requires l < bl * s + s, lb * s < l + s, s >= 1, lb >= 0, bl >= 0;
            assert(bl + 1 <= rb) by (nonlinear_arith)
                requires bl * s <= l, lb * s >= l, lb < rb, s >= 1;
            assert(lb <= br) by (nonlinear_arith)
                requires br * s <= r < br * s + s, rb * s <= r + 1, lb < rb, s >= 1;
            assert(br <= rb) by (nonlinear_arith)
                requires br * s <= r, r + 1 < rb * s + s, s >= 1;
            lemma_mul_le(lb as int, bl + 1, s);
            lemma_mul_le(bl + 1, rb as int, s);
            lemma_mul_le(lb as int, br, s);
            lemma_mul_le(br, rb as int, s);
            assert(block_end(n, s, bl) == (bl + 1) * s);
            assert(self.suff@[l as int] == range_min(vals, l as int, (bl + 1) * s));
            assert(self.pref@[r as int] == range_min(vals, br * s, r + 1));
            self.table.lemma_table_len();
            assert((rb - 1) * s < rb * s) by (nonlinear_arith)
                requires s >= 1;
            lemma_num_blocks(n, s, rb - 1);
            lemma_whole_blocks(vals, s, self.table.values(), lb as int, rb as int);
            lemma_range_min_cover(vals, l as int, lb * s, (bl + 1) * s, rb * s);
            lemma_range_min_cover(vals, l as int, br * s, rb * s, r + 1);
        }
        let min_val = self.table.query(lb, rb - 1);
        let m = self.suff[l].min(self.pref[r]);

        min_val.min(m)
    }
}


impl<'a, const S: usize> BlockRmq<'a, S> {
    /// Blocks of `S >= 1` values are built over every nonempty input whose
    /// index arithmetic fits (`n + S <= usize::MAX`) and whose sparse table
    /// over the `ceil(n / S)` block minima fits in one allocation.
    pub proof fn lemma_accepted_lengths(n: nat)
        ensures
            <BlockRmq<'a, S> as Rmq<'a>>::buildable(n) <==> ({
                let nb = (n + S - 1) / (S as int);
                &&& S >= 1
                &&& n >= 1
                &&& n + S <= usize::MAX
                &&& (log2(nb as nat) + 1) * nb * 8 <= isize::MAX
            }),
    {
        if S >= 1 {
            lemma_num_blocks(n as int, S as int, 0);
        }
    }
}

impl<'a, const S: usize> PrecomputeBlockRmq<'a, S> {
    /// Blocks of `S >= 1` values with prefix and suffix minima are built over
    /// every nonempty input whose index arithmetic fits and whose two arrays
    /// of `n` minima and sparse table over the `ceil(n / S)` block minima fit
    /// in memory together.
    pub proof fn lemma_accepted_lengths(n: nat)
        ensures
            <PrecomputeBlockRmq<'a, S> as Rmq<'a>>::buildable(n) <==> ({
                let nb = (n + S - 1) / (S as int);
                &&& S >= 1
                &&& n >= 1
                &&& n + S <= usize::MAX
                &&& (log2(nb as nat) + 1) * nb * 8 <= isize::MAX
                &&& 16 * n + (log2(nb as nat) + 1) * nb * 8 <= isize::MAX
            }),
    {
        if S >= 1 {
            lemma_num_blocks(n as int, S as int, 0);
        }
    }
}

} // verus!
