//! Cartesian-tree blocks: blocks of `S <= 32` values are classified by the
//! shape of their Cartesian tree; every shape gets one table of local answers,
//! shared by all blocks of that shape, and a sparse table answers for runs of
//! whole blocks.
use vstd::prelude::*;
use std::collections::HashMap;
use crate::rmq::Rmq;
use crate::rmq::block::{
    block_end, block_minima, lemma_div_bounds, lemma_in_block, lemma_mul_le, lemma_num_blocks,
    lemma_whole_blocks, num_blocks,
};
use crate::rmq::range_min::{
    lemma_range_min_split, lemma_range_min_subrange, lemma_range_min_unique, range_min,
};
use crate::rmq::shape::{
    bit, encodes, lemma_encoding_determines_word, lemma_encoding_unique, lemma_local_argmin, lemma_same_shape_same_argmin,
    lemma_shape_ends_with_push, lemma_shape_iff_argmins, lemma_stack_of, local_argmin, pop_count, shape_ops, stack_of,
    stack_values,
};
use crate::rmq::sparse_table::{levels, table_fits, SparseTable};
use crate::rmq::util::{decimal, log2, sized_name};

verus! {

/// Bit `q` of `sig` with bit `b` set.
proof fn lemma_set_bit(sig: u64, b: u64, q: u64)
    requires
        b < 64,
        q < 64,
    ensures
        bit(sig | (1u64 << b), q) == (q == b || bit(sig, q)),
{
    assert(((sig | (1u64 << b)) >> q) & 1u64 == 1u64 <==> (q == b || (sig >> q) & 1u64 == 1u64))
        by (bit_vector)
        requires
            b < 64,
            q < 64,
    ;
}

/// The shape of `block` as a bit string: while the block is read left to
/// right, a push onto the stack of suffix minima adds a 1 bit and each pop a
/// 0 bit. `stack` is scratch space.
fn shape_signature(block: &[u64], stack: &mut Vec<u64>) -> (sig: u64)
    requires
        1 <= block@.len() <= 32,
    ensures
        encodes(sig, shape_ops(block@)),
{
    stack.clear();
    let mut sig = 0u64;
    let mut bits = 0u32;
    let mut k: usize = 0;
    proof {
        assert(block@.take(0) =~= Seq::<u64>::empty());
        assert(stack_values(block@.take(0)) =~= Seq::<u64>::empty());
        assert forall|q: u64| q < 64 implies (#[trigger] bit(sig, q) <==> (q < shape_ops(
            block@.take(0),
        ).len() && shape_ops(block@.take(0))[q as int])) by {
            assert((0u64 >> q) & 1u64 == 0u64) by (bit_vector);
        }
    }
    while k < block.len()
        invariant
            block@.len() <= 32,
            k <= block@.len(),
            stack@ == stack_values(block@.take(k as int)),
            bits == shape_ops(block@.take(k as int)).len(),
            encodes(sig, shape_ops(block@.take(k as int))),
        decreases block@.len() - k,
    {
        let x = block[k];
        let ghost w = block@.take(k as int);
        let ghost st = stack_of(w);
        let ghost ops = shape_ops(w);
        let ghost mut c: nat = 0;
        proof {
            lemma_stack_of(w);
            assert(ops + Seq::new(0, |q: int| false) =~= ops);
            assert(st.take(st.len() as int) =~= st);
            assert(stack_values(w).take(st.len() as int) =~= stack_values(w));
        }
        while stack.len() > 0 && stack[stack.len() - 1] > x
            invariant
                w == block@.take(k as int),
                st == stack_of(w),
                ops == shape_ops(w),
                k < block@.len() <= 32,
                x == block@[k as int],
                c <= st.len(),
                ops.len() + st.len() == 2 * k,
                stack@ == stack_values(w).take(st.len() - c),
                pop_count(w, st, x) == c + pop_count(w, st.take(st.len() - c), x),
                bits == ops.len() + c,
                encodes(sig, ops + Seq::new(c, |q: int| false)),
            decreases stack@.len(),
        {
            proof {
                lemma_stack_of(w);
                let m = st.len() - c;
                let t = st.take(m);
                assert(t.drop_last() =~= st.take(m - 1));
                assert(t.last() == st[m - 1]);
                assert(stack@[m - 1] == w[st[m - 1]]);
                let o1 = ops + Seq::new(c, |q: int| false);
                let o2 = ops + Seq::new(c + 1, |q: int| false);
                assert forall|q: u64| q < 64 implies (#[trigger] bit(sig, q) <==> (q < o2.len()
                    && o2[q as int])) by {
                    if q < o1.len() {
                        assert(o2[q as int] == o1[q as int]);
                    }
                }
            }
            stack.pop();
            bits = bits + 1;
            proof {
                c = c + 1;
                assert(stack@ =~= stack_values(w).take(st.len() - c));
            }
        }
        proof {
            lemma_stack_of(w);
            let m = st.len() - c;
            if m > 0 {
                assert(stack@[m - 1] == w[st[m - 1]]);
                assert(st.take(m).last() == st[m - 1]);
            }
            assert(pop_count(w, st.take(m), x) == 0);
        }
        let ghost before = sig;
        stack.push(x);
        sig = sig | (1u64 << bits);
        bits = bits + 1;
        proof {
            let w2 = block@.take(k + 1);
            assert(w2.drop_last() =~= w);
            assert(w2.last() == x);
            let o1 = ops + Seq::new(c, |q: int| false);
            let o2 = o1.push(true);
            assert(shape_ops(w2) == o2);
            assert forall|q: u64| q < 64 implies (#[trigger] bit(sig, q) <==> (q < o2.len() && o2[q
                as int])) by {
                lemma_set_bit(before, (bits - 1) as u64, q);
                if q < o1.len() {
                    assert(o2[q as int] == o1[q as int]);
                }
            }
            let m = st.len() - c;
            assert(stack_of(w2) == st.take(m).push(w.len() as int));
            assert forall|i: int| 0 <= i < m implies w2[st[i]] == w[st[i]] by {
                assert(0 <= st[i] < w.len());
            }
            assert(stack@ =~= stack_values(w2));
        }
        k = k + 1;
    }
    proof {
        assert(block@.take(block@.len() as int) =~= block@);
    }
    sig
}

/// `0 + 1 + ... + j`: the number of local ranges `[i, j']` with `j' < j`.
pub open spec fn tri(j: int) -> int
    decreases j,
{
    if j <= 0 {
        0
    } else {
        tri(j - 1) + j
    }
}

/// `tri(j) == j * (j + 1) / 2`, the closed form the code computes.
pub proof fn lemma_tri(j: int)
    requires
        j >= 0,
    ensures
        2 * tri(j) == j * (j + 1),
        tri(j) == j * (j + 1) / 2,
        tri(j) >= 0,
        tri(j) >= j,
    decreases j,
{
    if j > 0 {
        lemma_tri(j - 1);
        assert(j * (j + 1) == (j - 1) * j + 2 * j) by (nonlinear_arith);
    }
}

/// `tri` grows with its argument.
proof fn lemma_tri_monotonic(a: int, b: int)
    requires
        0 <= a <= b,
    ensures
        tri(a) <= tri(b),
    decreases b - a,
{
    if a < b {
        lemma_tri_monotonic(a, b - 1);
    }
}

/// Local ranges `[i, j]` of a block of `s` values have distinct flattened
/// indices `tri(j) + i`, all below `tri(s)`.
pub proof fn lemma_local_index(i1: int, j1: int, i2: int, j2: int, s: int)
    requires
        0 <= i1 <= j1 < s,
        0 <= i2 <= j2 < s,
    ensures
        0 <= tri(j1) + i1 < tri(s),
        tri(j1) + i1 == tri(j2) + i2 ==> i1 == i2 && j1 == j2,
{
    lemma_tri(j1);
    lemma_tri_monotonic(j1 + 1, s);
    lemma_tri_monotonic(j2 + 1, s);
    if j1 < j2 {
        lemma_tri_monotonic(j1 + 1, j2);
    } else if j2 < j1 {
        lemma_tri_monotonic(j2 + 1, j1);
    }
}

/// The flattened index of the local range `[i, j]`.
pub open spec fn flat_index(i: int, j: int) -> int {
    tri(j) + i
}

/// Every index below `tri(s)` is the flattened index of some local range
/// `[i, j]` with `i <= j < s`; with `lemma_local_index`, flattening is a
/// bijection onto `0..tri(s)`.
pub proof fn lemma_local_index_onto(s: int, k: int)
    requires
        0 <= k < tri(s),
    ensures
        exists|i: int, j: int| 0 <= i <= j < s && #[trigger] flat_index(i, j) == k,
    decreases s,
{
    if s > 0 {
        if k < tri(s - 1) {
            lemma_local_index_onto(s - 1, k);
            let (i, j) = choose|i: int, j: int| 0 <= i <= j < s - 1 && #[trigger] flat_index(i, j) == k;
            assert(0 <= i <= j < s && flat_index(i, j) == k);
        } else {
            let i = k - tri(s - 1);
            assert(flat_index(i, s - 1) == k);
        }
    }
}

/// Entry `[i, j]` of the table of shape `id`.
pub open spec fn shape_entry(tables: Seq<u8>, s: int, id: int, i: int, j: int) -> int {
    tables[id * tri(s) + tri(j) + i] as int
}

/// `tables` holds, for every shape `id`, the local answers of the block
/// `shapes[id]` that first had that shape.
pub open spec fn shape_tables(tables: Seq<u8>, shapes: Seq<Seq<u64>>, s: int) -> bool {
    &&& tables.len() == shapes.len() * tri(s)
    &&& forall|id: int| 0 <= id < shapes.len() ==> 1 <= #[trigger] shapes[id].len() <= s
    &&& forall|id: int, i: int, j: int|
        0 <= id < shapes.len() && 0 <= i <= j < shapes[id].len() ==> #[trigger] shape_entry(
            tables,
            s,
            id,
            i,
            j,
        ) == local_argmin(shapes[id], i, j)
}

/// The distinct shapes among the blocks of `data`.
pub open spec fn block_shapes(data: Seq<u64>, s: int) -> Set<Seq<bool>> {
    Set::new(
        |o: Seq<bool>|
            exists|b: int|
                0 <= b < num_blocks(data.len() as int, s) && #[trigger] shape_ops(block_of(data, s, b))
                    == o,
    )
}

/// Block `b` of `data`, blocks cut at multiples of `s`.
pub open spec fn block_of(data: Seq<u64>, s: int, b: int) -> Seq<u64> {
    data.subrange(b * s, block_end(data.len() as int, s, b))
}

/// `n / s`, rounded up, as the code computes it.
proof fn lemma_block_count(n: int, s: int)
    requires
        n >= 0,
        s >= 1,
    ensures
        num_blocks(n, s) == n / s + if n % s == 0 { 0int } else { 1int },
{
    lemma_div_bounds(n, s);
    let q = n / s;
    vstd::arithmetic::div_mod::lemma_fundamental_div_mod(n, s);
    assert(q * s == s * q) by (nonlinear_arith);
    if n % s == 0 {
        lemma_in_block(n + s - 1, q, s);
    } else {
        assert((q + 1) * s == q * s + s) by (nonlinear_arith);
        lemma_in_block(n + s - 1, q + 1, s);
    }
}

/// An input length is accepted when `1 <= s <= 32` (so a block's shape fits
/// in 64 bits and its positions in a byte), shape ids fit in a `u32`, and
/// the block table, the shape tables (at most one per block) and the sparse
/// table over the block minima fit in memory together.
pub open spec fn cartesian_fits(n: nat, s: nat) -> bool {
    let nb = num_blocks(n as int, s as int);
    &&& 1 <= s <= 32
    &&& table_fits(nb as nat)
    &&& nb <= 0x1_0000_0000
    &&& nb * 4 + nb * tri(s as int) + levels(nb as nat) * nb * 8 <= isize::MAX
}

/// A slot of shape `id` lies inside the tables of `count` shapes.
proof fn lemma_slot(id: int, k: int, count: int, stride: int)
    requires
        0 <= id < count,
        0 <= k < stride,
    ensures
        0 <= id * stride + k < count * stride,
        (id + 1) * stride <= count * stride,
{
    assert(0 <= id * stride + k < count * stride && (id + 1) * stride <= count * stride)
        by (nonlinear_arith)
        requires
            0 <= id < count,
            0 <= k < stride,
    ;
}

/// The value at a block's local minimum is the minimum of the covered range.
proof fn lemma_block_argmin(data: Seq<u64>, s: int, b: int, i: int, j: int)
    requires
        s >= 1,
        0 <= b * s,
        b * s < data.len(),
        0 <= i <= j < block_of(data, s, b).len(),
    ensures
        b * s + local_argmin(block_of(data, s, b), i, j) < data.len(),
        data[b * s + local_argmin(block_of(data, s, b), i, j)] == range_min(
            data,
            b * s + i,
            b * s + j + 1,
        ),
{
    let w = block_of(data, s, b);
    let e = block_end(data.len() as int, s, b);
    assert((b + 1) * s == b * s + s) by (nonlinear_arith);
    assert(b * s <= e <= data.len());
    let a = local_argmin(w, i, j);
    lemma_local_argmin(w, i, j);
    assert forall|p: int| i <= p < j + 1 implies w[a] <= #[trigger] w[p] by {}
    lemma_range_min_unique(w, i, j + 1, w[a], a);
    lemma_range_min_subrange(data, b * s, e, i, j + 1);
}

pub struct CartesianTree<'a, const S: usize> {
    data: &'a [u64],
    /// Maps every block to the ID of the shape of its cartesian tree
    block_table: Vec<u32>,
    /// Flattened table of all possible local [i, j]
    /// range queries for each unique block shape.
    /// S must be less than or equal to 32 to keep the block
    /// local index inside a single byte.
    tables: Vec<u8>,
    /// Sparse table over per block minima values.
    sparse_table: SparseTable,
}

impl<'a, const S: usize> CartesianTree<'a, S> {
    /// Number of entries per shape table <-> number of possible local [i, j] range queries
    fn stride() -> (r: usize)
        requires
            S <= 32,
        ensures
            r == tri(S as int),
            r <= 528,
    {
        proof {
            lemma_tri(S as int);
            lemma_tri(32);
            lemma_tri_monotonic(S as int, 32);
            assert(S * (S + 1) <= 32 * 33) by (nonlinear_arith)
                requires S <= 32;
        }
        S * (S + 1) / 2
    }

    /// Flattened index of the [i, j] query in a block.
    pub fn index(i: usize, j: usize) -> (k: usize)
        requires
            i <= j < S,
            j * (j + 1) <= usize::MAX,
        ensures
            k == tri(j as int) + i,
    {
        proof {
            lemma_tri(j as int);
        }
        j * (j + 1) / 2 + i
    }

    /// Entry `[i, j]` of the table of block `b`'s shape.
    pub closed spec fn entry(&self, b: int, i: int, j: int) -> int {
        shape_entry(self.tables@, S as int, self.block_table@[b] as int, i, j)
    }

    /// Number of blocks recorded in the block table.
    pub closed spec fn block_table_len(&self) -> nat {
        self.block_table@.len()
    }

    /// Number of bytes of the shape tables.
    pub closed spec fn tables_len(&self) -> nat {
        self.tables@.len()
    }

    /// Entries of the sparse table over the block minima.
    pub closed spec fn table_len(&self) -> nat {
        self.sparse_table.table_len()
    }

    /// The values the sparse table is built over.
    pub closed spec fn block_minima_values(&self) -> Seq<u64> {
        self.sparse_table.values()
    }

    /// The id of block `b`'s shape.
    pub closed spec fn shape_id(&self, b: int) -> int {
        self.block_table@[b] as int
    }

    /// Some block has shape `id`.
    pub open spec fn id_in_use(&self, id: int) -> bool {
        exists|b: int|
            0 <= b < num_blocks(self.values().len() as int, S as int) && #[trigger] self.shape_id(b) == id
    }

    /// Number of shape tables.
    pub closed spec fn shape_count(&self) -> int {
        self.tables@.len() as int / tri(S as int)
    }

    /// The sparse table is built over the minima of the blocks.
    pub proof fn lemma_block_minima(&self)
        requires
            self.well_formed(),
        ensures
            block_minima(self.values(), S as int, self.block_minima_values()),
    {
    }

    /// Blocks share a shape id exactly when they have the same shape, that
    /// is, the same length and their leftmost minima at the same places for
    /// every local range; every id is used, and there is one shape table of
    /// `S (S + 1) / 2` entries per distinct shape.
    pub proof fn lemma_shape_ids(&self)
        requires
            self.well_formed(),
        ensures
            self.tables_len() == self.shape_count() * tri(S as int),
            self.shape_count() == block_shapes(self.values(), S as int).len(),
            forall|b: int|
                0 <= b < num_blocks(self.values().len() as int, S as int) ==> 0 <= #[trigger] self.shape_id(b)
                    < self.shape_count(),
            forall|id: int| 0 <= id < self.shape_count() ==> #[trigger] self.id_in_use(id),
            forall|b1: int, b2: int|
                0 <= b1 < num_blocks(self.values().len() as int, S as int) && 0 <= b2 < num_blocks(
                    self.values().len() as int,
                    S as int,
                ) ==> (#[trigger] self.shape_id(b1) == #[trigger] self.shape_id(b2) <==> shape_ops(
                    block_of(self.values(), S as int, b1),
                ) == shape_ops(block_of(self.values(), S as int, b2))),
            forall|b1: int, b2: int|
                0 <= b1 < num_blocks(self.values().len() as int, S as int) && 0 <= b2 < num_blocks(
                    self.values().len() as int,
                    S as int,
                ) ==> (#[trigger] self.shape_id(b1) == #[trigger] self.shape_id(b2) <==> {
                    let w1 = block_of(self.values(), S as int, b1);
                    let w2 = block_of(self.values(), S as int, b2);
                    &&& w1.len() == w2.len()
                    &&& forall|i: int, j: int|
                        0 <= i <= j < w1.len() ==> #[trigger] local_argmin(w1, i, j) == local_argmin(
                            w2,
                            i,
                            j,
                        )
                }),
    {
        let nb = num_blocks(self.values().len() as int, S as int);
        assert forall|b: int| 0 <= b < nb implies 0 <= #[trigger] self.shape_id(b) < self.shape_count() by {
            lemma_tri(S as int);
            assert(self.shape_id(b) * tri(S as int) < self.shape_count() * tri(S as int)) by (nonlinear_arith)
                requires
                    (self.shape_id(b) + 1) * tri(S as int) <= self.shape_count() * tri(S as int),
                    tri(S as int) >= 1;
            assert(self.shape_id(b) < self.shape_count()) by (nonlinear_arith)
                requires
                    self.shape_id(b) * tri(S as int) < self.shape_count() * tri(S as int),
                    tri(S as int) >= 1;
        }
        assert forall|b1: int, b2: int|
            0 <= b1 < nb && 0 <= b2 < nb implies (#[trigger] self.shape_id(b1) == #[trigger] self.shape_id(b2)
            <==> {
                let w1 = block_of(self.values(), S as int, b1);
                let w2 = block_of(self.values(), S as int, b2);
                &&& w1.len() == w2.len()
                &&& forall|i: int, j: int|
                    0 <= i <= j < w1.len() ==> #[trigger] local_argmin(w1, i, j) == local_argmin(w2, i, j)
            }) by {
            lemma_shape_iff_argmins(block_of(self.values(), S as int, b1), block_of(self.values(), S as int, b2));
        }
    }

    /// Entry `[i, j]` of block `b`'s shape table is the leftmost minimum of
    /// the block's local range `[i, j]`.
    pub proof fn lemma_block_tables(&self, b: int, i: int, j: int)
        requires
            self.well_formed(),
            0 <= b < num_blocks(self.values().len() as int, S as int),
            0 <= i <= j < block_of(self.values(), S as int, b).len(),
        ensures
            self.entry(b, i, j) == local_argmin(block_of(self.values(), S as int, b), i, j),
    {
    }

    /// Global index of the minimum element inside a block.
    /// Performs a local query on block b for the range [i, j]
    /// and returns the global index of the minimum element in the
    /// global data array.
    pub fn argmin_in_block(&self, b: usize, i: usize, j: usize) -> (p: usize)
        requires
            self.well_formed(),
            b < num_blocks(self.values().len() as int, S as int),
            i <= j < block_of(self.values(), S as int, b as int).len(),
        ensures
            p == b * S + local_argmin(block_of(self.values(), S as int, b as int), i as int, j as int),
    {
        let ghost n = self.data@.len() as int;
        proof {
            assert(self.values() == self.data@);
            lemma_num_blocks(n, S as int, b as int);
            lemma_block_argmin(self.data@, S as int, b as int, i as int, j as int);
            lemma_tri(S as int);
            lemma_div_bounds(n, S as int);
            assert((b + 1) * S == b * S + S) by (nonlinear_arith);
            assert(block_of(self.data@, S as int, b as int).len() <= S);
            lemma_local_index(i as int, j as int, i as int, j as int, S as int);
            lemma_slot(
                self.block_table@[b as int] as int,
                tri(j as int) + i,
                (self.block_table@[b as int] + 1) as int,
                tri(S as int),
            );
            assert(self.entry(b as int, i as int, j as int) == local_argmin(
                block_of(self.data@, S as int, b as int),
                i as int,
                j as int,
            ));
            lemma_local_argmin(block_of(self.data@, S as int, b as int), i as int, j as int);
            assert(j * (j + 1) <= 32 * 33) by (nonlinear_arith)
                requires j < 32;
        }
        let id = self.block_table[b] as usize;
        b * S + self.tables[id * Self::stride() + Self::index(i, j)] as usize
    }
}

impl<'a, const S: usize> Rmq<'a> for CartesianTree<'a, S> {
    closed spec fn values(&self) -> Seq<u64> {
        self.data@
    }

    closed spec fn well_formed(&self) -> bool {
        let n = self.data@.len() as int;
        let nb = num_blocks(n, S as int);
        &&& cartesian_fits(n as nat, S as nat)
        &&& n <= usize::MAX
        &&& self.sparse_table.well_formed()
        &&& block_minima(self.data@, S as int, self.sparse_table.values())
        &&& self.block_table@.len() == nb
        &&& self.tables@.len() <= nb * tri(S as int)
        &&& self.tables@.len() == self.shape_count() * tri(S as int)
        &&& self.shape_count() == block_shapes(self.data@, S as int).len()
        &&& forall|id: int| 0 <= id < self.shape_count() ==> #[trigger] self.id_in_use(id)
        &&& forall|b1: int, b2: int|
            0 <= b1 < nb && 0 <= b2 < nb ==> (#[trigger] self.shape_id(b1) == #[trigger] self.shape_id(b2)
                <==> shape_ops(block_of(self.data@, S as int, b1)) == shape_ops(
                block_of(self.data@, S as int, b2),
            ))
        &&& forall|b: int|
            0 <= b < nb ==> (#[trigger] self.block_table@[b] + 1) * tri(S as int) <= self.tables@.len()
        &&& forall|b: int, i: int, j: int|
            0 <= b < nb && 0 <= i <= j < block_of(self.data@, S as int, b).len()
                ==> #[trigger] self.entry(b, i, j) == local_argmin(block_of(self.data@, S as int, b), i, j)
    }

    open spec fn admits(&self, l: int, r: int) -> bool {
        0 <= l <= r < self.values().len()
    }

    proof fn lemma_admits_ranges(&self, l: int, r: int) {
    }

    fn can_query(&self, l: usize, r: usize) -> (b: bool) {
        l <= r && r < self.data.len()
    }

    open spec fn buildable(n: nat) -> bool {
        cartesian_fits(n, S as nat)
    }

    fn name() -> (s: String)
        ensures
            s@ == "CartesianTree"@ + seq!['<'] + decimal(S as nat) + seq!['>'],
    {
        sized_name("CartesianTree", S)
    }

    fn max_n() -> (m: usize)
        ensures
            m == 10_000_000,
    {
        10_000_000
    }

    fn can_build(n: usize) -> (b: bool) {
        if S == 0 || S > 32 {
            return false;
        }
        proof {
            lemma_block_count(n as int, S as int);
            lemma_div_bounds(n as int, S as int);
            if S >= 2 {
                assert((n / S) * 2 <= (n / S) * S) by (nonlinear_arith)
                    requires S >= 2, n / S >= 0;
            }
        }
        let nb = n / S + if n % S == 0 { 0 } else { 1 };
        if nb as u64 > 0x1_0000_0000u64 || !<SparseTable as Rmq>::can_build(nb) {
            return false;
        }
        let cells = (crate::rmq::util::ilog2(nb) + 1) * nb;
        let stride = Self::stride();
        match nb.checked_mul(4 + stride) {
            Some(other) => {
                proof {
                    assert(nb * (4 + stride) == nb * 4 + nb * stride) by (nonlinear_arith);
                }
                other <= (isize::MAX as usize) - cells * 8
            },
            None => {
                proof {
                    assert(nb * (4 + stride) == nb * 4 + nb * stride) by (nonlinear_arith);
                }
                false
            },
        }
    }

    fn build(data: &'a [u64]) -> (s: Self)
        ensures
            s.block_table_len() == num_blocks(data@.len() as int, S as int),
            s.tables_len() == block_shapes(data@, S as int).len() * tri(S as int),
            s.table_len() == levels(num_blocks(data@.len() as int, S as int) as nat) * num_blocks(
                data@.len() as int,
                S as int,
            ),
    {
        broadcast use vstd::std_specs::hash::group_hash_axioms;

        let n = data.len();
        let stride = Self::stride();
        let ghost s = S as int;
        let ghost nbs = num_blocks(n as int, s);
        proof {
            lemma_block_count(n as int, s);
            lemma_tri(s);
            lemma_num_blocks(n as int, s, 0);
            lemma_div_bounds(n as int, S as int);
            if S >= 2 {
                assert((n / S) * 2 <= (n / S) * S) by (nonlinear_arith)
                    requires S >= 2, n / S >= 0;
            }
        }
        let nb = n / S + if n % S == 0 { 0 } else { 1 };

        let mut shape_ids: HashMap<u64, u32> = HashMap::new();
        let mut tables: Vec<u8> = Vec::new();
        let mut block_table: Vec<u32> = Vec::with_capacity(nb);
        let mut minima: Vec<u64> = Vec::with_capacity(nb);
        let mut stack: Vec<u64> = Vec::with_capacity(S);
        // the block that first had each shape, its number and its signature
        let ghost mut shapes: Seq<Seq<u64>> = Seq::empty();
        let ghost mut first: Seq<int> = Seq::empty();
        let ghost mut sigs: Seq<u64> = Seq::empty();

        let mut start: usize = 0;
        let ghost mut b: int = 0;
        while start < n
            invariant
                n == data@.len(),
                s == S,
                1 <= s <= 32,
                stride == tri(s),
                stride >= 1,
                nbs == num_blocks(n as int, s),
                cartesian_fits(n as nat, S as nat),
                b >= 0,
                start == (if b * s < n { b * s } else { n as int }),
                b == 0 || (b - 1) * s < n,
                start <= n,
                start < n ==> b < nbs,
                b <= nbs,
                block_table@.len() == b,
                minima@.len() == b,
                shapes.len() <= b,
                shape_tables(tables@, shapes, s),
                first.len() == shapes.len(),
                sigs.len() == shapes.len(),
                forall|id: int|
                    0 <= id < shapes.len() ==> shape_ids@.contains_key(#[trigger] sigs[id])
                        && shape_ids@[sigs[id]] as int == id,
                forall|id: int|
                    0 <= id < shapes.len() ==> 0 <= #[trigger] first[id] < b && shapes[id]
                        == block_of(data@, s, first[id]),
                forall|a: int, c: int|
                    0 <= a < c < shapes.len() ==> shape_ops(#[trigger] shapes[a]) != shape_ops(
                        #[trigger] shapes[c],
                    ),
                forall|sig: u64|
                    #[trigger] shape_ids@.contains_key(sig) ==> (shape_ids@[sig] as int) < shapes.len()
                        && encodes(sig, shape_ops(shapes[shape_ids@[sig] as int])),
                forall|k: int|
                    0 <= k < b ==> (#[trigger] block_table@[k] as int) < shapes.len() && shape_ops(
                        shapes[block_table@[k] as int],
                    ) == shape_ops(block_of(data@, s, k)),
                forall|k: int|
                    0 <= k < b ==> #[trigger] minima@[k] == range_min(
                        data@,
                        k * s,
                        block_end(n as int, s, k),
                    ),
            decreases n - start,
        {
            let end = if n - start < S { n } else { start + S };
            let block = &data[start..end];
            let ghost w = block@;
            proof {
                assert((b + 1) * s == b * s + s) by (nonlinear_arith);
                assert(end == block_end(n as int, s, b));
                assert(w == block_of(data@, s, b));
                lemma_shape_ends_with_push(w);
            }
            let sig = shape_signature(block, &mut stack);
            let id: u32 = match shape_ids.get(&sig) {
                Some(id) => *id,
                None => {
                    let base = tables.len();
                    proof {
                        lemma_slot(shapes.len() as int, 0, (shapes.len() + 1) as int, stride as int);
                        lemma_mul_le((shapes.len() + 1) as int, nbs, stride as int);
                        assert((shapes.len() + 1) * stride == shapes.len() * stride + stride)
                            by (nonlinear_arith);
                        assert(base / stride == shapes.len()) by {
                            lemma_in_block(base as int, shapes.len() as int, stride as int);
                        }
                        assert(nbs * 4 + nbs * tri(s) <= isize::MAX);
                    }
                    let id = (base / stride) as u32;
                    let ghost t0 = tables@;
                    tables.resize(base + stride, 0);
                    let len = block.len();
                    let mut i: usize = 0;
                    while i < len
                        invariant
                            w == block@,
                            len == w.len(),
                            s == S,
                            1 <= len <= s <= 32,
                            stride == tri(s),
                            base == t0.len(),
                            base + stride <= usize::MAX,
                            tables@.len() == base + stride,
                            forall|k: int| 0 <= k < base ==> tables@[k] == t0[k],
                            i <= len,
                            forall|a: int, c: int|
                                0 <= a < i && a <= c < len ==> #[trigger] tables@[base + tri(c) + a]
                                    as int == local_argmin(w, a, c),
                        decreases len - i,
                    {
                        let mut best = i;
                        let mut j = i;
                        while j < len
                            invariant
                                w == block@,
                                len == w.len(),
                                s == S,
                                1 <= len <= s <= 32,
                                stride == tri(s),
                                base == t0.len(),
                                base + stride <= usize::MAX,
                                tables@.len() == base + stride,
                                forall|k: int| 0 <= k < base ==> tables@[k] == t0[k],
                                i < len,
                                i <= j <= len,
                                j == i ==> best == i,
                                j > i ==> best == local_argmin(w, i as int, j - 1),
                                forall|a: int, c: int|
                                    0 <= a < i && a <= c < len ==> #[trigger] tables@[base + tri(c) + a]
                                        as int == local_argmin(w, a, c),
                                forall|c: int|
                                    i <= c < j ==> #[trigger] tables@[base + tri(c) + i] as int
                                        == local_argmin(w, i as int, c),
                            decreases len - j,
                        {
                            proof {
                                if j > i {
                                    lemma_local_argmin(w, i as int, j - 1);
                                }
                            }
                            if block[j] < block[best] {
                                best = j;
                            }
                            proof {
                                lemma_local_index(i as int, j as int, i as int, j as int, s);
                                assert(j * (j + 1) <= 32 * 33) by (nonlinear_arith)
                                    requires j < 32;
                            }
                            let ghost before = tables@;
                            tables.set(base + Self::index(i, j), best as u8);
                            proof {
                                assert forall|a: int, c: int|
                                    0 <= a < i && a <= c < len implies #[trigger] tables@[base + tri(c) + a]
                                        as int == local_argmin(w, a, c) by {
                                    lemma_local_index(a, c, i as int, j as int, s);
                                    assert(before[base + tri(c) + a] as int == local_argmin(w, a, c));
                                }
                                assert forall|c: int|
                                    i <= c < j + 1 implies #[trigger] tables@[base + tri(c) + i] as int
                                        == local_argmin(w, i as int, c) by {
                                    lemma_local_index(i as int, c, i as int, j as int, s);
                                    if c < j {
                                        assert(before[base + tri(c) + i] as int == local_argmin(w, i as int, c));
                                    }
                                }
                            }
                            j = j + 1;
                        }
                        i = i + 1;
                    }
                    shape_ids.insert(sig, id);
                    proof {
                        let shapes2 = shapes.push(w);
                        assert(tables@.len() == shapes2.len() * tri(s)) by (nonlinear_arith)
                            requires
                                tables@.len() == shapes.len() * tri(s) + tri(s),
                                shapes2.len() == shapes.len() + 1;
                        assert forall|sid: int, a: int, c: int|
                            0 <= sid < shapes2.len() && 0 <= a <= c < shapes2[sid].len() implies #[trigger] shape_entry(
                                tables@,
                                s,
                                sid,
                                a,
                                c,
                            ) == local_argmin(shapes2[sid], a, c) by {
                            lemma_local_index(a, c, a, c, s);
                            if sid < shapes.len() {
                                lemma_slot(sid, tri(c) + a, shapes.len() as int, tri(s));
                                assert(shape_entry(t0, s, sid, a, c) == local_argmin(shapes[sid], a, c));
                            } else {
                                assert(sid * tri(s) == base);
                            }
                        }
                        assert forall|a: int| 0 <= a < shapes.len() implies shape_ops(shapes[a])
                            != shape_ops(w) by {
                            if shape_ops(shapes[a]) == shape_ops(w) {
                                assert(shape_ids@.contains_key(sigs[a]));
                                lemma_encoding_determines_word(sigs[a], sig, shape_ops(w));
                            }
                        }
                        shapes = shapes2;
                        first = first.push(b);
                        sigs = sigs.push(sig);
                    }
                    id
                },
            };
            proof {
                assert((id as int) < shapes.len());
                lemma_mul_le(shapes.len() as int, nbs, stride as int);
                assert(nbs * 4 + nbs * tri(s) <= isize::MAX);
                assert(shape_ops(shapes[id as int]) == shape_ops(w)) by {
                    if (id as int) < shapes.len() - 1 || shapes.last() != w {
                        lemma_shape_ends_with_push(shapes[id as int]);
                        lemma_encoding_unique(sig, shape_ops(shapes[id as int]), shape_ops(w));
                    }
                }
                lemma_same_shape_same_argmin(w, shapes[id as int], 0, w.len() - 1);
                lemma_local_argmin(w, 0, w.len() - 1);
                lemma_local_index(0, w.len() - 1, 0, w.len() - 1, s);
                lemma_slot(id as int, tri(w.len() - 1), shapes.len() as int, tri(s));
                assert(shape_entry(tables@, s, id as int, 0, w.len() - 1) == local_argmin(shapes[id as int], 0, w.len() - 1));
                lemma_block_argmin(data@, s, b, 0, w.len() - 1);
                assert((w.len() - 1) * w.len() <= 32 * 33) by (nonlinear_arith)
                    requires w.len() <= 32;
            }
            block_table.push(id);

            // Use block minimum for the sparse table.
            let pos = tables[id as usize * stride + Self::index(0, block.len() - 1)];
            minima.push(block[pos as usize]);
            start = end;
            proof {
                b = b + 1;
                lemma_num_blocks(n as int, s, b);
            }
        }
        proof {
            lemma_num_blocks(n as int, s, b);
            if b > 0 {
                lemma_num_blocks(n as int, s, b - 1);
            }
            assert(b == nbs);
        }
        let sparse_table = SparseTable::build(minima.as_slice());
        let t = Self { data, block_table, tables, sparse_table };
        proof {
            lemma_mul_le(shapes.len() as int, nbs, tri(s));
            let ops_list = shapes.map_values(|w: Seq<u64>| shape_ops(w));
            assert(block_shapes(data@, s) =~= ops_list.to_set()) by {
                assert forall|o: Seq<bool>| block_shapes(data@, s).contains(o) implies ops_list.to_set().contains(o) by {
                    let k = choose|k: int| 0 <= k < nbs && #[trigger] shape_ops(block_of(data@, s, k)) == o;
                    assert(ops_list[block_table@[k] as int] == o);
                }
                assert forall|o: Seq<bool>| ops_list.to_set().contains(o) implies block_shapes(data@, s).contains(o) by {
                    let id = choose|id: int| 0 <= id < ops_list.len() && ops_list[id] == o;
                    assert(shape_ops(block_of(data@, s, first[id])) == o);
                }
            }
            assert(ops_list.no_duplicates()) by {
                assert forall|a: int, c: int| 0 <= a < ops_list.len() && 0 <= c < ops_list.len() && a != c implies ops_list[a] != ops_list[c] by {
                    if a < c {
                        assert(shape_ops(shapes[a]) != shape_ops(shapes[c]));
                    } else {
                        assert(shape_ops(shapes[c]) != shape_ops(shapes[a]));
                    }
                }
            }
            ops_list.unique_seq_to_set();
            vstd::arithmetic::div_mod::lemma_div_multiples_vanish(shapes.len() as int, tri(s));
            assert(tri(s) * shapes.len() == shapes.len() * tri(s)) by (nonlinear_arith);
            assert(t.shape_count() == shapes.len());
            assert forall|id: int| 0 <= id < t.shape_count() implies #[trigger] t.id_in_use(id) by {
                let f = first[id];
                let sid = t.block_table@[f] as int;
                assert(shape_ops(shapes[sid]) == shape_ops(shapes[id]));
                if sid < id {
                    assert(shape_ops(shapes[sid]) != shape_ops(shapes[id]));
                } else if id < sid {
                    assert(shape_ops(shapes[id]) != shape_ops(shapes[sid]));
                }
                assert(t.shape_id(f) == id);
            }
            assert forall|b1: int, b2: int|
                0 <= b1 < nbs && 0 <= b2 < nbs implies (#[trigger] t.shape_id(b1) == #[trigger] t.shape_id(b2)
                <==> shape_ops(block_of(data@, s, b1)) == shape_ops(block_of(data@, s, b2))) by {
                let i1 = t.block_table@[b1] as int;
                let i2 = t.block_table@[b2] as int;
                if i1 < i2 {
                    assert(shape_ops(shapes[i1]) != shape_ops(shapes[i2]));
                } else if i2 < i1 {
                    assert(shape_ops(shapes[i2]) != shape_ops(shapes[i1]));
                }
            }
            assert forall|k: int| 0 <= k < nbs implies (#[trigger] t.block_table@[k] + 1) * tri(s)
                <= t.tables@.len() by {
                lemma_slot(t.block_table@[k] as int, 0, shapes.len() as int, tri(s));
            }
            assert forall|k: int, i: int, j: int|
                0 <= k < nbs && 0 <= i <= j < block_of(data@, s, k).len() implies #[trigger] t.entry(k, i, j)
                == local_argmin(block_of(data@, s, k), i, j) by {
                let sid = t.block_table@[k] as int;
                lemma_same_shape_same_argmin(block_of(data@, s, k), shapes[sid], i, j);
                assert(shape_entry(t.tables@, s, sid, i, j) == local_argmin(shapes[sid], i, j));
            }
        }
        t
    }

    fn space(&self) -> (b: usize)
        ensures
            b == vstd::layout::size_of::<CartesianTree<'a, S>>() + self.block_table_len() * 4
                + self.tables_len() + self.table_len() * 8,
    {
        broadcast use vstd::layout::layout_of_primitives;

        vstd::layout::layout_for_type_is_valid::<CartesianTree<'a, S>>();
        proof {
            self.sparse_table.lemma_table_len();
            let nb = self.block_table@.len();
            assert(self.sparse_table.values().len() == nb);
            assert(self.block_table@.len() * 4 + self.tables@.len() + self.sparse_table.table_len() * 8
                <= isize::MAX);
            assert(vstd::layout::size_of::<u32>() == 4 && vstd::layout::size_of::<u8>() == 1);
        }
        let table_bytes = self.sparse_table.heap_bytes();
        let own = core::mem::size_of::<CartesianTree<'a, S>>();
        let block_bytes = self.block_table.len() * core::mem::size_of::<u32>();
        let shape_bytes = self.tables.len() * core::mem::size_of::<u8>();
        assert(own <= isize::MAX);
        assert(block_bytes + shape_bytes + table_bytes <= isize::MAX);
        own + block_bytes + shape_bytes + table_bytes
    }

    fn query(&self, l: usize, r: usize) -> (m: u64) {
        let ghost vals = self.data@;
        let ghost n = vals.len() as int;
        let ghost s = S as int;
        let bl = l / S;
        let br = r / S;
        proof {
            lemma_div_bounds(l as int, s);
            lemma_div_bounds(r as int, s);
            lemma_num_blocks(n, s, bl as int);
            lemma_num_blocks(n, s, br as int);
            assert((bl + 1) * s == bl * s + s) by (nonlinear_arith);
            assert((br + 1) * s == br * s + s) by (nonlinear_arith);
            vstd::arithmetic::div_mod::lemma_div_is_ordered(l as int, r as int, s);
        }

        // Inside single block, perform a local query on the block's table.
        if bl == br {
            proof {
                lemma_block_argmin(vals, s, bl as int, l - bl * s, r - bl * s);
            }
            return self.data[self.argmin_in_block(bl, l - bl * S, r - bl * S)];
        }
        proof {
            assert(bl < br) by {
                if br < bl {
                    lemma_mul_le(br + 1, bl as int, s);
                }
            }
            lemma_mul_le(bl + 1, br as int, s);
            lemma_block_argmin(vals, s, bl as int, l - bl * s, s - 1);
            lemma_block_argmin(vals, s, br as int, 0, r - br * s);
        }

        // Perform local queries in the tail and head of the query.
        let left = self.data[self.argmin_in_block(bl, l - bl * S, S - 1)];
        let right = self.data[self.argmin_in_block(br, 0, r - br * S)];
        let mut best = left.min(right);
        proof {
            lemma_range_min_split(vals, l as int, (bl + 1) * s, r + 1);
            lemma_range_min_split(vals, (bl + 1) * s, br * s, r + 1);
        }

        // Perform a sparse table lookup up on the fully enclosed blocks
        if bl + 1 < br {
            proof {
                self.sparse_table.lemma_table_len();
                lemma_whole_blocks(vals, s, self.sparse_table.values(), bl + 1, br as int);
            }
            best = best.min(self.sparse_table.query(bl + 1, br - 1));
        }

        best
    }
}


impl<'a, const S: usize> CartesianTree<'a, S> {
    /// Cartesian blocks of `1 <= S <= 32` values are built over every
    /// nonempty input whose `ceil(n / S)` blocks get shape ids that fit in a
    /// `u32` and whose block table (4 bytes a block), shape tables (at most
    /// `S (S + 1) / 2` bytes a block) and sparse table over the block minima
    /// fit in memory together; and over no other input.
    pub proof fn lemma_accepted_lengths(n: nat)
        ensures
            <CartesianTree<'a, S> as Rmq<'a>>::buildable(n) <==> ({
                let nb = (n + S - 1) / (S as int);
                &&& 1 <= S <= 32
                &&& n >= 1
                &&& nb - 1 <= u32::MAX
                &&& nb * 4 + nb * (S * (S + 1) / 2) + (log2(nb as nat) + 1) * nb * 8 <= isize::MAX
            }),
    {
        lemma_tri(S as int);
        if S >= 1 {
            lemma_num_blocks(n as int, S as int, 0);
            let nb = (n + S - 1) / (S as int);
            if n >= 1 && nb * 4 + nb * (S * (S + 1) / 2) + (log2(nb as nat) + 1) * nb * 8 <= isize::MAX {
                assert((log2(nb as nat) + 1) * nb * 8 >= 0) by (nonlinear_arith)
                    requires nb >= 0;
                assert(nb * (S * (S + 1) / 2) >= 0) by (nonlinear_arith)
                    requires nb >= 0, S >= 1;
            }
        }
    }
}

} // verus!
