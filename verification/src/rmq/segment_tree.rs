//! Bottom-up segment tree: the leaves `tree[n..2n)` hold the values and every
//! inner node `k` in `1..n` holds the minimum of its children `2k` and `2k + 1`.
use vstd::prelude::*;
use crate::rmq::Rmq;
use crate::rmq::range_min::{lemma_range_min_unique, min_u64, range_min};

verus! {

pub struct SegmentTree {
    n: usize,
    tree: Vec<u64>,
}

/// Whether leaf `x` lies below node `k` in a tree with `n` leaves
/// (a leaf lies below itself; node 0 is unused).
pub open spec fn covers(n: int, k: int, x: int) -> bool
    decreases 2 * n - k,
{
    if k <= 0 || k >= 2 * n {
        false
    } else if k >= n {
        x == k
    } else {
        covers(n, 2 * k, x) || covers(n, 2 * k + 1, x)
    }
}

/// Whether leaf `x` lies below one of the nodes `l..r`.
pub open spec fn below_some(n: int, l: int, r: int, x: int) -> bool {
    exists|k: int| l <= k < r && #[trigger] covers(n, k, x)
}

/// An input length is accepted when the `2n` nodes fit in one allocation.
pub open spec fn tree_fits(n: nat) -> bool {
    2 * n * 8 <= isize::MAX
}

/// Every inner node holds the minimum of its two children.
pub open spec fn heap_ordered(n: int, t: Seq<u64>) -> bool {
    forall|k: int|
        1 <= k < n ==> #[trigger] t[k] == (if t[2 * k + 1] < t[2 * k] {
            t[2 * k + 1]
        } else {
            t[2 * k]
        })
}

/// A node's value is the minimum of the leaves below it.
proof fn lemma_node_is_min(n: int, t: Seq<u64>, k: int)
    requires
        t.len() == 2 * n,
        heap_ordered(n, t),
        1 <= k < 2 * n,
    ensures
        forall|x: int| #[trigger] covers(n, k, x) ==> n <= x < 2 * n && t[k] <= t[x],
        exists|x: int| #[trigger] covers(n, k, x) && t[k] == t[x],
    decreases 2 * n - k,
{
    if k >= n {
        assert(covers(n, k, k));
        assert forall|x: int| #[trigger] covers(n, k, x) implies n <= x < 2 * n && t[k] <= t[x] by {
            assert(x == k);
        }
    } else {
        lemma_node_is_min(n, t, 2 * k);
        lemma_node_is_min(n, t, 2 * k + 1);
        assert(t[k] == (if t[2 * k + 1] < t[2 * k] { t[2 * k + 1] } else { t[2 * k] }));
        assert forall|x: int| #[trigger] covers(n, k, x) implies n <= x < 2 * n && t[k] <= t[x] by {
            if covers(n, 2 * k, x) {
            } else {
                assert(covers(n, 2 * k + 1, x));
            }
        }
        if t[2 * k + 1] < t[2 * k] {
            let x = choose|x: int| #[trigger] covers(n, 2 * k + 1, x) && t[2 * k + 1] == t[x];
            assert(covers(n, k, x));
        } else {
            let x = choose|x: int| #[trigger] covers(n, 2 * k, x) && t[2 * k] == t[x];
            assert(covers(n, k, x));
        }
    }
}

/// One step of the query: what lies below `[l, r)` lies below one of the
/// boundary nodes taken on this level, or below a node of the next level.
proof fn lemma_climb(n: int, l: int, r: int, x: int, k: int)
    requires
        1 <= l <= k < r <= 2 * n,
        covers(n, k, x),
    ensures
        (l % 2 == 1 && covers(n, l, x)) || (r % 2 == 1 && covers(n, r - 1, x))
            || below_some(n, (l + 1) / 2, r / 2, x),
{
    if !(k == l && l % 2 == 1) && !(k == r - 1 && r % 2 == 1) {
        let k2 = k / 2;
        assert(covers(n, k2, x));
    }
}

/// What lies below the next level's nodes lies below `[l, r)`.
proof fn lemma_descend(n: int, l: int, r: int, x: int, k2: int)
    requires
        1 <= l < r <= 2 * n,
        (l + 1) / 2 <= k2 < r / 2,
        covers(n, k2, x),
    ensures
        below_some(n, l, r, x),
{
    if covers(n, 2 * k2, x) {
        assert(l <= 2 * k2 < r);
    } else {
        assert(covers(n, 2 * k2 + 1, x));
        assert(l <= 2 * k2 + 1 < r);
    }
}

impl SegmentTree {
    /// The value held by node `k`.
    pub closed spec fn node(&self, k: int) -> u64 {
        self.tree@[k]
    }

    /// Leaves hold the values, every inner node the smaller of its children,
    /// and so every node the minimum of the leaves below it.
    pub proof fn lemma_nodes(&self, k: int)
        requires
            self.well_formed(),
            1 <= k < 2 * self.values().len(),
        ensures
            k >= self.values().len() ==> self.node(k) == self.values()[k - self.values().len()],
            k < self.values().len() ==> self.node(k) == min_u64(self.node(2 * k), self.node(2 * k + 1)),
            forall|x: int|
                #[trigger] covers(self.values().len() as int, k, x) ==> self.values().len() <= x < 2
                    * self.values().len() && self.node(k) <= self.node(x),
            exists|x: int|
                #[trigger] covers(self.values().len() as int, k, x) && self.node(k) == self.node(x),
    {
        lemma_node_is_min(self.n as int, self.tree@, k);
    }

    /// Number of nodes, node 0 (unused) included.
    pub closed spec fn node_count(&self) -> nat {
        self.tree@.len()
    }
}

impl<'a> Rmq<'a> for SegmentTree {
    closed spec fn values(&self) -> Seq<u64> {
        self.tree@.subrange(self.n as int, 2 * self.n)
    }

    closed spec fn well_formed(&self) -> bool {
        &&& tree_fits(self.n as nat)
        &&& self.tree@.len() == 2 * self.n
        &&& heap_ordered(self.n as int, self.tree@)
    }

    /// Also every empty range `l > r` whose shifted bound `l + n` fits:
    /// the query then reads nothing and answers `u64::MAX`.
    open spec fn admits(&self, l: int, r: int) -> bool {
        ||| 0 <= l <= r < self.values().len()
        ||| 0 <= r < l && l + self.values().len() <= usize::MAX
    }

    proof fn lemma_admits_ranges(&self, l: int, r: int) {
    }

    fn can_query(&self, l: usize, r: usize) -> (b: bool) {
        if l <= r {
            r < self.n
        } else {
            l <= usize::MAX - self.n
        }
    }

    open spec fn buildable(n: nat) -> bool {
        tree_fits(n)
    }

    fn name() -> (s: String)
        ensures
            s@ == "SegmentTree"@,
    {
        "SegmentTree".to_string()
    }

    fn max_n() -> (m: usize)
        ensures
            m == 10_000_000,
    {
        10_000_000
    }

    fn can_build(n: usize) -> (b: bool) {
        n <= (isize::MAX as usize) / 16
    }

    fn build(data: &'a [u64]) -> (s: Self)
        ensures
            s.node_count() == 2 * data@.len(),
    {
        let n = data.len();
        let mut tree = vec![0u64; 2 * n];
        let mut i: usize = 0;
        while i < n
            invariant
                n == data@.len(),
                tree_fits(n as nat),
                tree@.len() == 2 * n,
                i <= n,
                forall|k: int| 0 <= k < i ==> tree@[n + k] == data@[k],
            decreases n - i,
        {
            tree.set(n + i, data[i]);
            i = i + 1;
        }

        // The end index of the next looked at segment
        let mut hi = n;
        while hi > 1
            invariant
                n == data@.len(),
                tree_fits(n as nat),
                tree@.len() == 2 * n,
                hi <= n,
                forall|k: int| 0 <= k < n ==> tree@[n + k] == data@[k],
                forall|k: int|
                    hi <= k < n ==> #[trigger] tree@[k] == (if tree@[2 * k + 1] < tree@[2 * k] {
                        tree@[2 * k + 1]
                    } else {
                        tree@[2 * k]
                    }),
            decreases hi,
        {
            // The start index of the current segment
            let lo = (hi + 1) / 2;
            let mut t = lo;
            while t < hi
                invariant
                    n == data@.len(),
                    tree_fits(n as nat),
                    tree@.len() == 2 * n,
                    1 < hi <= n,
                    lo == (hi + 1) / 2,
                    lo <= t <= hi,
                    forall|k: int| 0 <= k < n ==> tree@[n + k] == data@[k],
                    forall|k: int|
                        (hi <= k < n || lo <= k < t) ==> #[trigger] tree@[k] == (if tree@[2 * k + 1]
                            < tree@[2 * k] {
                            tree@[2 * k + 1]
                        } else {
                            tree@[2 * k]
                        }),
                decreases hi - t,
            {
                let a = tree[2 * t];
                let b = tree[2 * t + 1];
                tree.set(t, a.min(b));
                t = t + 1;
            }
            hi = lo;
        }
        let s = Self { n, tree };
        proof {
            assert(s.values() =~= data@);
        }
        s
    }

    fn space(&self) -> (b: usize)
        ensures
            b == vstd::layout::size_of::<SegmentTree>() + self.node_count() * 8,
    {
        broadcast use vstd::layout::layout_of_primitives;

        vstd::layout::layout_for_type_is_valid::<SegmentTree>();
        core::mem::size_of::<SegmentTree>() + self.tree.len() * core::mem::size_of::<u64>()
    }

    fn query(&self, l: usize, r: usize) -> (m: u64) {
        let ghost vals = self.values();
        let ghost (ql, qr) = (l as int, r as int);
        let ghost n = self.n as int;
        let ghost lo_leaf = l + n;
        let ghost hi_leaf = r + n;
        let ghost t = self.tree@;
        let mut res = u64::MAX;

        // Offset l and r to start inside the leaves of the tree
        let mut l = l + self.n;
        let mut r = r + self.n + 1;
        if l >= r {
            // an empty range: nothing to read
            proof {
                assert(range_min(vals, ql, qr + 1) == u64::MAX);
            }
            return res;
        }
        proof {
            assert forall|x: int| lo_leaf <= x <= hi_leaf implies #[trigger] below_some(n, l as int, r as int, x) by {
                assert(covers(n, x, x));
            }
        }

        while l < r
            invariant
                t == self.tree@,
                t.len() == 2 * n,
                n == self.n,
                heap_ordered(n, t),
                tree_fits(n as nat),
                n <= lo_leaf <= hi_leaf < 2 * n,
                1 <= l,
                r <= 2 * n,
                forall|x: int|
                    lo_leaf <= x <= hi_leaf ==> res <= #[trigger] t[x] || below_some(n, l as int, r as int, x),
                forall|k: int, x: int|
                    l <= k < r && #[trigger] covers(n, k, x) ==> lo_leaf <= x <= hi_leaf,
                res == u64::MAX || exists|x: int| lo_leaf <= x <= hi_leaf && t[x] == res,
            decreases r,
        {
            let a = self.tree[l];
            let b = self.tree[r - 1];

            // The masks are 0 if the last bit of l/r are set (i.e. l/r are odd).
            // Otherwise all bits are set in the mask.
            let l_mask = ((l & 1) as u64).wrapping_sub(1);
            let r_mask = ((r & 1) as u64).wrapping_sub(1);
            proof {
                assert((l & 1) as u64 == (l % 2) as u64) by (bit_vector);
                assert((r & 1) as u64 == (r % 2) as u64) by (bit_vector);
                assert(a | 0u64 == a && a | 0xffff_ffff_ffff_ffffu64 == 0xffff_ffff_ffff_ffffu64) by (bit_vector);
                assert(b | 0u64 == b && b | 0xffff_ffff_ffff_ffffu64 == 0xffff_ffff_ffff_ffffu64) by (bit_vector);
            }
            let ghost old_res = res;
            // If l is odd, we take the value at l and move to the next node.
            // If r is odd, we take the value at r-1 and move to the previous node.
            res = res.min(a | l_mask);
            res = res.min(b | r_mask);
            let ghost (l0, r0) = (l as int, r as int);
            proof {
                lemma_node_is_min(n, t, l0);
                lemma_node_is_min(n, t, r0 - 1);
                assert(res <= old_res);
                assert(l0 % 2 == 1 ==> res <= t[l0]);
                assert(r0 % 2 == 1 ==> res <= t[r0 - 1]);
            }

            // Move up the tree by dividing l and r by 2.
            // We add 1 to l before dividing to ensure that we do not move to the left
            // parent (outside the range) if l is odd.
            let next = l + 1;
            proof {
                assert(next >> 1 == next / 2) by (bit_vector);
                assert(r >> 1 == r / 2) by (bit_vector);
            }
            l = next >> 1;
            r >>= 1;
            proof {
                assert forall|x: int|
                    lo_leaf <= x <= hi_leaf implies res <= #[trigger] t[x] || below_some(n, l as int, r as int, x) by {
                    if !(old_res <= t[x]) {
                        let k = choose|k: int| l0 <= k < r0 && #[trigger] covers(n, k, x);
                        lemma_climb(n, l0, r0, x, k);
                    }
                }
                assert forall|k: int, x: int|
                    l <= k < r && #[trigger] covers(n, k, x) implies lo_leaf <= x <= hi_leaf by {
                    lemma_descend(n, l0, r0, x, k);
                }
                if res != u64::MAX && res != old_res {
                    if l0 % 2 == 1 && res == t[l0] {
                        let x = choose|x: int| #[trigger] covers(n, l0, x) && t[l0] == t[x];
                        assert(lo_leaf <= x <= hi_leaf);
                    } else {
                        assert(r0 % 2 == 1 && res == t[r0 - 1]);
                        let x = choose|x: int| #[trigger] covers(n, r0 - 1, x) && t[r0 - 1] == t[x];
                        assert(lo_leaf <= x <= hi_leaf);
                    }
                }
            }
        }
        proof {
            assert(vals.len() == n);
            assert forall|i: int| ql <= i < qr + 1 implies res <= #[trigger] vals[i] by {
                assert(vals[i] == t[i + n]);
            }
            if res == u64::MAX {
                assert(vals[ql] == t[lo_leaf]);
                lemma_range_min_unique(vals, ql, qr + 1, res, ql);
            } else {
                let x = choose|x: int| lo_leaf <= x <= hi_leaf && t[x] == res;
                assert(vals[x - n] == t[x]);
                lemma_range_min_unique(vals, ql, qr + 1, res, x - n);
            }
        }
        res
    }
}


impl SegmentTree {
    /// A segment tree is built exactly when its `2n` nodes of 8 bytes fit in
    /// one allocation; in particular over no values at all.
    pub proof fn lemma_accepted_lengths(n: nat)
        ensures
            <SegmentTree as Rmq<'static>>::buildable(n) <==> 16 * n <= isize::MAX,
            <SegmentTree as Rmq<'static>>::buildable(0),
    {
    }
}

} // verus!
