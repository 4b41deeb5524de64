//! The shape of a block's Cartesian tree, as the stack of suffix minima sees
//! it while the block is read from left to right.
//!
//! Pushing a value first pops every larger value off the stack; the pops (0)
//! and pushes (1) in order form the block's *shape*. Two blocks with the same
//! shape have the same stacks after every prefix, and the stack after `j + 1`
//! values determines, for every `i <= j`, where the leftmost minimum of
//! `[i, j]` lies. So blocks of one shape answer every local query alike.
use vstd::prelude::*;

verus! {

/// Leftmost position of the minimum of `w[i..=j]`, found by a scan from `i`.
pub open spec fn local_argmin(w: Seq<u64>, i: int, j: int) -> int
    decreases j - i,
{
    if j <= i {
        i
    } else {
        let a = local_argmin(w, i, j - 1);
        if w[j] < w[a] {
            j
        } else {
            a
        }
    }
}

/// How many positions on top of `st` hold values larger than `x`.
pub open spec fn pop_count(w: Seq<u64>, st: Seq<int>, x: u64) -> nat
    decreases st.len(),
{
    if st.len() > 0 && w[st.last()] > x {
        1 + pop_count(w, st.drop_last(), x)
    } else {
        0
    }
}

/// The positions left on the stack after reading all of `w`.
pub open spec fn stack_of(w: Seq<u64>) -> Seq<int>
    decreases w.len(),
{
    if w.len() == 0 {
        Seq::empty()
    } else {
        let p = w.drop_last();
        let st = stack_of(p);
        st.take(st.len() - pop_count(p, st, w.last())).push(p.len() as int)
    }
}

/// The pops (`false`) and pushes (`true`) made while reading `w`.
pub open spec fn shape_ops(w: Seq<u64>) -> Seq<bool>
    decreases w.len(),
{
    if w.len() == 0 {
        Seq::empty()
    } else {
        let p = w.drop_last();
        (shape_ops(p) + Seq::new(pop_count(p, stack_of(p), w.last()), |k: int| false)).push(true)
    }
}

/// The values at the stack's positions, bottom to top.
pub open spec fn stack_values(w: Seq<u64>) -> Seq<u64> {
    stack_of(w).map_values(|p: int| w[p])
}

/// Bit `q` of a 64-bit word.
pub open spec fn bit(sig: u64, q: u64) -> bool {
    (sig >> q) & 1u64 == 1u64
}

/// `sig` holds the operations `ops` as bits, operation `q` in bit `q`, and
/// has no bit set above them.
pub open spec fn encodes(sig: u64, ops: Seq<bool>) -> bool {
    &&& ops.len() <= 64
    &&& forall|q: u64| q < 64 ==> (#[trigger] bit(sig, q) <==> (q < ops.len() && ops[q as int]))
}

/// Positions in the stack increase from bottom to top, and so do (weakly)
/// their values.
pub open spec fn stack_sorted(w: Seq<u64>, st: Seq<int>) -> bool {
    &&& forall|t: int| 0 <= t < st.len() ==> 0 <= #[trigger] st[t] < w.len()
    &&& forall|a: int, b: int|
        0 <= a < b < st.len() ==> #[trigger] st[a] < #[trigger] st[b] && w[st[a]] <= w[st[b]]
}

/// Position `m` is a suffix minimum of `w`: no later value is smaller.
pub open spec fn suffix_min(w: Seq<u64>, m: int) -> bool {
    &&& 0 <= m < w.len()
    &&& forall|p: int| m < p < w.len() ==> w[m] <= #[trigger] w[p]
}

/// The popped positions are exactly the top ones whose values exceed `x`.
pub proof fn lemma_pop_count(w: Seq<u64>, st: Seq<int>, x: u64)
    requires
        stack_sorted(w, st),
    ensures
        pop_count(w, st, x) <= st.len(),
        forall|t: int|
            st.len() - pop_count(w, st, x) <= t < st.len() ==> w[#[trigger] st[t]] > x,
        forall|t: int| 0 <= t < st.len() - pop_count(w, st, x) ==> w[#[trigger] st[t]] <= x,
    decreases st.len(),
{
    if st.len() > 0 && w[st.last()] > x {
        let d = st.drop_last();
        assert(stack_sorted(w, d));
        lemma_pop_count(w, d, x);
        assert forall|t: int| 0 <= t < st.len() - pop_count(w, st, x) implies w[#[trigger] st[t]] <= x by {
            assert(st[t] == d[t]);
        }
        assert forall|t: int|
            st.len() - pop_count(w, st, x) <= t < st.len() implies w[#[trigger] st[t]] > x by {
            if t < st.len() - 1 {
                assert(st[t] == d[t]);
            }
        }
    } else if st.len() > 0 {
        assert forall|t: int| 0 <= t < st.len() implies w[#[trigger] st[t]] <= x by {
            if t < st.len() - 1 {
                assert(w[st[t]] <= w[st[st.len() - 1]]);
            }
        }
    }
}

/// The stack holds, in order, exactly the suffix minima of what was read.
pub proof fn lemma_stack_of(w: Seq<u64>)
    ensures
        stack_sorted(w, stack_of(w)),
        forall|m: int| stack_of(w).contains(m) <==> suffix_min(w, m),
        stack_of(w).len() <= w.len(),
        w.len() > 0 ==> stack_of(w).len() > 0,
        shape_ops(w).len() + stack_of(w).len() == 2 * w.len(),
    decreases w.len(),
{
    if w.len() > 0 {
        let p = w.drop_last();
        let x = w.last();
        let n = p.len() as int;
        let sp = stack_of(p);
        lemma_stack_of(p);
        lemma_pop_count(p, sp, x);
        let c = pop_count(p, sp, x);
        let kept = sp.take(sp.len() - c);
        let st = stack_of(w);
        assert(st == kept.push(n));
        assert forall|q: int| 0 <= q < n implies w[q] == p[q] by {}
        assert(stack_sorted(w, st)) by {
            assert forall|a: int, b: int|
                0 <= a < b < st.len() implies #[trigger] st[a] < #[trigger] st[b] && w[st[a]] <= w[st[b]] by {
                if b < st.len() - 1 {
                    assert(st[a] == sp[a] && st[b] == sp[b]);
                } else {
                    assert(st[a] == sp[a]);
                    assert(st[b] == n);
                }
            }
        }
        assert forall|m: int| st.contains(m) <==> suffix_min(w, m) by {
            if st.contains(m) {
                let t = choose|t: int| 0 <= t < st.len() && st[t] == m;
                if t < st.len() - 1 {
                    assert(sp[t] == m);
                    assert(sp.contains(m));
                    assert(p[m] <= x);
                    assert forall|q: int| m < q < w.len() implies w[m] <= #[trigger] w[q] by {
                        if q < n {
                            assert(suffix_min(p, m));
                        }
                    }
                }
            }
            if suffix_min(w, m) {
                if m == n {
                    assert(st[st.len() - 1] == m);
                } else {
                    assert(suffix_min(p, m)) by {
                        assert forall|q: int| m < q < p.len() implies p[m] <= #[trigger] p[q] by {
                            assert(w[q] == p[q]);
                        }
                    }
                    assert(sp.contains(m));
                    let t = choose|t: int| 0 <= t < sp.len() && sp[t] == m;
                    assert(w[n] == x);
                    assert(p[m] <= x);
                    assert(t < sp.len() - c);
                    assert(st[t] == m);
                }
            }
        }
    }
}

/// Reading a nonempty block ends with a push.
pub proof fn lemma_shape_ends_with_push(w: Seq<u64>)
    ensures
        w.len() == 0 <==> shape_ops(w).len() == 0,
        w.len() > 0 ==> shape_ops(w).last(),
{
}

/// Equal shapes come from blocks of equal length whose prefixes leave equal
/// stacks.
pub proof fn lemma_same_shape_same_stacks(w1: Seq<u64>, w2: Seq<u64>)
    requires
        shape_ops(w1) == shape_ops(w2),
    ensures
        w1.len() == w2.len(),
        forall|k: int| 0 <= k <= w1.len() ==> #[trigger] stack_of(w1.take(k)) == stack_of(w2.take(k)),
    decreases w1.len(),
{
    lemma_shape_ends_with_push(w1);
    lemma_shape_ends_with_push(w2);
    if w1.len() > 0 {
        let p1 = w1.drop_last();
        let p2 = w2.drop_last();
        let c1 = pop_count(p1, stack_of(p1), w1.last());
        let c2 = pop_count(p2, stack_of(p2), w2.last());
        let o1 = shape_ops(p1);
        let o2 = shape_ops(p2);
        let x1 = o1 + Seq::new(c1, |k: int| false);
        let x2 = o2 + Seq::new(c2, |k: int| false);
        assert(x1 == shape_ops(w1).drop_last());
        assert(x2 == shape_ops(w2).drop_last());
        assert(x1 == x2);
        lemma_shape_ends_with_push(p1);
        lemma_shape_ends_with_push(p2);
        let len = x1.len() as int;
        if c1 < c2 {
            let idx = len - 1 - c1;
            if o1.len() == 0 {
                assert(false);
            } else {
                assert(x1[idx] == o1.last());
                assert(!x2[idx]);
            }
        } else if c2 < c1 {
            let idx = len - 1 - c2;
            if o2.len() == 0 {
                assert(false);
            } else {
                assert(x2[idx] == o2.last());
                assert(!x1[idx]);
            }
        }
        assert(o1 == x1.take(len - c1));
        assert(o2 == x2.take(len - c2));
        lemma_same_shape_same_stacks(p1, p2);
        assert(w1.take(w1.len() as int) == w1);
        assert(w2.take(w2.len() as int) == w2);
        assert(stack_of(w1) == stack_of(w2)) by {
            assert(stack_of(p1) == stack_of(p2)) by {
                assert(p1.take(p1.len() as int) == p1);
                assert(p2.take(p2.len() as int) == p2);
            }
        }
        assert forall|k: int| 0 <= k <= w1.len() implies #[trigger] stack_of(w1.take(k)) == stack_of(w2.take(k)) by {
            if k < w1.len() {
                assert(w1.take(k) == p1.take(k));
                assert(w2.take(k) == p2.take(k));
            }
        }
    }
}

/// The scan's answer lies in `[i, j]`, is a minimum there, and nothing
/// before it in the range is as small.
pub proof fn lemma_local_argmin(w: Seq<u64>, i: int, j: int)
    requires
        0 <= i <= j < w.len(),
    ensures
        i <= local_argmin(w, i, j) <= j,
        forall|p: int| i <= p <= j ==> w[local_argmin(w, i, j)] <= #[trigger] w[p],
        forall|p: int| i <= p < local_argmin(w, i, j) ==> w[local_argmin(w, i, j)] < #[trigger] w[p],
    decreases j - i,
{
    if j > i {
        lemma_local_argmin(w, i, j - 1);
    }
}

/// The leftmost minimum of `[i, j]` is the lowest stack position at or
/// after `i` once `w[..=j]` has been read.
pub proof fn lemma_argmin_on_stack(w: Seq<u64>, i: int, j: int)
    requires
        0 <= i <= j < w.len(),
    ensures
        stack_of(w.take(j + 1)).contains(local_argmin(w, i, j)),
        forall|m: int|
            #[trigger] stack_of(w.take(j + 1)).contains(m) && i <= m ==> local_argmin(w, i, j) <= m,
{
    let v = w.take(j + 1);
    let a = local_argmin(w, i, j);
    lemma_local_argmin(w, i, j);
    lemma_stack_of(v);
    assert(suffix_min(v, a)) by {
        assert forall|p: int| a < p < v.len() implies v[a] <= #[trigger] v[p] by {
            assert(w[a] <= w[p]);
        }
    }
    assert forall|m: int| #[trigger] stack_of(v).contains(m) && i <= m implies a <= m by {
        if m < a {
            assert(suffix_min(v, m));
            assert(v[m] <= v[a]);
            assert(w[a] < w[m]);
        }
    }
}

/// Blocks of the same shape have their leftmost minima at the same places,
/// for every local range.
pub proof fn lemma_same_shape_same_argmin(w1: Seq<u64>, w2: Seq<u64>, i: int, j: int)
    requires
        shape_ops(w1) == shape_ops(w2),
        0 <= i <= j < w1.len(),
    ensures
        w1.len() == w2.len(),
        local_argmin(w1, i, j) == local_argmin(w2, i, j),
{
    lemma_same_shape_same_stacks(w1, w2);
    assert(stack_of(w1.take(j + 1)) == stack_of(w2.take(j + 1)));
    lemma_argmin_on_stack(w1, i, j);
    lemma_argmin_on_stack(w2, i, j);
    lemma_local_argmin(w1, i, j);
    lemma_local_argmin(w2, i, j);
}

/// A word holds at most one sequence of operations that ends with a push.
pub proof fn lemma_encoding_unique(sig: u64, o1: Seq<bool>, o2: Seq<bool>)
    requires
        encodes(sig, o1),
        encodes(sig, o2),
        o1.len() > 0 ==> o1.last(),
        o2.len() > 0 ==> o2.last(),
    ensures
        o1 == o2,
{
    if o1.len() < o2.len() {
        let q = (o2.len() - 1) as u64;
        assert(bit(sig, q));
    } else if o2.len() < o1.len() {
        let q = (o1.len() - 1) as u64;
        assert(bit(sig, q));
    }
    assert forall|k: int| 0 <= k < o1.len() implies o1[k] == o2[k] by {
        let q = k as u64;
        assert(q as int == k);
        assert(bit(sig, q) <==> o1[k]);
        assert(bit(sig, q) <==> o2[k]);
    }
    assert(o1 =~= o2);
}

/// The bits of a word above position `k` agree when all its bits agree.
proof fn lemma_high_bits_equal(s1: u64, s2: u64, k: u64)
    requires
        k < 64,
        forall|q: u64| q < 64 ==> bit(s1, q) == bit(s2, q),
    ensures
        s1 >> k == s2 >> k,
    decreases 64 - k,
{
    assert(bit(s1, k) == bit(s2, k));
    assert(((s1 >> k) & 1u64 == 0u64 || (s1 >> k) & 1u64 == 1u64) && ((s2 >> k) & 1u64 == 0u64 || (
    s2 >> k) & 1u64 == 1u64)) by (bit_vector);
    if k == 63 {
        assert(s1 >> 63u64 == (s1 >> 63u64) & 1u64 && s2 >> 63u64 == (s2 >> 63u64) & 1u64) by (bit_vector);
    } else {
        lemma_high_bits_equal(s1, s2, (k + 1) as u64);
        let k1 = (k + 1) as u64;
        assert(s1 >> k == ((s1 >> k1) << 1u64) | ((s1 >> k) & 1u64)) by (bit_vector)
            requires
                k < 63,
                k1 == k + 1,
        ;
        assert(s2 >> k == ((s2 >> k1) << 1u64) | ((s2 >> k) & 1u64)) by (bit_vector)
            requires
                k < 63,
                k1 == k + 1,
        ;
    }
}

/// A sequence of operations is held by at most one word.
pub proof fn lemma_encoding_determines_word(s1: u64, s2: u64, ops: Seq<bool>)
    requires
        encodes(s1, ops),
        encodes(s2, ops),
    ensures
        s1 == s2,
{
    assert forall|q: u64| q < 64 implies bit(s1, q) == bit(s2, q) by {}
    lemma_high_bits_equal(s1, s2, 0);
    assert(s1 >> 0u64 == s1 && s2 >> 0u64 == s2) by (bit_vector);
}

/// Two nonempty blocks whose shapes have the same signature have their
/// leftmost minima at the same places, for every local range.
pub proof fn lemma_same_signature_same_argmin(sig: u64, w1: Seq<u64>, w2: Seq<u64>, i: int, j: int)
    requires
        encodes(sig, shape_ops(w1)),
        encodes(sig, shape_ops(w2)),
        0 <= i <= j < w1.len(),
    ensures
        w1.len() == w2.len(),
        local_argmin(w1, i, j) == local_argmin(w2, i, j),
{
    lemma_shape_ends_with_push(w1);
    lemma_shape_ends_with_push(w2);
    lemma_encoding_unique(sig, shape_ops(w1), shape_ops(w2));
    lemma_same_shape_same_argmin(w1, w2, i, j);
}

/// The scan's answer for `[i, j]` only looks at `w[..=j]`.
proof fn lemma_argmin_of_prefix(w: Seq<u64>, k: int, i: int, j: int)
    requires
        0 <= i <= j < k <= w.len(),
    ensures
        local_argmin(w.take(k), i, j) == local_argmin(w, i, j),
    decreases j - i,
{
    if j > i {
        lemma_argmin_of_prefix(w, k, i, j - 1);
        lemma_local_argmin(w, i, j - 1);
    }
}

/// `m` is a suffix minimum of `w` exactly when it is the leftmost minimum
/// of `[m, len - 1]`.
proof fn lemma_suffix_min_is_argmin(w: Seq<u64>, m: int)
    requires
        0 <= m < w.len(),
    ensures
        suffix_min(w, m) <==> local_argmin(w, m, w.len() - 1) == m,
{
    let a = local_argmin(w, m, w.len() - 1);
    lemma_local_argmin(w, m, w.len() - 1);
    if suffix_min(w, m) && a != m {
        assert(w[m] <= w[a]);
        assert(w[a] < w[m]);
    }
    if a == m {
        assert forall|p: int| m < p < w.len() implies w[m] <= #[trigger] w[p] by {}
    }
}

/// Blocks whose leftmost minima lie at the same places, for every local
/// range, have the same shape.
pub proof fn lemma_same_argmin_same_shape(w1: Seq<u64>, w2: Seq<u64>)
    requires
        w1.len() == w2.len(),
        forall|i: int, j: int|
            0 <= i <= j < w1.len() ==> #[trigger] local_argmin(w1, i, j) == local_argmin(w2, i, j),
    ensures
        shape_ops(w1) == shape_ops(w2),
    decreases w1.len(),
{
    if w1.len() > 0 {
        let n = w1.len() - 1;
        let p1 = w1.drop_last();
        let p2 = w2.drop_last();
        assert forall|i: int, j: int| 0 <= i <= j < p1.len() implies #[trigger] local_argmin(p1, i, j)
            == local_argmin(p2, i, j) by {
            assert(p1 == w1.take(n));
            assert(p2 == w2.take(n));
            lemma_argmin_of_prefix(w1, n, i, j);
            lemma_argmin_of_prefix(w2, n, i, j);
            assert(local_argmin(w1, i, j) == local_argmin(w2, i, j));
        }
        lemma_same_argmin_same_shape(p1, p2);
        lemma_same_shape_same_stacks(p1, p2);
        assert(p1.take(n) == p1 && p2.take(n) == p2);
        let sp = stack_of(p1);
        assert(stack_of(p2) == sp);
        // the two final stacks hold the same positions, hence as many
        lemma_stack_of(w1);
        lemma_stack_of(w2);
        let s1 = stack_of(w1);
        let s2 = stack_of(w2);
        assert forall|m: int| s1.contains(m) <==> s2.contains(m) by {
            if 0 <= m < w1.len() {
                lemma_suffix_min_is_argmin(w1, m);
                lemma_suffix_min_is_argmin(w2, m);
                assert(local_argmin(w1, m, n) == local_argmin(w2, m, n));
            }
        }
        assert(s1.no_duplicates() && s2.no_duplicates()) by {
            assert forall|a: int, b: int| 0 <= a < s1.len() && 0 <= b < s1.len() && a != b implies s1[a]
                != s1[b] by {
                if a < b {
                    assert(s1[a] < s1[b]);
                } else {
                    assert(s1[b] < s1[a]);
                }
            }
            assert forall|a: int, b: int| 0 <= a < s2.len() && 0 <= b < s2.len() && a != b implies s2[a]
                != s2[b] by {
                if a < b {
                    assert(s2[a] < s2[b]);
                } else {
                    assert(s2[b] < s2[a]);
                }
            }
        }
        assert(s1.to_set() =~= s2.to_set());
        s1.unique_seq_to_set();
        s2.unique_seq_to_set();
        // the pops before the last push are the difference of the stack sizes
        lemma_stack_of(p1);
        lemma_stack_of(p2);
        lemma_pop_count(p1, sp, w1.last());
        lemma_pop_count(p2, sp, w2.last());
        let c1 = pop_count(p1, sp, w1.last());
        let c2 = pop_count(p2, sp, w2.last());
        assert(s1.len() == sp.len() - c1 + 1);
        assert(s2.len() == sp.len() - c2 + 1);
        assert(c1 == c2);
        assert(shape_ops(w1) =~= shape_ops(w2));
    }
}

/// Two blocks have the same shape exactly when they have the same length
/// and their leftmost minima lie at the same places, for every local range.
pub proof fn lemma_shape_iff_argmins(w1: Seq<u64>, w2: Seq<u64>)
    ensures
        shape_ops(w1) == shape_ops(w2) <==> (w1.len() == w2.len() && forall|i: int, j: int|
            0 <= i <= j < w1.len() ==> #[trigger] local_argmin(w1, i, j) == local_argmin(w2, i, j)),
{
    if shape_ops(w1) == shape_ops(w2) {
        lemma_same_shape_same_stacks(w1, w2);
        assert forall|i: int, j: int| 0 <= i <= j < w1.len() implies #[trigger] local_argmin(w1, i, j)
            == local_argmin(w2, i, j) by {
            lemma_same_shape_same_argmin(w1, w2, i, j);
        }
    }
    if w1.len() == w2.len() && forall|i: int, j: int|
        0 <= i <= j < w1.len() ==> #[trigger] local_argmin(w1, i, j) == local_argmin(w2, i, j) {
        lemma_same_argmin_same_shape(w1, w2);
    }
}

} // verus!
