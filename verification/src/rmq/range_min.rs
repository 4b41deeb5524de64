//! The mathematical model every structure is held to: the minimum of a
//! half-open range of a sequence, and the facts about it that the proofs use.
use vstd::prelude::*;

verus! {

/// The smaller of two values.
pub open spec fn min_u64(a: u64, b: u64) -> u64 {
    if b < a { b } else { a }
}

/// Minimum of `s[lo..hi)`; `u64::MAX` when the range is empty.
pub open spec fn range_min(s: Seq<u64>, lo: int, hi: int) -> u64
    decreases hi - lo,
{
    if hi <= lo {
        u64::MAX
    } else {
        min_u64(range_min(s, lo, hi - 1), s[hi - 1])
    }
}

/// Minimum of a whole sequence; `u64::MAX` for the empty one.
pub open spec fn seq_min(s: Seq<u64>) -> u64 {
    range_min(s, 0, s.len() as int)
}

/// The minimum of a range is below every element of the range and, for a
/// nonempty range, is one of its elements.
pub proof fn lemma_range_min_bounds(s: Seq<u64>, lo: int, hi: int)
    requires
        0 <= lo,
        hi <= s.len(),
    ensures
        forall|i: int| lo <= i < hi ==> range_min(s, lo, hi) <= #[trigger] s[i],
        lo < hi ==> exists|i: int| lo <= i < hi && s[i] == range_min(s, lo, hi),
    decreases hi - lo,
{
    if lo < hi {
        lemma_range_min_bounds(s, lo, hi - 1);
        if s[hi - 1] < range_min(s, lo, hi - 1) || lo == hi - 1 {
            assert(s[hi - 1] == range_min(s, lo, hi));
        } else {
            let w = choose|i: int| lo <= i < hi - 1 && s[i] == range_min(s, lo, hi - 1);
            assert(s[w] == range_min(s, lo, hi));
        }
    }
}

/// A value below every element of a nonempty range and equal to one of them
/// is the minimum of the range.
pub proof fn lemma_range_min_unique(s: Seq<u64>, lo: int, hi: int, v: u64, w: int)
    requires
        0 <= lo <= w < hi <= s.len(),
        s[w] == v,
        forall|i: int| lo <= i < hi ==> v <= #[trigger] s[i],
    ensures
        range_min(s, lo, hi) == v,
{
    lemma_range_min_bounds(s, lo, hi);
    let k = choose|i: int| lo <= i < hi && s[i] == range_min(s, lo, hi);
    assert(v <= s[k]);
    assert(range_min(s, lo, hi) <= s[w]);
}

/// Splitting a range at any point splits its minimum.
pub proof fn lemma_range_min_split(s: Seq<u64>, lo: int, mid: int, hi: int)
    requires
        lo <= mid <= hi,
    ensures
        range_min(s, lo, hi) == min_u64(range_min(s, lo, mid), range_min(s, mid, hi)),
    decreases hi - mid,
{
    if hi > mid {
        lemma_range_min_split(s, lo, mid, hi - 1);
    }
}

/// Two ranges that overlap or touch and together span `[lo, hi)` have the
/// minimum of `[lo, hi)` as the smaller of their minima.
pub proof fn lemma_range_min_cover(s: Seq<u64>, lo: int, d: int, c: int, hi: int)
    requires
        lo <= d <= c <= hi,
    ensures
        min_u64(range_min(s, lo, c), range_min(s, d, hi)) == range_min(s, lo, hi),
{
    lemma_range_min_split(s, lo, d, c);
    lemma_range_min_split(s, d, c, hi);
    lemma_range_min_split(s, lo, d, hi);
}

/// The minimum of a range of a subrange is the minimum of the shifted range.
pub proof fn lemma_range_min_subrange(s: Seq<u64>, a: int, b: int, i: int, j: int)
    requires
        0 <= a <= b <= s.len(),
        0 <= i <= j <= b - a,
    ensures
        range_min(s.subrange(a, b), i, j) == range_min(s, a + i, a + j),
    decreases j - i,
{
    if i < j {
        lemma_range_min_subrange(s, a, b, i, j - 1);
    }
}

} // verus!
