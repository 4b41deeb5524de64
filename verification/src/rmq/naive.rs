//! Answers each query by scanning the range.
use vstd::prelude::*;
use crate::rmq::Rmq;
use crate::rmq::range_min::{lemma_range_min_subrange, range_min};
use crate::rmq::util::min_of;

verus! {

pub struct Naive<'a> {
    data: &'a [u64],
}

impl<'a> Rmq<'a> for Naive<'a> {
    closed spec fn values(&self) -> Seq<u64> {
        self.data@
    }

    closed spec fn well_formed(&self) -> bool {
        true
    }

    /// Also the empty range just after `l - 1`, i.e. `l == r + 1`: its minimum is `u64::MAX`.
    open spec fn admits(&self, l: int, r: int) -> bool {
        0 <= l <= r + 1 && r < self.values().len()
    }

    proof fn lemma_admits_ranges(&self, l: int, r: int) {
    }

    fn can_query(&self, l: usize, r: usize) -> (b: bool) {
        r < self.data.len() && l <= r + 1
    }

    open spec fn buildable(n: nat) -> bool {
        true
    }

    fn name() -> (s: String)
        ensures
            s@ == "Naive"@,
    {
        "Naive".to_string()
    }

    fn max_n() -> (m: usize)
        ensures
            m == 10_000,
    {
        10_000
    }

    fn can_build(n: usize) -> (b: bool) {
        true
    }

    fn build(data: &'a [u64]) -> (s: Self) {
        Self { data }
    }

    fn space(&self) -> (b: usize)
        ensures
            b as nat == vstd::layout::size_of::<Naive<'a>>(),
    {
        core::mem::size_of::<Naive<'a>>()
    }

    fn query(&self, l: usize, r: usize) -> (m: u64) {
        // the slice's length bounds `r + 1`
        let len = self.data.len();
        proof {
            assert(r + 1 <= len);
            assert(self.values() == self.data@);
            lemma_range_min_subrange(self.data@, l as int, r + 1, 0, r + 1 - l);
            assert(range_min(self.data@, l as int, l as int) == u64::MAX);
        }
        min_of(&self.data[l..r + 1])
    }
}


impl<'a> Naive<'a> {
    /// A naive structure only keeps the slice, so it is built over inputs of
    /// every length.
    pub proof fn lemma_builds_any_length(n: nat)
        ensures
            <Naive<'a> as Rmq<'a>>::buildable(n),
    {
    }
}

} // verus!
