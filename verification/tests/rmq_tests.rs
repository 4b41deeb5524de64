use lib::rmq::block::{BlockRmq, PrecomputeBlockRmq};
use lib::rmq::cartesian::CartesianTree;
use lib::rmq::naive::Naive;
use lib::rmq::segment_tree::SegmentTree;
use lib::rmq::sparse_table::SparseTable;
use lib::rmq::store::Store;
use lib::rmq::util::min_of;
use lib::rmq::{query_sum, Rmq};

fn brute_min(data: &[u64], l: usize, r: usize) -> u64 {
    let mut m = u64::MAX;
    for &x in &data[l..=r] {
        if x < m {
            m = x;
        }
    }
    m
}

/// Deterministic pseudo-random values, some of them repeated.
fn pseudo_random(n: usize, seed: u64, modulus: u64) -> Vec<u64> {
    let mut x = seed;
    let mut out = Vec::new();
    for _ in 0..n {
        x = x.wrapping_mul(6364136223846793005).wrapping_add(1442695040888963407);
        out.push((x >> 33) % modulus);
    }
    out
}

fn inputs() -> Vec<Vec<u64>> {
    vec![
        vec![7],
        vec![3, 1, 4, 1, 5, 9, 2, 6, 5, 3, 5],
        (0..70).collect(),
        (0..70).rev().collect(),
        vec![42; 33],
        vec![u64::MAX, 0, u64::MAX, 5, u64::MAX - 1],
        pseudo_random(100, 1, 10),
        pseudo_random(129, 7, 1_000_000),
    ]
}

fn check_every_range<'a, R: Rmq<'a>>(data: &'a [u64]) {
    assert!(R::can_build(data.len()));
    let rmq = R::build(data);
    for l in 0..data.len() {
        for r in l..data.len() {
            assert_eq!(rmq.query(l, r), brute_min(data, l, r), "range [{}, {}] of {:?}", l, r, data);
        }
    }
}

fn check_all_inputs<R: for<'a> Rmq<'a>>() {
    for data in inputs() {
        check_every_range::<R>(&data);
    }
}

#[test]
fn min_of_empty_is_max() {
    assert_eq!(min_of(&[]), u64::MAX);
}

#[test]
fn min_of_finds_minimum() {
    assert_eq!(min_of(&[3, 1, 4, 1, 5]), 1);
    assert_eq!(min_of(&[9]), 9);
    assert_eq!(min_of(&[u64::MAX, u64::MAX]), u64::MAX);
}

#[test]
fn naive_answers_every_range() {
    for data in inputs() {
        check_every_range::<Naive>(&data);
    }
}

#[test]
fn store_answers_every_range() {
    check_all_inputs::<Store>();
}

#[test]
fn sparse_table_answers_every_range() {
    check_all_inputs::<SparseTable>();
}

#[test]
fn segment_tree_answers_every_range() {
    check_all_inputs::<SegmentTree>();
}

#[test]
fn block_answers_every_range() {
    for data in inputs() {
        check_every_range::<BlockRmq<1>>(&data);
        check_every_range::<BlockRmq<3>>(&data);
        check_every_range::<BlockRmq<4>>(&data);
        check_every_range::<BlockRmq<64>>(&data);
        check_every_range::<BlockRmq<512>>(&data);
    }
}

#[test]
fn precompute_block_answers_every_range() {
    for data in inputs() {
        check_every_range::<PrecomputeBlockRmq<1>>(&data);
        check_every_range::<PrecomputeBlockRmq<3>>(&data);
        check_every_range::<PrecomputeBlockRmq<4>>(&data);
        check_every_range::<PrecomputeBlockRmq<64>>(&data);
        check_every_range::<PrecomputeBlockRmq<512>>(&data);
    }
}

#[test]
fn cartesian_tree_answers_every_range() {
    for data in inputs() {
        check_every_range::<CartesianTree<1>>(&data);
        check_every_range::<CartesianTree<5>>(&data);
        check_every_range::<CartesianTree<6>>(&data);
        check_every_range::<CartesianTree<8>>(&data);
        check_every_range::<CartesianTree<16>>(&data);
        check_every_range::<CartesianTree<32>>(&data);
    }
}

#[test]
fn names() {
    assert_eq!(Naive::name(), "Naive");
    assert_eq!(Store::name(), "CachedQuery");
    assert_eq!(SparseTable::name(), "SparseTable");
    assert_eq!(SegmentTree::name(), "SegmentTree");
    assert_eq!(BlockRmq::<4>::name(), "Block<4>");
    assert_eq!(BlockRmq::<512>::name(), "Block<512>");
    assert_eq!(PrecomputeBlockRmq::<64>::name(), "PrecomputeBlock<64>");
    assert_eq!(CartesianTree::<6>::name(), "CartesianTree<6>");
    assert_eq!(CartesianTree::<32>::name(), "CartesianTree<32>");
}

#[test]
fn benchmark_limits() {
    assert_eq!(Naive::max_n(), 10_000);
    assert_eq!(Store::max_n(), 10_000);
    assert_eq!(SparseTable::max_n(), 10_000_000);
    assert_eq!(SegmentTree::max_n(), 10_000_000);
    assert_eq!(BlockRmq::<64>::max_n(), 10_000_000);
    assert_eq!(PrecomputeBlockRmq::<64>::max_n(), 10_000_000);
    assert_eq!(CartesianTree::<8>::max_n(), 10_000_000);
}

#[test]
fn accepted_lengths() {
    // a sparse table needs at least one value: ilog2(0) has no answer
    assert!(!SparseTable::can_build(0));
    assert!(SparseTable::can_build(1));
    assert!(!BlockRmq::<4>::can_build(0));
    assert!(!PrecomputeBlockRmq::<4>::can_build(0));
    assert!(!CartesianTree::<4>::can_build(0));
    // blocks of size 0 are refused, and shapes of more than 32 values
    assert!(!BlockRmq::<0>::can_build(10));
    assert!(!PrecomputeBlockRmq::<0>::can_build(10));
    assert!(!CartesianTree::<0>::can_build(10));
    assert!(!CartesianTree::<33>::can_build(10));
    assert!(CartesianTree::<32>::can_build(10));
    // structures that hold nothing but the values accept any length
    assert!(Naive::can_build(0));
    assert!(SegmentTree::can_build(0));
    assert!(Store::can_build(0));
    // all n (n + 1) / 2 answers would not fit in memory
    assert!(!Store::can_build(usize::MAX / 2));
    assert!(Store::can_build(1000));
    assert!(!SegmentTree::can_build(usize::MAX / 4));
}

#[test]
fn empty_inputs_build() {
    let data: Vec<u64> = Vec::new();
    let s = SegmentTree::build(&data);
    assert_eq!(s.space(), std::mem::size_of::<SegmentTree>());
    let st = Store::build(&data);
    assert_eq!(st.space(), std::mem::size_of::<Store>());
}

#[test]
fn single_value_ranges() {
    let data = vec![8, 6, 7, 5, 3, 0, 9];
    let c = CartesianTree::<4>::build(&data);
    let p = PrecomputeBlockRmq::<2>::build(&data);
    let s = SparseTable::build(&data);
    for i in 0..data.len() {
        assert_eq!(c.query(i, i), data[i]);
        assert_eq!(p.query(i, i), data[i]);
        assert_eq!(s.query(i, i), data[i]);
    }
}

#[test]
fn sparse_table_space() {
    // 10 values: levels for windows 1, 2, 4 and 8
    let data: Vec<u64> = (0..10).collect();
    let s = SparseTable::build(&data);
    assert_eq!(s.heap_bytes(), 4 * 10 * 8);
    assert_eq!(s.space(), std::mem::size_of::<SparseTable>() + 4 * 10 * 8);
    let one = SparseTable::build(&data[..1]);
    assert_eq!(one.heap_bytes(), 8);
}

#[test]
fn store_space() {
    let data: Vec<u64> = (0..6).collect();
    let s = Store::build(&data);
    assert_eq!(s.space(), std::mem::size_of::<Store>() + 21 * 8);
}

#[test]
fn segment_tree_space() {
    let data: Vec<u64> = (0..5).collect();
    let s = SegmentTree::build(&data);
    assert_eq!(s.space(), std::mem::size_of::<SegmentTree>() + 10 * 8);
}

#[test]
fn naive_space() {
    let data: Vec<u64> = (0..5).collect();
    let s = Naive::build(&data);
    assert_eq!(s.space(), std::mem::size_of::<Naive>());
}

#[test]
fn block_space() {
    // 10 values in blocks of 4: three blocks, a sparse table of 2 levels
    let data: Vec<u64> = (0..10).collect();
    let b = BlockRmq::<4>::build(&data);
    assert_eq!(b.space(), std::mem::size_of::<BlockRmq<4>>() + 2 * 3 * 8);
    let p = PrecomputeBlockRmq::<4>::build(&data);
    assert_eq!(
        p.space(),
        std::mem::size_of::<PrecomputeBlockRmq<4>>() + 10 * 8 + 10 * 8 + 2 * 3 * 8
    );
}

#[test]
fn cartesian_blocks_of_one_shape_share_a_table() {
    // two blocks of 4 with the same shape (increasing): one table of 10 entries
    let data: Vec<u64> = vec![1, 2, 3, 4, 5, 6, 7, 8];
    let c = CartesianTree::<4>::build(&data);
    assert_eq!(c.space(), std::mem::size_of::<CartesianTree<4>>() + 2 * 4 + 10 + 2 * 2 * 8);
    // two blocks of different shapes: two tables
    let data2: Vec<u64> = vec![1, 2, 3, 4, 8, 7, 6, 5];
    let c2 = CartesianTree::<4>::build(&data2);
    assert_eq!(c2.space(), std::mem::size_of::<CartesianTree<4>>() + 2 * 4 + 20 + 2 * 2 * 8);
}

#[test]
fn cartesian_local_index() {
    assert_eq!(CartesianTree::<4>::index(0, 0), 0);
    assert_eq!(CartesianTree::<4>::index(0, 1), 1);
    assert_eq!(CartesianTree::<4>::index(1, 1), 2);
    assert_eq!(CartesianTree::<4>::index(0, 2), 3);
    assert_eq!(CartesianTree::<4>::index(2, 3), 8);
    assert_eq!(CartesianTree::<4>::index(3, 3), 9);
    // every local range of a block of 32 gets its own slot below 32 * 33 / 2
    let mut seen = vec![false; 32 * 33 / 2];
    for j in 0..32 {
        for i in 0..=j {
            let k = CartesianTree::<32>::index(i, j);
            assert!(!seen[k]);
            seen[k] = true;
        }
    }
    assert!(seen.iter().all(|&b| b));
}

#[test]
fn cartesian_argmin_in_block() {
    // blocks [5, 1, 1, 3] and [2, 9, 0]
    let data: Vec<u64> = vec![5, 1, 1, 3, 2, 9, 0];
    let c = CartesianTree::<4>::build(&data);
    // the leftmost of the two minima
    assert_eq!(c.argmin_in_block(0, 0, 3), 1);
    assert_eq!(c.argmin_in_block(0, 2, 3), 2);
    assert_eq!(c.argmin_in_block(0, 0, 0), 0);
    assert_eq!(c.argmin_in_block(1, 0, 1), 4);
    assert_eq!(c.argmin_in_block(1, 1, 2), 6);
}

#[test]
fn equal_values_in_shared_shapes() {
    // blocks that share a shape but hold different values
    let data: Vec<u64> = vec![4, 4, 2, 9, 40, 40, 20, 90, 1, 1, 1, 1];
    check_every_range::<CartesianTree<4>>(&data);
    let c = CartesianTree::<4>::build(&data);
    assert_eq!(c.query(4, 7), 20);
    assert_eq!(c.query(0, 1), 4);
    assert_eq!(c.query(3, 9), 1);
}

#[test]
fn empty_ranges_where_answered() {
    let data: Vec<u64> = vec![4, 2, 7];
    let naive = Naive::build(&data);
    assert!(naive.can_query(2, 1));
    assert_eq!(naive.query(2, 1), u64::MAX);
    assert_eq!(naive.query(3, 2), u64::MAX);
    assert!(!naive.can_query(3, 1));
    assert!(!naive.can_query(0, 3));
    let seg = SegmentTree::build(&data);
    assert!(seg.can_query(2, 0));
    assert_eq!(seg.query(2, 0), u64::MAX);
    assert_eq!(seg.query(100, 5), u64::MAX);
    assert!(!seg.can_query(usize::MAX, 0));
    assert!(!seg.can_query(1, 3));
    let st = SparseTable::build(&data);
    assert!(st.can_query(0, 2));
    assert!(!st.can_query(2, 1));
    assert!(!st.can_query(1, 3));
}

#[test]
fn query_sums() {
    let data: Vec<u64> = vec![5, 3, 8, 1];
    let s = SparseTable::build(&data);
    let queries = vec![(0, 0), (0, 2), (2, 3), (1, 1)];
    assert_eq!(query_sum(&s, &queries), Some(5 + 3 + 1 + 3));
    assert_eq!(query_sum(&s, &[]), Some(0));
    let big: Vec<u64> = vec![u64::MAX - 1, 2];
    let c = CartesianTree::<2>::build(&big);
    assert_eq!(query_sum(&c, &[(0, 0), (1, 1)]), None);
    assert_eq!(query_sum(&c, &[(0, 1), (1, 1)]), Some(4));
}

#[test]
fn block_empty_range_after_r() {
    let data: Vec<u64> = vec![4, 2, 7, 1, 9];
    let b = BlockRmq::<2>::build(&data);
    assert!(b.can_query(3, 2));
    assert_eq!(b.query(3, 2), u64::MAX);
    assert!(!b.can_query(4, 2));
    let p = PrecomputeBlockRmq::<2>::build(&data);
    assert!(p.can_query(1, 0));
    assert_eq!(p.query(1, 0), u64::MAX);
    assert!(!p.can_query(0, 5));
}
