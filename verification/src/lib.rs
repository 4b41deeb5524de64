//! Range-minimum queries over a fixed array of `u64` values, answered by several
//! classic data structures that all share the [`rmq::Rmq`] interface.
pub mod input;
pub mod rmq;
