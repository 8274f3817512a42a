pub mod bench_fn;
pub mod heap;
