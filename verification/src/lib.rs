pub mod text;
pub mod block_range_iter;
pub mod dowloadfile;
pub mod task;
