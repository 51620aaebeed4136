//! One aligner per kind of form: how it is recognised, read and rebuilt.
pub mod map_like;
pub mod vec_like;
pub mod ns_like;
pub mod thread_like;
pub mod cond_like;
pub mod condp_like;
pub mod generic_builder;
pub mod let_like;
