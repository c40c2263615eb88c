use vstd::prelude::*;

pub mod kinds;
pub mod text;
pub mod groups;
pub mod order;
pub mod similarity;
pub mod predicate;
pub mod access_tracker;
pub mod config;
pub mod ids;
pub mod format;
pub mod memory;
pub mod pipeline;
pub mod conflict;
pub mod requests;
pub mod journal;
pub mod ops_buffer;
pub mod audit;
pub mod reflect;
pub mod entity;
pub mod staleness;
pub mod cache;
pub mod recall;

verus! {

} // verus!
