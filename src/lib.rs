//! A versioned entity archive: per-entity tapes of a baseline and structural
//! diffs, a batched and compressed stream-sample format, and paginated queries
//! over both.

use vstd::prelude::*;

pub mod codec;
pub mod error;
pub mod header;
pub mod manager;
pub mod page;
pub mod query;
pub mod recorder;
pub mod schemas;
pub mod store;
pub mod stream;
pub mod tape;
pub mod times;

verus! {

} // verus!
