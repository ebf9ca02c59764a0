//! Out-of-core suffix array construction: a variable-width pointer codec,
//! cursors over encoded pointer tables, a k-way merge of partial suffix
//! arrays that emits the Burrows-Wheeler transform in the same pass, and the
//! layout of the final index files.

pub mod builder;
pub mod codec;
pub mod cursor;
pub mod error;
pub mod merge;
pub mod merge_facts;
pub mod names;
pub mod order;
pub mod partition;
pub mod pipeline;
pub mod stitch;
