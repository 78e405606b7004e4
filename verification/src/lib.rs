//! An in-memory, generic, ordered key-value index that recursively partitions
//! a totally-ordered key domain into disjoint contiguous sub-ranges
//! ("segments"), each independently holding a bounded number of entries
//! before splitting further.

pub mod ids;
pub mod keys;
pub mod order;
pub mod spanning_rope;
pub mod store;

pub use order::StorageKey;
pub use order::StorageValue;
pub use spanning_rope::Interior;
pub use spanning_rope::Range;
pub use spanning_rope::SpanningRope;
pub use spanning_rope::StatsReporter;
pub use spanning_rope::StorageError;
pub use spanning_rope::MAX_SEGMENT_SIZE;
pub use store::LocalStorage;
