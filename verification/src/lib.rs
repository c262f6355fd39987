//! A batched, sorted key-value map over 32-bit keys and 32-bit values.
//!
//! The persistent state is one contiguous slab of entries, strictly ascending
//! by key.  A batch insert sorts the batch, collapses equal keys so that the
//! last write wins, and merges the result with the slab in one monotone pass.
//! Deletes mark entries with a reserved tombstone value; lookups and range
//! scans are binary searches over the slab that skip tombstones.
//!
//! Every stage is written as it runs on a compute device, one invocation per
//! element, and is proved against a mathematical model of the slab.

pub mod data;
pub mod error;
pub mod gpu_array;
pub mod laws;
pub mod model;
pub mod pipelines;
pub mod sorted_map;
pub mod validate;

pub use data::{
    DedupParams, InputMeta, KeysMeta, KvEntry, MergeMeta, ResultEntry, SlabMeta, SortParams,
    TOMBSTONE_VALUE,
};
pub use error::GpuMapError;
pub use gpu_array::{GpuArray, GpuStorage};
pub use sorted_map::{BulkDeleteOp, BulkGetOp, BulkPutOp, GpuSortedMap, MAX_CAPACITY};
pub use pipelines::{BulkDeletePipeline, BulkGetPipeline, BulkPutPipeline, RangeScanPipeline};
