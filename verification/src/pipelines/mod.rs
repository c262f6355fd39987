//! The compute stages of the map, one module per pipeline.

pub mod bulk_delete;
pub mod bulk_get;
pub mod bulk_put;
pub mod network;
pub mod range_scan;
pub mod sort;

pub use bulk_delete::BulkDeletePipeline;
pub use bulk_get::BulkGetPipeline;
pub use bulk_put::BulkPutPipeline;
pub use range_scan::RangeScanPipeline;
