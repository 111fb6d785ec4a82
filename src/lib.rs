//! Write-ingestion core of a log-structured storage engine: in-memory write
//! buffers, the decisions that freeze them, and the segment record format.

pub mod buffer;
pub mod write_path;
pub mod segment;
pub mod write_path_skiplist;
pub mod coordinator;
