//! A transformation and analysis library for CPU-sampling profiler traces
//! stored in a columnar, index-linked form: per-thread call-stack samples
//! encoded as parallel tables of strings, functions, frames, and stack nodes.
//!
//! The library models the call-stack forest as a parent-pointer table,
//! resolves root-to-leaf call paths, excludes functions by name pattern
//! while keeping every table index stable, and aggregates sample weights
//! (self/cumulative counts, total weights, reverse trace search).

pub mod exclude;
pub mod flatten;
pub mod laws;
pub mod matcher;
pub mod paths;
pub mod profile;
pub mod stats;
pub mod tables;
pub mod traces;

pub use profile::FrameTable;
pub use profile::FuncTable;
pub use profile::Profile;
pub use profile::ProfileError;
pub use profile::ProfileSharedData;
pub use profile::SampleTable;
pub use profile::StackTable;
pub use profile::Thread;
pub use tables::FrameIdx;
pub use tables::FrameVec;
pub use tables::FuncIdx;
pub use tables::FuncVec;
pub use tables::Id;
pub use tables::IndexFrameTable;
pub use tables::IndexFuncTable;
pub use tables::IndexSampleTable;
pub use tables::IndexStackTable;
pub use tables::IndexStringTable;
pub use tables::SampleVec;
pub use tables::StackIdx;
pub use tables::StackVec;
pub use tables::StringIdx;
pub use tables::StringVec;
pub use tables::TypedVec;
pub use stats::CountMap;
pub use traces::TraceMap;
