//! In-process analytical engine over small row-oriented datasets: aggregation
//! and pivoting, a substring-classified query interpreter with plan estimation,
//! series chunking and downsampling for rendering, and chunk-wise reductions
//! over numeric buffers. All quantities are integer-valued; callers that work
//! in floating point convert at the boundary.

pub mod aggregate;
pub mod chart;
pub mod compute;
pub mod data_engine;
pub mod parse;
pub mod query;
pub mod row;
pub mod text;
