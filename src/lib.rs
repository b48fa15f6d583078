//! Spreadsheet merge pipeline: type inference for raw cells, key joins,
//! difference columns, grouping for split export, and projection.
pub mod cleaner;
pub mod difference;
pub mod grouping;
pub mod join;
pub mod naming;
pub mod pipeline;
pub mod preview;
pub mod projection;
pub mod session;
pub mod table;
pub mod text;
