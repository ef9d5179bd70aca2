//! Per-category minimum, average and maximum over `category;value` lines,
//! gathered over newline-aligned spans and merged.

pub mod aggregate;
pub mod chunks;
pub mod parse;
pub mod record;
pub mod report;
pub mod summary;
