//! Memory usage analysis: process grouping, size formatting and the parsers
//! for the system tools' output, verified with Verus.
pub mod text;
pub mod scanner;
pub mod group;
pub mod sort;
pub mod app;
pub mod laws;
pub mod cli;
pub mod footprint;
pub mod top;
pub mod detail;
