//! What is shown and saved of the results.

pub mod ansi;
pub mod calendar;
pub mod export;
pub mod table;
