//! Verified core of a disk space analyzer: the aggregation of a directory
//! scan into size rankings and breakdowns, and the text formatting and
//! dashboard decisions of its user interface.

pub mod text;
pub mod calendar;
pub mod dashboard;
pub mod display;
pub mod format;
mod keep;
pub mod links;
pub mod models;
pub mod paths;
pub mod rank;
pub mod scan;
pub mod table;
pub mod tally;
