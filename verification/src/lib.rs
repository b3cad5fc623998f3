//! A projection-and-filter engine for plain comma-separated text.
//!
//! The engine reads a table whose first line names the columns, keeps the
//! columns that the caller selects (always in the order of the header), and
//! keeps the rows that satisfy a list of single-column comparisons. Text is
//! modelled as a sequence of characters; every comparison is lexicographic.
//!
//! `process_csv_impl` is the entry point. Its contract is the spec function
//! `transform::transform`, which is built from the spec functions of the
//! other modules:
//!
//! - `text`: trimming, searching, splitting, lines, fields and order;
//! - `filter`: the operators and the reading of filter texts;
//! - `header`: finding columns by name and choosing the columns to put out;
//! - `row`: judging one row against the filters;
//! - `transform`: the whole run;
//! - `error`: the ways in which a run fails.
//!
//! The modules `laws` and `rerun` prove what holds of every run, on the
//! facts about text that `lemmas` collects.

pub mod error;
pub mod filter;
pub mod header;
pub mod laws;
pub mod lemmas;
pub mod rerun;
pub mod row;
pub mod text;
pub mod transform;

pub use error::CsvError;
pub use filter::{rejected_filters, remove_invalid_filters, split_filter, Operator};
pub use row::apply_filters;
pub use transform::process_csv_impl;
