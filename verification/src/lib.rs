//! ID3 decision trees over small labelled tables.
//!
//! A [`Table`] holds named columns of cells. Its statistics are exact
//! counts: how often a value occurs in a column, how the values of a column
//! are distributed, and how a target column is distributed within each
//! value of a feature. A tree is built by splitting on the candidate
//! feature with the greatest score, where the caller says how a table of
//! counts is scored: the greater the score, the better the split.

pub mod column;
pub mod error;
pub mod partition;
pub mod stats;
pub mod table;
pub mod tree;
pub mod value;

pub use error::Id3Error;
pub use stats::Probability;
pub use table::Table;
pub use tree::DecisionTree;
pub use value::TableType;
