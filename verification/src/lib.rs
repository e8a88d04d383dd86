//! Ternary encoding of packet-classification rules and the search for the
//! column segmentation of a rule set that saves the most storage.
pub mod binarize;
pub mod bits;
pub mod builder;
pub mod cost;
pub mod cuts;
pub mod error;
pub mod fields;
pub mod matrix;
pub mod rules;
pub mod text;
