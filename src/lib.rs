//! A set of fixed-width unsigned integers kept as a binary prefix tree whose
//! nodes each cover two bit levels, with running zero-minus-one tallies at
//! every decision point so that majority and minority narrowing need no rescan.

pub mod bits;
pub mod filtering;
pub mod narrowing;
pub mod prefix_set;

pub use prefix_set::{Node, SemiCollapsedBinPrefixSet};
