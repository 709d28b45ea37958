//! Namespace listing: the data model and the parsing and grouping logic
//! behind `lsns`, with its reading of `/proc` and printing left to the caller.

pub mod text;
pub mod stat;
pub mod model;
pub mod assign;
pub mod order;
pub mod mount;
pub mod process;
pub mod gather;
pub mod display;
