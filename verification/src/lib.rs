//! Windowed pair-sum checking over sequences of large unsigned integers.
//!
//! The library tracks the `W` most recent elements of a sequence in a
//! frequency map and finds the first later element that cannot be written as
//! the sum of two distinct-position elements of that window.

pub mod number_map;
pub mod scan;
