//! Holte's 1R quantization: given an ordered attribute and the class of each
//! observation, find an ordered list of half-open intervals over the
//! attribute's values, each of which predicts one class.
//!
//! The observations are sorted by value, a boundary is proposed wherever the
//! value changes, boundaries that would close a segment without a dominant
//! class are dropped, the surviving segments become intervals that predict
//! their most frequent class (a tie goes to the class seen first), and
//! neighbouring intervals of one class are merged.
pub mod interval;
pub mod iter;
pub mod quantize;

pub use interval::Interval;
pub use quantize::{find_intervals, find_intervals_in_sorted};
