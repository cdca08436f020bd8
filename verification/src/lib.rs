//! Tick labels for chart axes, computed in exact decimal arithmetic.
//!
//! Given the range of the data and the room on the axis, the library chooses
//! evenly spaced, human-friendly labels by the extended Wilkinson method: a
//! search over step sizes `j * q * 10^z` and label counts, scored for
//! coverage, simplicity, density and legibility.  Numbers are mantissas at a
//! decimal exponent, never floats, so that every score is compared exactly
//! and the labels are the best there are, not merely good ones.
//!
//! - [`policy`]: how labels must sit relative to the data.
//! - [`score`]: the criteria and their weighted sum.
//! - [`candidate`]: the labellings that compete, and bounds on their scores.
//! - [`search`]: the pruned search for the best of them.
//! - [`refine`]: why the grid of the search is fine enough.
//! - [`labels`]: label sets, and `generate_labels`.
//! - [`precision`]: the digits needed to print a number.
//! - [`axis`]: labels, precision and scale of an axis together.
//! - [`numeric`]: powers of ten and rounding division.

pub mod axis;
pub mod candidate;
pub mod labels;
pub mod numeric;
pub mod policy;
pub mod precision;
pub mod refine;
pub mod score;
pub mod search;
