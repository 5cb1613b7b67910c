//! Four-operand "core" puzzle: split a number into four balanced digit groups
//! and find the least value reachable by one subtraction, one multiplication
//! and one exact division.

pub mod arrangements;
pub mod digits;
pub mod evaluator;
pub mod input;
pub mod letters;
pub mod partition;

pub use digits::extract_digit;
pub use input::InputLine;
pub use letters::{number_to_letters, word_to_numbers};
pub use partition::split_numstring;
pub use evaluator::{find_core, fits_native_range, s_div, s_mul, s_sub, OptU};
