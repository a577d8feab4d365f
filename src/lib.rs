//! A prime-factor (Good-Thomas) decomposition of the discrete Fourier
//! transform, with its index maps and execution pipeline verified.
pub mod algorithm;
pub mod array_utils;
pub mod math_utils;
pub mod good_thomas_algorithm;
