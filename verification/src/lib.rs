//! Phone-number mnemonics: every spelling of a seven-digit number on the
//! telephone keypad, and the interval sweep that decides whether dictionary
//! words tile a spelling from end to end.

pub mod coverage;
pub mod dictionary;
pub mod keypad;
pub mod order;
pub mod product;
