//! Verified core of a keypad calculator: the expression compiler, the
//! editing rules of the entry line, the keypad decisions and the layout of
//! the display.

pub mod error;
pub mod numeric;
pub mod compile;
pub mod bounded;
pub mod entry;
pub mod display;
pub mod keypad;
