//! Decimal numbers that remember how they were written: plainly (`1234.5`)
//! or with a comma between every group of three integral digits
//! (`1,234.5`).
//!
//! - `decimal`: the `Decimal` value (sign, magnitude, scale) and the calls
//!   into `rust_decimal` that round, rescale and print it;
//! - `pretty`: `PrettyDecimal`, a value with its `Format`, and how it is
//!   written;
//! - `display`: the comma format;
//! - `parse`: reading a `PrettyDecimal` from text;
//! - `laws` and `roundtrip`: what holds across these, proved.

pub mod decimal;
pub mod display;
pub mod hints;
pub mod laws;
pub mod parse;
pub mod pretty;
pub mod roundtrip;
pub mod text;

pub use decimal::{Decimal, DecimalError, MAX_MAGNITUDE, MAX_SCALE};
pub use display::display_comma_3_dot_impl;
pub use hints::{cold, likely, unlikely};
pub use parse::{try_find_char, ParseError};
pub use pretty::{Format, PrettyDecimal, Rendering};
