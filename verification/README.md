# pretty_decimal

Decimal numbers that remember how they were written: plainly (`1234.5`) or
with a comma before every group of three integral digits (`1,234.5`).

- `src/` is the verified library. `Decimal` holds a number as the plain
  values of `rust_decimal::Decimal` (sign, magnitude, scale); rounding,
  rescaling and printing are done by `rust_decimal` through small trusted
  wrappers whose contracts state what its source does, down to its 96-bit
  arithmetic (the rounding midpoint wraps once 30 or more digits are
  dropped; printing panics above scale 30). `PrettyDecimal`
  pairs a value with its `Format`; `to_string`, `render` and
  `display_comma_3_dot_impl` write it, `from_str` and `checked_from_str`
  read it back. `laws.rs` proves what holds across them, chief among them
  that reading what `to_string` writes gives back the value.
- `app/` gives a copy of `PrettyDecimal` over `rust_decimal::Decimal` the
  traits that the verified library cannot implement: `Display` (through
  `render`), `FromStr` (through `checked_from_str`), and the `thiserror`
  error type.
- `tests/` runs the library against the real outside crates.
