//! A verified pocket-calculator core.
//!
//! The library implements the state machine behind a four-function
//! calculator: a display string, digit and decimal-point entry, the four
//! binary operators applied left to right, equals, clear, sign toggle and
//! percent.  Numbers are exact fixed-point decimals with ten fractional
//! digits; results whose magnitude leaves the representable range, and
//! division by zero, overflow to an error marker on the display.
//!
//! Every transition is specified by a ghost model (`state::Model`) and a
//! spec-level step function, and each executable method is proved to
//! implement its step exactly.

pub mod laws;
pub mod number;
pub mod numeral;
pub mod state;
