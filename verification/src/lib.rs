//! Incremental reader for parenthesized forms, together with the session
//! driver of a small interactive language environment.
//!
//! The reader consumes one character at a time, recognises when a complete
//! top-level form has been assembled, recovers from local syntax errors
//! without disturbing the surrounding session, and reports precise
//! line/column positions for every error.
//!
//! - [`position`]: line/column tracking.
//! - [`form`]: the form tree, its mathematical model and its serialization.
//! - [`state`]: the parse accumulator and its model.
//! - [`parser`]: the character machine, the completion check, finalization
//!   and batch parsing.
//! - [`driver`]: the per-line and per-turn session state machine.
//! - [`laws`]: the properties the reader obeys, proved once and for all.

pub mod driver;
pub mod form;
pub mod laws;
pub mod parser;
pub mod position;
pub mod state;
