//! A compact, line-oriented text encoding of streak events.
//!
//! A streak event records that a user acted in a channel of a guild at a
//! point in time.  One event is one line of `key_value` fields joined by
//! `.`; a log is a sequence of such lines.
//!
//! - [`streak`] holds the records, the log and their errors, and decodes
//!   and encodes them.  Its contracts are stated over sequences of
//!   characters: [`streak::decoded`] says what a line decodes to,
//!   [`streak::decoded_log`] what a text does, [`streak::encoded`] what a
//!   record is written as.
//! - [`laws`] proves what holds of the encoding as a whole: that decoding
//!   undoes encoding, that the first bad line fails a log, that the order
//!   of fields does not matter, that the last of two equal keys counts and
//!   that unknown keys are passed over.
//! - [`decimal`] and [`text`] read and write numerals and cut texts at
//!   separators.
//! - [`timestamp`] asks the Discord model whether a time is a timestamp.
//! - [`settings`] holds the per-guild settings.

pub mod decimal;
pub mod laws;
mod line;
pub mod settings;
pub mod streak;
pub mod text;
pub mod timestamp;
