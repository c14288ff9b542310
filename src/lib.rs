//! Skip the failures of a sequence of outcomes and keep the successes, in
//! order, optionally reporting each discarded failure through a pluggable
//! reporting port.
//!
//! [`SkipError`] extends any iterator over `Result`s with
//! [`SkipError::skip_error`] and [`SkipError::skip_error_and_log`], which wrap
//! it in a [`SkipErrorIter`]. Each call of [`SkipErrorIter::next`] pulls from
//! the source until it meets a success, in a loop, so that a long run of
//! failures costs no stack. [`ok_or_report`] serves callers that run their
//! own loop.

pub mod adapter;
pub mod level;
pub mod outcome;

pub use adapter::{ok_or_report, Report, Silent, SkipError, SkipErrorIter};
pub use level::Level;
