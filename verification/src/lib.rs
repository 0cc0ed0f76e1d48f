//! A snapshot test harness for language front-ends: render a stage's output
//! to text, normalize it, and compare it line by line against an expected
//! block of text.

pub mod text;
pub mod diff;
pub mod snapshot;

pub use diff::{Change, Diff};
pub use snapshot::{Mismatch, Snapshot};
