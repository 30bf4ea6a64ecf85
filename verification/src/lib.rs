//! Commit activity per day, author and project across git repositories, and
//! its layout as a calendar heatmap.
//!
//! The library works on plain values: commits as they were read from a
//! history, entries as a directory walk gave them, glyphs to be put on a
//! screen. Reading repositories and drawing on a terminal are the caller's
//! part.

pub mod aggregate;
pub mod analyzer;
pub mod calendar;
pub mod ledger;
pub mod scanner;
pub mod text;
pub mod tui;
