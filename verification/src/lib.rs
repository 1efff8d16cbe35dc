//! Tells how the source code of a directory tree is spread over programming languages.
//!
//! The library decides and counts, and reads nothing itself: a program around it reads
//! directories and files and hands over what it has read.
//!
//! - [`language`] tells the language of a file by the extension of its name.
//! - [`filter`] holds what a scan takes in and what it leaves out.
//! - [`walker`] goes through the entries of a directory: which files to count, which
//!   directories to scan next.
//! - [`tree`] states what a scan of a whole tree finds.
//! - [`lines`] counts the lines of a file.
//! - [`list`] keeps the totals of each language, orders them, and looks languages up.
//! - [`report`] works out totals and shares, and writes the lines of the report.
//! - [`root`] finds the root of the project that a directory lies in.
//! - [`text`] compares and writes text.

use vstd::prelude::*;

pub mod filter;
pub mod language;
pub mod lines;
pub mod list;
pub mod report;
pub mod root;
pub mod text;
pub mod tree;
pub mod walker;
