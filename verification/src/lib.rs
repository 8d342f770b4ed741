//! Line sorting for the `ms` command-line tool.
//!
//! The library takes a document — a sequence of text lines — and orders it
//! under one of three modes: the default byte-wise string order, an explicit
//! lexicographic order (the same comparison), or a numeric order in which each
//! line is keyed by the signed 64-bit integer it parses to, with unparseable
//! lines keyed by a sentinel that places them after every parsed value.
//! A separate reversal step inverts any ordering. Splitting raw text into
//! lines and composing the log-viewer message are verified here as well;
//! argument handling, I/O, logging and signal plumbing live outside.

pub mod input;
pub mod logview;
pub mod numeric;
pub mod order;
pub mod sorter;
pub mod split;
