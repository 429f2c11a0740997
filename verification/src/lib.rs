//! File tools for agents — `read`, `write`, `find` and `grep` — over a
//! filesystem reached only through the [`fs::ToolFs`] trait, with the text
//! measures and truncation rules their model-facing output follows.
//!
//! - [`lines`], [`text`], [`units`], [`order`]: sequences split at a
//!   separator, UTF-8 facts and string building, UTF-16 measures and
//!   human-readable sizes, byte-wise string order.
//! - [`truncate`], [`report`], [`laws`]: complete-line head truncation, the
//!   bracketed notices of listing tools, and what holds across calls.
//! - [`fs`], [`path`], [`confine`]: the backend surface and its errors,
//!   `/`-separated paths, and the confinement decisions of a native backend.
//! - [`walk`], [`globs`]: walking a tree under gitignore rules; glob patterns.
//! - [`read`], [`write`], [`glob`], [`grep`], [`grep_render`]: the tools.

pub mod lines;
pub mod text;
pub mod units;
pub mod order;
pub mod truncate;
pub mod report;
pub mod laws;
pub mod fs;
pub mod path;
pub mod confine;
pub mod walk;
pub mod globs;
pub mod read;
pub mod write;
pub mod glob;
pub mod grep_render;
pub mod grep;
