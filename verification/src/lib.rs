//! Tracks whether locally vendored Arch Linux build recipes are out of date
//! relative to their declared remote sources.
//!
//! The crate covers the version-comparison pipeline: extracting `pkgver` and
//! `pkgrel` from recipe text, deciding a per-package outcome from the local
//! and remote recipe contents, and aggregating the outcomes into a
//! name-sorted report. File reads, HTTP fetches and console output live in
//! the surrounding application.

pub mod builder;
pub mod config;
pub mod pkgbuild;
pub mod scanner;
pub mod text;
