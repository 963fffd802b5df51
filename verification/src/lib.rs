//! Reconciliation of locally installed packages against pending updates.
//!
//! The library parses package filenames and name-version-release strings
//! into structured identifiers, and classifies remote update records
//! against a local package inventory under authorship, comment and
//! interest filters.

pub mod classify;
pub mod config;
pub mod inventory;
pub mod laws;
pub mod parse;
pub mod report;
pub mod strutil;


