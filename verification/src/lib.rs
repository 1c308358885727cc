//! Backend library for a desktop HTML chapter editor.
//!
//! A project is a directory of chapter files: plain HTML documents or
//! body-only fragments. The library splits a document into its doctype,
//! head and body parts verbatim, reassembles edited parts into a full
//! document, decides which files a directory scan lists and in what
//! order, computes the sibling paths used for atomic writes and backups,
//! and gates the one-backup-per-session rule.

pub mod backup;
pub mod chapter;
pub mod html_parser;
pub mod project;
pub mod text;
