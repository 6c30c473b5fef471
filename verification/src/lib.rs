//! Searching and downloading content of the Hugging Face Hub.
//!
//! The crate holds what the `xhf` command line decides and computes: which files
//! a set of patterns selects, which requests are sent, how a file is divided into
//! byte ranges, what a resumed download may trust, and what is printed. It reads
//! and writes nothing itself.
pub mod error;
pub mod text;
pub mod download;
pub mod cli;
pub mod url;
pub mod hub;
pub mod patterns;
pub mod config;
pub mod app;
