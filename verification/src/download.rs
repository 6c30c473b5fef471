//! Downloading files: tasks, byte ranges, resumed state and progress.
pub mod ranges;
pub mod tasks;
pub mod selection;
pub mod resume;
pub mod response;
pub mod writer;
pub mod files;
pub mod batch;
pub mod units;
pub mod progress;
