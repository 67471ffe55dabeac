//! Counts lines of code, broken down into implementation, documentation and
//! test lines.

pub mod cli;
pub mod count;
pub mod data;
pub mod gitignore;
pub mod globs;
pub mod json;
pub mod lang;
pub mod listing;
pub mod numbers;
pub mod order;
pub mod ordmap;
pub mod output;
pub mod path;
pub mod path_ref;
pub mod render;
pub mod report;
pub mod source;
pub mod text;
pub mod vfs;
pub mod walk;
