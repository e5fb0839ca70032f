//! INI-style configuration files: parsing, querying, merging and rendering.
//!
//! - groups are created by naming them within brackets.
//! - an equal sign ('=') is used for variable assignment.
//! - values can contain a '=' character.
//! - leading and trailing whitespace is ignored.
//! - whitespace surrounding group names, variables, and values is removed.
//! - whitespace within group names, variable names, and values is allowed.
//! - a semicolon (';') at the beginning of a line denotes a comment.
//! - if a variable is set multiple times in a file, the last one read is kept.
//!
//! Multiple INI files can be merged into a single configuration; variables
//! read in a later file replace any set in prior configuration files.

pub mod chars;
pub mod config;
pub mod line;
pub mod parse;
pub mod render;
