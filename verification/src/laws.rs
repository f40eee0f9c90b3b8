//! What scripts mean: for each kind of command, what stands in the script and what comes of it.

pub mod addresses;
pub mod arguments;
pub mod commands;
pub mod delimited;
pub mod diagnostics;
pub mod embedding;
pub mod escapes;
pub mod files;
pub mod flags;
pub mod messages;
pub mod numbers;
pub mod patterns;
pub mod replacements;
pub mod scripts;
pub mod sources;
pub mod steps;
pub mod substitutions;
pub mod texts;
pub mod writing;
