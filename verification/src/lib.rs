//! A verified front end for the `sed` stream editor.

pub mod command;
pub mod compiler;
pub mod delimited_parser;
pub mod error_handling;
pub mod fast_regex;
pub mod in_place;
pub mod incremental;
pub mod laws;
pub mod named_reader;
pub mod named_writer;
pub mod paths;
pub mod quoting;
pub mod script_char_provider;
pub mod script_line_provider;
pub mod text;
