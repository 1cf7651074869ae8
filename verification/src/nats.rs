//! The wire protocol: text utilities, error taxonomy, command values and
//! the command parser.

pub mod commands;
pub mod errors;
pub mod parse_utils;
pub mod parser;
