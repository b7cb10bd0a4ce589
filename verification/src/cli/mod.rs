//! The options of the command-line tool's subcommands (argument parsing itself is the
//! program's part).
pub mod commands;
pub mod add;
pub mod info;
pub mod list;
pub mod query;
