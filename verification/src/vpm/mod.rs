//! The package manager's rules: choosing package versions, checking cached downloads, and the
//! project manifest.
pub mod cache;
pub mod package;
pub mod maps;
pub mod manifest;
pub mod project;
pub mod resolution;
pub mod setting;
pub mod listing;
pub mod repos;
