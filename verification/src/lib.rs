//! Generates configuration files from templates and YAML values.

pub mod cli;
pub mod config;
pub mod document;
pub mod merge;
pub mod render;
pub mod text;
pub mod values;
pub mod writer;
pub mod yaml;
