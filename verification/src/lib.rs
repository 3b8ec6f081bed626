//! Thesis-file identification, conversion planning and reporting for a batch
//! Word-to-PDF converter.
pub mod text;
pub mod paths;
pub mod scanner;
pub mod identifier;
pub mod converter;
pub mod commands;
