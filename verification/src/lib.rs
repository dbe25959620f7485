//! Building Atmel Studio projects from the command line, on Windows or from inside
//! WSL, and telling what the compiler said.
//!
//! The library takes every decision; reading files, asking the environment and
//! starting programs is left to the program around it.

pub mod app;
pub mod builder;
pub mod command;
pub mod config;
pub mod error;
pub mod host;
pub mod laws;
pub mod list;
pub mod locate;
pub mod number;
pub mod order;
pub mod path;
pub mod report;
pub mod search;
pub mod solution;
pub mod stale;
pub mod text;
