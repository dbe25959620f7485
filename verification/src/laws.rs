//! What holds of the library as a whole.
//!
//! The laws here say what comes out of what is put in, for texts that are put together
//! the way the files, logs and tables that the program reads are put together, and how
//! what comes out of one call relates to what comes out of another.

pub mod app;
pub mod builder;
pub mod display;
pub mod host;
pub mod noise;
pub mod path;
pub mod report;
pub mod search;
pub mod solution;
pub mod stale;
pub mod text;
