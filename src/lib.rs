//! Resolution of a short directory-name fragment into the best-matching
//! directories around a starting directory.
pub mod text;
pub mod path;
pub mod ranking;
pub mod ignore;
pub mod budget;
pub mod resolve;
pub mod search;
pub mod segments;
pub mod absolute;
pub mod engine;
pub mod cli;
