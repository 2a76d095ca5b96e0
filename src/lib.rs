//! Downloading chapters of a title from a remote catalogue: chapters are
//! split round-robin across worker lanes, each chapter is resolved to the
//! addresses of its pages, the pages are fetched with unbounded retry, and
//! the lanes' results are merged back into address order for one of five
//! output sinks. This crate holds the decisions and computations of that
//! pipeline; the network, the file system and the prompts are its caller's.
#![allow(non_snake_case)]

pub mod args;
pub mod chapter;
pub mod lanes;
pub mod manga;
pub mod retry;
pub mod scrape;
pub mod sinks;
pub mod text;
pub mod types;
