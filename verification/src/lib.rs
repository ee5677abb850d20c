//! Health checks for JSONL files: one pass over a stream of JSON records that
//! says how many lines parse, which keys and paths they hold, how long they
//! are and what a fair sample of them looks like.

pub mod catalog;
pub mod chain;
pub mod cli;
pub mod hist;
pub mod json;
pub mod lines;
pub mod number;
pub mod outline;
pub mod path;
pub mod piece;
pub mod record;
pub mod report;
pub mod rng;
pub mod rows;
pub mod sample;
pub mod schema;
pub mod stats;
pub mod tally;
pub mod text;
