//! A verified core for a `head`-style filter: strict positive-integer
//! argument parsing, run-configuration validation, and the line/byte
//! head-extraction and output-formatting logic.

pub mod config;
pub mod emit;
pub mod head;
pub mod parse;

pub use config::Config;
pub use config::HeadError;
pub use config::resolve;
pub use emit::RunOutput;
pub use emit::render;
pub use head::head_bytes;
pub use head::head_lines;
pub use parse::parse_positive_int;
