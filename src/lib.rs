//! Command-line argument scanning: a sequence of argument strings becomes a list of
//! positional arguments and a map from option names to the values seen for them.
//!
//! Long options (`--name`, `--name=value`), short options (`-x`, `-xvalue`, `-x=value`),
//! clusters of short options (`-xvf`), values that start with a dash and a digit
//! (`-n -5`) and the terminator `--` are recognised. Option names may be declared boolean,
//! so that they never take the next token as a value.
//!
//! `model` states what a scan yields, `parser` computes it, `options` holds the option map,
//! and `laws` proves properties that hold of every scan.

pub mod model;
pub mod options;
pub mod parser;
pub mod laws;

pub use options::OptionMap;
pub use parser::{ArgMap, new, parse};
