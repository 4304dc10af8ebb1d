//! Line-oriented text utilities: the logic of `cat`, `echo`, `head`, `seq`
//! and `yes`, written without any I/O of its own.
//!
//! A command is a state machine ([`commands::Command`]). It never reads or
//! writes: it names the next action, and whoever drives it performs the
//! action and reports what came of it ([`protocol`]). So the same verified
//! rules run on the streams of a process and on streams held in memory
//! ([`memory`]), where each command has a `run` whose contract says, byte
//! for byte, what ends up in the output and how the run ends.
//!
//! Beneath the commands are the notion of a chunk and of a blank line
//! ([`lines`]), the scanner that cuts a stream into chunks ([`scanner`]),
//! and decimal text ([`decimal`]).

pub mod commands;
pub mod decimal;
pub mod lines;
pub mod memory;
pub mod protocol;
pub mod scanner;
