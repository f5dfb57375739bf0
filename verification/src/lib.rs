//! termrec: record a terminal session and reconstruct a readable transcript.
//!
//! This crate holds the logic of termrec: splitting a raw session on the
//! shell hooks' markers, turning the emulated screen into text, resolving
//! settings, naming the stored files and composing the messages that the
//! program prints. The program around it performs the I/O.

pub mod cli;
pub mod commands;
pub mod config;
pub mod paths;
pub mod template;
pub mod text;
pub mod ui;
pub mod transcript;
