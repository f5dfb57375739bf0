//! Reconstruction of a transcript from a raw session: the marker splitting
//! (`parser`), the reading of the emulated screen (`screen`), the assembly
//! of sections (`builder`), and the format that the shell hooks write
//! (`hooks`).

pub mod builder;
pub mod hooks;
pub mod parser;
pub mod screen;

pub use builder::{Section, Timestamp, Transcript};
