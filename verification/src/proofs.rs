//! Proofs about the grammars and the scanner: what is read is what the
//! grammar admits, and what is written is read back.

pub mod command;
pub mod gender;
pub mod choice;
pub mod content;
pub mod scanner;
