//! A virtual machine for a linear three-address instruction set in the ILOC
//! style: named 32-bit registers created on first write, byte-addressed
//! memory holding little-endian words, and a program of text lines decoded
//! one at a time as the machine steps through them.
//!
//! `parser` turns program text into instruction lines, `instruction` decodes
//! a line, `vm` carries it out, `laws` states what holds of every run, and
//! `console` holds what the interactive front end decides and shows.
pub mod alu;
pub mod console;
pub mod instruction;
pub mod laws;
pub mod memory;
pub mod number;
pub mod parser;
pub mod registers;
pub mod text;
pub mod vm;
