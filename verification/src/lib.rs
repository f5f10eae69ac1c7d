//! Reads Source 2 game state out of a memory image and turns it into tables of
//! offsets, schemas, buttons, console variables, events and protobuf messages.
//!
//! Every walker takes its input as plain values, most often a
//! [`memory::Memory`], and its contract says exactly what it returns for that
//! input.

pub mod analysis;
pub mod cli;
pub mod dump;
pub mod loadlib;
pub mod memory;
pub mod order;
pub mod paths;
pub mod patterns;
pub mod process;
pub mod report;
pub mod strmap;
pub mod text;
