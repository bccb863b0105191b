//! Cycle-accurate simulator of an out-of-order superscalar integer pipeline:
//! register renaming, an integer issue queue, two-stage ALUs with result
//! forwarding, and an active list that retires in program order and rolls
//! back on exceptions.

pub mod alu;
pub mod entries;
pub mod instruction;
pub mod laws;
pub mod model;
pub mod opcode;
pub mod preservation;
pub mod processor;
pub mod simulation;
pub mod wellformed;
