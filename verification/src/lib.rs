//! Front end for an eight-symbol tape language: bytes are lexed into opcodes
//! with a table of matched loop markers, and opcodes are lowered into a folded
//! instruction sequence with resolved jump targets.

pub mod error;
pub mod folding;
pub mod ir;
pub mod jumps;
pub mod lowering;
pub mod nesting;
pub mod opcode;
