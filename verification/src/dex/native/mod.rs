//! Native DEX front-end: decode the binary directly into the [`crate::dex::model`]
//! shape.
//!
//! It handles the v41 *container* format (several concatenated sections sharing one
//! file-relative data area). Only the operands the lock analysis consumes are decoded
//! (monitors, field access, invokes, allocations, moves, returns) plus per-instruction
//! offsets and the debug line table — everything else is `Op::Other`.

pub mod class;
pub mod code;
pub mod image;
pub mod items;
pub mod reader;
pub mod section;
pub mod table;

pub use code::{insn_width, opcode_width};
pub use image::{dex_version, parse_dex_bytes};
