//! Recovery of the control-flow graph of an EVM bytecode program from its raw
//! bytes: linear disassembly into instruction blocks, per-block abstract
//! stack-effect summaries, direct edge formation, and fixed-point resolution
//! of indirect jumps.

pub mod block;
pub mod cfg;
pub mod disasm;
pub mod graph;
pub mod hexdec;
pub mod jumpdest;
pub mod opcode;
pub mod pipeline;
pub mod stack;

use vstd::prelude::*;

verus! {

} // verus!
