//! The data model of the pipeline: instruction blocks and their
//! stack-effect summaries.

use vstd::prelude::*;

verus! {

/// The entry-state-agnostic stack effect of one instruction block, computed
/// from the block's own instructions alone.
///
/// Entry slot `0` is the top of the stack when the block is entered; exit slot
/// `0` is the top of the stack when the block finishes.
#[derive(Clone, Debug)]
pub struct StackInfo {
    /// The number of slots that must exist on entry for the block to execute
    /// without underflow (one past the largest entry-slot index referenced).
    pub min_stack_size_required_for_entry: usize,
    /// For each entry slot (dense, indexed by entry position), the
    /// `(pc, opcode, operand position)` triples of the instructions in the
    /// block that read that slot.
    pub stack_entry_pos_to_op_usage: Vec<Vec<(u16, u8, usize)>>,
    /// For each entry slot (dense, indexed by entry position), the exit
    /// positions that slot's value occupies when the block finishes.
    pub stack_entry_pos_to_stack_exit_pos: Vec<Vec<usize>>,
    /// Net change in stack height from entry to exit.
    pub stack_size_delta: i32,
    /// If the block's terminal jump target is a literal pushed within the
    /// block, the literal value.
    pub push_used_for_jump: Option<u16>,
    /// For each push whose value fits a program counter and survives to the
    /// block's exit: `(exit position, value, index into push_vals)`.
    pub push_exit_vals: Vec<(usize, u16, usize)>,
}

impl StackInfo {
    /// The summary of an empty block: no slots touched, no height change.
    pub fn empty() -> (r: StackInfo)
        ensures
            r.min_stack_size_required_for_entry == 0,
            r.stack_entry_pos_to_op_usage@.len() == 0,
            r.stack_entry_pos_to_stack_exit_pos@.len() == 0,
            r.stack_size_delta == 0,
            r.push_used_for_jump is None,
            r.push_exit_vals@.len() == 0,
    {
        StackInfo {
            min_stack_size_required_for_entry: 0,
            stack_entry_pos_to_op_usage: Vec::new(),
            stack_entry_pos_to_stack_exit_pos: Vec::new(),
            stack_size_delta: 0,
            push_used_for_jump: None,
            push_exit_vals: Vec::new(),
        }
    }
}

/// A maximal straight-line run of instructions with no internal control-flow
/// or jump-destination boundary. `start_pc` and `end_pc` are the inclusive
/// bounds of the bytes the block covers (a trailing push immediate included)
/// and uniquely identify the block.
#[derive(Clone, Debug)]
pub struct InstructionBlock {
    pub start_pc: u16,
    pub end_pc: u16,
    /// The instructions: `(pc, opcode, immediate)`; the immediate is present
    /// exactly for push-class opcodes and is zero-padded if it runs past the
    /// end of the bytecode.
    pub ops: Vec<(u16, u8, Option<Vec<u8>>)>,
    /// If the block ends in a jump whose target is an entry stack slot rather
    /// than a literal push, the entry position that slot has.
    pub indirect_jump: Option<usize>,
    /// One entry per push in the block, in instruction order: the pushed bytes
    /// and, once the resolver has attached them, the jump targets the value
    /// was resolved to.
    pub push_vals: Vec<(Vec<u8>, Option<Vec<u16>>)>,
    pub stack_info: StackInfo,
}

impl InstructionBlock {
    pub open spec fn key(self) -> (u16, u16) {
        (self.start_pc, self.end_pc)
    }
}

} // verus!
