//! Classification of EVM opcodes: push immediates, stack arity, and the
//! opcodes that end an instruction block.

use vstd::prelude::*;

verus! {

pub const OP_STOP: u8 = 0x00;
pub const OP_JUMP: u8 = 0x56;
pub const OP_JUMPI: u8 = 0x57;
pub const OP_JUMPDEST: u8 = 0x5b;
pub const OP_PUSH0: u8 = 0x5f;
pub const OP_RETURN: u8 = 0xf3;
pub const OP_REVERT: u8 = 0xfd;
pub const OP_INVALID: u8 = 0xfe;
pub const OP_SELFDESTRUCT: u8 = 0xff;

/// A push-class opcode: PUSH0 (0x5f) through PUSH32 (0x7f).
pub open spec fn spec_is_push(op: u8) -> bool {
    0x5f <= op <= 0x7f
}

/// Number of immediate data bytes consumed by an opcode (0 except for pushes).
pub open spec fn spec_push_len(op: u8) -> nat {
    if 0x60 <= op <= 0x7f {
        (op - 0x5f) as nat
    } else {
        0
    }
}

/// Stack arity of an opcode: `Some((popped, pushed))`, or `None` for a byte
/// that is not a defined EVM instruction.
pub open spec fn spec_arity(op: u8) -> Option<(nat, nat)> {
    if op == 0x00 {
        Some((0, 0))
    } else if 0x01 <= op <= 0x07 {
        Some((2, 1))
    } else if 0x08 <= op <= 0x09 {
        Some((3, 1))
    } else if 0x0a <= op <= 0x0b {
        Some((2, 1))
    } else if 0x10 <= op <= 0x14 {
        Some((2, 1))
    } else if op == 0x15 {
        Some((1, 1))
    } else if 0x16 <= op <= 0x18 {
        Some((2, 1))
    } else if op == 0x19 {
        Some((1, 1))
    } else if 0x1a <= op <= 0x1d {
        Some((2, 1))
    } else if op == 0x20 {
        Some((2, 1))
    } else if op == 0x30 {
        Some((0, 1))
    } else if op == 0x31 {
        Some((1, 1))
    } else if 0x32 <= op <= 0x34 {
        Some((0, 1))
    } else if op == 0x35 {
        Some((1, 1))
    } else if op == 0x36 {
        Some((0, 1))
    } else if op == 0x37 {
        Some((3, 0))
    } else if op == 0x38 {
        Some((0, 1))
    } else if op == 0x39 {
        Some((3, 0))
    } else if op == 0x3a {
        Some((0, 1))
    } else if op == 0x3b {
        Some((1, 1))
    } else if op == 0x3c {
        Some((4, 0))
    } else if op == 0x3d {
        Some((0, 1))
    } else if op == 0x3e {
        Some((3, 0))
    } else if op == 0x3f {
        Some((1, 1))
    } else if op == 0x40 {
        Some((1, 1))
    } else if 0x41 <= op <= 0x48 {
        Some((0, 1))
    } else if op == 0x49 {
        Some((1, 1))
    } else if op == 0x4a {
        Some((0, 1))
    } else if op == 0x50 {
        Some((1, 0))
    } else if op == 0x51 {
        Some((1, 1))
    } else if 0x52 <= op <= 0x53 {
        Some((2, 0))
    } else if op == 0x54 {
        Some((1, 1))
    } else if op == 0x55 {
        Some((2, 0))
    } else if op == 0x56 {
        Some((1, 0))
    } else if op == 0x57 {
        Some((2, 0))
    } else if 0x58 <= op <= 0x5a {
        Some((0, 1))
    } else if op == 0x5b {
        Some((0, 0))
    } else if op == 0x5c {
        Some((1, 1))
    } else if op == 0x5d {
        Some((2, 0))
    } else if op == 0x5e {
        Some((3, 0))
    } else if 0x5f <= op <= 0x7f {
        Some((0, 1))
    } else if 0x80 <= op <= 0x8f {
        Some((((op - 0x80) + 1) as nat, ((op - 0x80) + 2) as nat))
    } else if 0x90 <= op <= 0x9f {
        Some((((op - 0x90) + 2) as nat, ((op - 0x90) + 2) as nat))
    } else if 0xa0 <= op <= 0xa4 {
        Some((((op - 0xa0) + 2) as nat, 0))
    } else if op == 0xf0 {
        Some((3, 1))
    } else if 0xf1 <= op <= 0xf2 {
        Some((7, 1))
    } else if op == 0xf3 {
        Some((2, 0))
    } else if op == 0xf4 {
        Some((6, 1))
    } else if op == 0xf5 {
        Some((4, 1))
    } else if op == 0xfa {
        Some((6, 1))
    } else if op == 0xfd {
        Some((2, 0))
    } else if op == 0xfe {
        Some((0, 0))
    } else if op == 0xff {
        Some((1, 0))
    } else {
        None
    }
}

/// An opcode that halts execution of the current frame (or is undefined, which
/// the machine treats as invalid): the block it ends has no fallthrough.
pub open spec fn spec_is_terminal(op: u8) -> bool {
    op == OP_STOP || op == OP_RETURN || op == OP_REVERT || op == OP_INVALID
        || op == OP_SELFDESTRUCT || spec_arity(op) is None
}

/// An opcode after which a block must be split: a jump, a conditional jump,
/// or a terminal instruction.
pub open spec fn spec_is_block_end(op: u8) -> bool {
    op == OP_JUMP || op == OP_JUMPI || spec_is_terminal(op)
}

pub fn is_push(op: u8) -> (r: bool)
    ensures
        r == spec_is_push(op),
{
    0x5f <= op && op <= 0x7f
}

pub fn push_len(op: u8) -> (r: usize)
    ensures
        r == spec_push_len(op),
{
    if 0x60 <= op && op <= 0x7f {
        (op - 0x5f) as usize
    } else {
        0
    }
}

pub fn arity(op: u8) -> (r: Option<(usize, usize)>)
    ensures
        match r {
            Some(pq) => spec_arity(op) == Some((pq.0 as nat, pq.1 as nat)),
            None => spec_arity(op) is None,
        },
{
    if op == 0x00 {
        Some((0, 0))
    } else if 0x01 <= op && op <= 0x07 {
        Some((2, 1))
    } else if 0x08 <= op && op <= 0x09 {
        Some((3, 1))
    } else if 0x0a <= op && op <= 0x0b {
        Some((2, 1))
    } else if 0x10 <= op && op <= 0x14 {
        Some((2, 1))
    } else if op == 0x15 {
        Some((1, 1))
    } else if 0x16 <= op && op <= 0x18 {
        Some((2, 1))
    } else if op == 0x19 {
        Some((1, 1))
    } else if 0x1a <= op && op <= 0x1d {
        Some((2, 1))
    } else if op == 0x20 {
        Some((2, 1))
    } else if op == 0x30 {
        Some((0, 1))
    } else if op == 0x31 {
        Some((1, 1))
    } else if 0x32 <= op && op <= 0x34 {
        Some((0, 1))
    } else if op == 0x35 {
        Some((1, 1))
    } else if op == 0x36 {
        Some((0, 1))
    } else if op == 0x37 {
        Some((3, 0))
    } else if op == 0x38 {
        Some((0, 1))
    } else if op == 0x39 {
        Some((3, 0))
    } else if op == 0x3a {
        Some((0, 1))
    } else if op == 0x3b {
        Some((1, 1))
    } else if op == 0x3c {
        Some((4, 0))
    } else if op == 0x3d {
        Some((0, 1))
    } else if op == 0x3e {
        Some((3, 0))
    } else if op == 0x3f {
        Some((1, 1))
    } else if op == 0x40 {
        Some((1, 1))
    } else if 0x41 <= op && op <= 0x48 {
        Some((0, 1))
    } else if op == 0x49 {
        Some((1, 1))
    } else if op == 0x4a {
        Some((0, 1))
    } else if op == 0x50 {
        Some((1, 0))
    } else if op == 0x51 {
        Some((1, 1))
    } else if 0x52 <= op && op <= 0x53 {
        Some((2, 0))
    } else if op == 0x54 {
        Some((1, 1))
    } else if op == 0x55 {
        Some((2, 0))
    } else if op == 0x56 {
        Some((1, 0))
    } else if op == 0x57 {
        Some((2, 0))
    } else if 0x58 <= op && op <= 0x5a {
        Some((0, 1))
    } else if op == 0x5b {
        Some((0, 0))
    } else if op == 0x5c {
        Some((1, 1))
    } else if op == 0x5d {
        Some((2, 0))
    } else if op == 0x5e {
        Some((3, 0))
    } else if 0x5f <= op && op <= 0x7f {
        Some((0, 1))
    } else if 0x80 <= op && op <= 0x8f {
        Some((((op - 0x80) + 1) as usize, ((op - 0x80) + 2) as usize))
    } else if 0x90 <= op && op <= 0x9f {
        Some((((op - 0x90) + 2) as usize, ((op - 0x90) + 2) as usize))
    } else if 0xa0 <= op && op <= 0xa4 {
        Some((((op - 0xa0) + 2) as usize, 0))
    } else if op == 0xf0 {
        Some((3, 1))
    } else if 0xf1 <= op && op <= 0xf2 {
        Some((7, 1))
    } else if op == 0xf3 {
        Some((2, 0))
    } else if op == 0xf4 {
        Some((6, 1))
    } else if op == 0xf5 {
        Some((4, 1))
    } else if op == 0xfa {
        Some((6, 1))
    } else if op == 0xfd {
        Some((2, 0))
    } else if op == 0xfe {
        Some((0, 0))
    } else if op == 0xff {
        Some((1, 0))
    } else {
        None
    }
}

pub fn is_terminal(op: u8) -> (r: bool)
    ensures
        r == spec_is_terminal(op),
{
    op == OP_STOP || op == OP_RETURN || op == OP_REVERT || op == OP_INVALID
        || op == OP_SELFDESTRUCT || arity(op).is_none()
}

pub fn is_block_end(op: u8) -> (r: bool)
    ensures
        r == spec_is_block_end(op),
{
    op == OP_JUMP || op == OP_JUMPI || is_terminal(op)
}

/// Every opcode pops at most 17 and pushes at most 17 slots.
pub proof fn lemma_arity_bounds(op: u8)
    ensures
        match spec_arity(op) {
            Some(pq) => pq.0 <= 17 && pq.1 <= 17,
            None => true,
        },
{
}

} // verus!
