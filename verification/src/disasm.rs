//! Linear disassembly of raw bytecode into instruction blocks, splitting after
//! every control-flow instruction and before every jump destination.

use crate::block::{InstructionBlock, StackInfo};
use crate::opcode::{
    is_block_end, is_push, push_len, spec_is_block_end, spec_is_push, spec_push_len, OP_JUMPDEST,
};
use vstd::prelude::*;

verus! {

/// The zero-padded immediate of the push opcode at `pc`.
#[verifier::opaque]
pub open spec fn spec_imm(bytes: Seq<u8>, pc: int) -> Seq<u8> {
    Seq::new(
        spec_push_len(bytes[pc]),
        |j: int| if pc + 1 + j < bytes.len() { bytes[pc + 1 + j] } else { 0u8 },
    )
}

/// One disassembled instruction is faithful to the bytes: its opcode is the
/// byte at its pc, and it carries the (zero-padded) immediate exactly when it
/// is a push.
pub open spec fn spec_op_ok(bytes: Seq<u8>, o: (u16, u8, Option<Vec<u8>>)) -> bool {
    &&& (o.0 as int) < bytes.len()
    &&& o.1 == bytes[o.0 as int]
    &&& match o.2 {
        Some(v) => spec_is_push(o.1) && v@ == spec_imm(bytes, o.0 as int),
        None => !spec_is_push(o.1),
    }
}

/// The push-class instructions of `ops`, in order.
pub open spec fn spec_pushes(ops: Seq<(u16, u8, Option<Vec<u8>>)>) -> Seq<
    (u16, u8, Option<Vec<u8>>),
> {
    ops.filter(|o: (u16, u8, Option<Vec<u8>>)| spec_is_push(o.1))
}

/// The push-value list mirrors the pushes of `ops`, in order, with no resolved
/// targets attached yet.
pub open spec fn spec_push_vals_fresh(
    ops: Seq<(u16, u8, Option<Vec<u8>>)>,
    pv: Seq<(Vec<u8>, Option<Vec<u16>>)>,
) -> bool {
    &&& pv.len() == spec_pushes(ops).len()
    &&& forall|k: int|
        0 <= k < pv.len() ==> {
            &&& (#[trigger] pv[k]).1 is None
            &&& match spec_pushes(ops)[k].2 {
                Some(v) => pv[k].0@ == v@,
                None => false,
            }
        }
}

/// Appending an instruction extends the push list by the instruction exactly
/// when it is a push.
pub proof fn lemma_pushes_snoc(ops: Seq<(u16, u8, Option<Vec<u8>>)>, o: (u16, u8, Option<Vec<u8>>))
    ensures
        spec_is_push(o.1) ==> spec_pushes(ops.push(o)) == spec_pushes(ops).push(o),
        !spec_is_push(o.1) ==> spec_pushes(ops.push(o)) == spec_pushes(ops),
{
    reveal(Seq::filter);
    assert(ops.push(o).drop_last() =~= ops);
    if spec_is_push(o.1) {
        assert(spec_pushes(ops.push(o)) =~= spec_pushes(ops).push(o));
    }
}

/// A well-formed instruction block over `bytes`: the instructions are
/// contiguous, faithful, stay inside the block, the block's bounds match its
/// first and last instruction, and no split point lies inside it.
#[verifier::opaque]
pub open spec fn spec_block_wf(bytes: Seq<u8>, b: InstructionBlock) -> bool {
    let ops = b.ops@;
    let last = ops[ops.len() - 1];
    &&& ops.len() > 0
    &&& ops[0].0 == b.start_pc
    &&& b.start_pc <= b.end_pc
    &&& (b.end_pc as int) < bytes.len()
    &&& forall|j: int| 0 <= j < ops.len() ==> spec_op_ok(bytes, #[trigger] ops[j])
    &&& forall|j: int|
        0 <= j < ops.len() - 1 ==> (#[trigger] ops[j + 1]).0 == ops[j].0 + 1 + spec_push_len(
            ops[j].1,
        )
    &&& forall|j: int| 0 <= j < ops.len() ==> (#[trigger] ops[j]).0 <= b.end_pc
    &&& b.end_pc == vstd::math::min(
        last.0 + spec_push_len(last.1),
        bytes.len() - 1,
    )
    // no split point strictly inside the block
    &&& forall|j: int|
        0 <= j < ops.len() - 1 ==> !spec_is_block_end(#[trigger] ops[j].1) && bytes[ops[j + 1].0 as int]
            != OP_JUMPDEST
    &&& b.indirect_jump is None
    &&& spec_push_vals_fresh(ops, b.push_vals@)
}

/// The block list `blocks` tiles the byte range `[lo, hi)` exactly: blocks are
/// contiguous, non-overlapping, and each split is justified by a control-flow
/// opcode or an upcoming JUMPDEST.
pub open spec fn spec_blocks_chain(
    bytes: Seq<u8>,
    blocks: Seq<InstructionBlock>,
    lo: int,
    hi: int,
) -> bool {
    &&& (blocks.len() == 0 ==> lo == hi)
    &&& (blocks.len() > 0 ==> blocks[0].start_pc == lo && blocks[blocks.len() - 1].end_pc + 1
        == hi)
    &&& forall|i: int| 0 <= i < blocks.len() ==> spec_block_wf(bytes, #[trigger] blocks[i])
    &&& forall|i: int|
        0 <= i < blocks.len() - 1 ==> (#[trigger] blocks[i + 1]).start_pc == blocks[i].end_pc + 1
    &&& forall|i: int|
        0 <= i < blocks.len() - 1 ==> spec_is_block_end((#[trigger] blocks[i]).ops@.last().1)
            || bytes[blocks[i + 1].start_pc as int] == OP_JUMPDEST
}

/// The complete disassembly of `bytes`: a tiling of the whole range.
pub open spec fn spec_blocks_wf(bytes: Seq<u8>, blocks: Seq<InstructionBlock>) -> bool {
    &&& spec_blocks_chain(bytes, blocks, 0, bytes.len() as int)
    &&& (bytes.len() > 0 ==> blocks.len() > 0)
}

/// Disassemble raw bytecode into its instruction blocks by one linear scan
/// from pc 0. The blocks partition `[0, bytes.len())` with no gaps or
/// overlaps; push immediates are consumed (zero-padded at the end of the
/// buffer) and never re-read as opcodes.
#[verifier::rlimit(100)]
pub fn disassemble(bytes: &Vec<u8>) -> (r: Vec<InstructionBlock>)
    requires
        bytes@.len() <= 0xFFFF,
    ensures
        spec_blocks_wf(bytes@, r@),
{
    let n = bytes.len();
    let mut blocks: Vec<InstructionBlock> = Vec::new();
    let mut cur_ops: Vec<(u16, u8, Option<Vec<u8>>)> = Vec::new();
    let mut cur_pv: Vec<(Vec<u8>, Option<Vec<u16>>)> = Vec::new();
    let mut cur_start: usize = 0;
    let mut pc: usize = 0;
    while pc < n
        invariant
            n == bytes@.len(),
            n <= 0xFFFF,
            cur_start <= pc <= n,
            spec_blocks_chain(bytes@, blocks@, 0, cur_start as int),
            blocks@.len() > 0 && cur_start < n ==> spec_is_block_end(
                blocks@.last().ops@.last().1,
            ) || bytes@[cur_start as int] == OP_JUMPDEST,
            cur_ops@.len() == 0 ==> pc == cur_start,
            cur_ops@.len() > 0 ==> {
                &&& cur_ops@[0].0 == cur_start
                &&& cur_start < n
                &&& forall|j: int| 0 <= j < cur_ops@.len() ==> spec_op_ok(bytes@, #[trigger] cur_ops@[j])
                &&& forall|j: int|
                    0 <= j < cur_ops@.len() - 1 ==> (#[trigger] cur_ops@[j + 1]).0 == cur_ops@[j].0
                        + 1 + spec_push_len(cur_ops@[j].1)
                &&& forall|j: int| 0 <= j < cur_ops@.len() ==> (#[trigger] cur_ops@[j].0) < pc
                &&& cur_ops@.last().0 + 1 + spec_push_len(cur_ops@.last().1) == pc
                &&& forall|j: int|
                    0 <= j < cur_ops@.len() - 1 ==> !spec_is_block_end(#[trigger] cur_ops@[j].1)
                        && bytes@[cur_ops@[j + 1].0 as int] != OP_JUMPDEST
                &&& !spec_is_block_end(cur_ops@.last().1)
                &&& pc < n
                &&& bytes@[pc as int] != OP_JUMPDEST
            },
            spec_push_vals_fresh(cur_ops@, cur_pv@),
        decreases n - pc,
    {
        let op = bytes[pc];
        let plen = push_len(op);
        let ghost old_ops = cur_ops@;
        if is_push(op) {
            let mut imm: Vec<u8> = Vec::new();
            let mut imm2: Vec<u8> = Vec::new();
            let mut j: usize = 0;
            while j < plen
                invariant
                    n == bytes@.len(),
                    n <= 0xFFFF,
                    pc < n,
                    plen == spec_push_len(bytes@[pc as int]),
                    plen <= 32,
                    j <= plen,
                    imm@.len() == j,
                    imm2@ == imm@,
                    forall|t: int|
                        0 <= t < j ==> imm@[t] == (if pc + 1 + t < n {
                            bytes@[pc as int + 1 + t]
                        } else {
                            0u8
                        }),
                decreases plen - j,
            {
                if pc + 1 + j < n {
                    imm.push(bytes[pc + 1 + j]);
                    imm2.push(bytes[pc + 1 + j]);
                } else {
                    imm.push(0);
                    imm2.push(0);
                }
                j += 1;
            }
            proof {
                assert(imm@ =~= spec_imm(bytes@, pc as int)) by {
                    reveal(spec_imm);
                };
            }
            cur_pv.push((imm2, None));
            cur_ops.push((pc as u16, op, Some(imm)));
            proof {
                lemma_pushes_snoc(old_ops, (pc as u16, op, Some(imm)));
                assert(cur_ops@ == old_ops.push((pc as u16, op, Some(imm))));
            }
        } else {
            cur_ops.push((pc as u16, op, None));
            proof {
                lemma_pushes_snoc(old_ops, (pc as u16, op, None::<Vec<u8>>));
                assert(cur_ops@ == old_ops.push((pc as u16, op, None::<Vec<u8>>)));
            }
        }
        let nx = pc + 1 + plen;
        if is_block_end(op) || nx >= n || bytes[nx] == OP_JUMPDEST {
            let end = if nx - 1 < n - 1 {
                nx - 1
            } else {
                n - 1
            };
            let b = InstructionBlock {
                start_pc: cur_start as u16,
                end_pc: end as u16,
                ops: cur_ops,
                indirect_jump: None,
                push_vals: cur_pv,
                stack_info: StackInfo::empty(),
            };
            let ghost old_blocks = blocks@;
            proof {
                assert(spec_block_wf(bytes@, b)) by {
                    reveal(spec_block_wf);
                };
            }
            blocks.push(b);
            proof {
                assert forall|i: int|
                    0 <= i < blocks@.len() implies spec_block_wf(bytes@, #[trigger] blocks@[i]) by {
                    if i < old_blocks.len() {
                        assert(blocks@[i] == old_blocks[i]);
                    }
                }
                assert(spec_blocks_chain(bytes@, blocks@, 0, end + 1));
            }
            cur_ops = Vec::new();
            cur_pv = Vec::new();
            cur_start = end + 1;
            pc = end + 1;
        } else {
            pc = nx;
        }
    }
    blocks
}

/// The blocks of a disassembly partition the scanned byte range: block `i + 1`
/// begins at the byte after block `i` ends, the first block begins at 0, and
/// the last ends at the final byte.
pub proof fn lemma_blocks_partition(bytes: Seq<u8>, blocks: Seq<InstructionBlock>)
    requires
        spec_blocks_wf(bytes, blocks),
    ensures
        forall|i: int|
            0 <= i < blocks.len() - 1 ==> (#[trigger] blocks[i + 1]).start_pc == blocks[i].end_pc
                + 1,
        blocks.len() > 0 ==> blocks[0].start_pc == 0 && blocks[blocks.len() - 1].end_pc + 1
            == bytes.len(),
        forall|i: int|
            0 <= i < blocks.len() ==> (#[trigger] blocks[i]).start_pc <= blocks[i].end_pc,
        bytes.len() > 0 ==> blocks.len() > 0,
{
    reveal(spec_block_wf);
}

/// Block starts are strictly increasing with the block index.
pub proof fn lemma_blocks_sorted(bytes: Seq<u8>, blocks: Seq<InstructionBlock>, i: int, k: int)
    requires
        spec_blocks_wf(bytes, blocks),
        0 <= i < k < blocks.len(),
    ensures
        blocks[i].end_pc < blocks[k].start_pc,
        blocks[i].start_pc < blocks[k].start_pc,
    decreases k - i,
{
    reveal(spec_block_wf);
    if k == i + 1 {
    } else {
        lemma_blocks_sorted(bytes, blocks, i, k - 1);
        assert(blocks[(k - 1) + 1].start_pc == blocks[k - 1].end_pc + 1);
    }
}

/// Geometry of a well-formed block: where its instructions lie.
pub proof fn lemma_block_geometry(bytes: Seq<u8>, b: InstructionBlock)
    requires
        spec_block_wf(bytes, b),
    ensures
        b.ops@.len() > 0,
        b.ops@[0].0 == b.start_pc,
        b.start_pc <= b.end_pc,
        (b.end_pc as int) < bytes.len(),
        forall|j: int| 0 <= j < b.ops@.len() ==> (#[trigger] b.ops@[j]).0 <= b.end_pc,
        forall|j: int|
            0 <= j < b.ops@.len() - 1 ==> (#[trigger] b.ops@[j + 1]).0 == b.ops@[j].0 + 1
                + spec_push_len(b.ops@[j].1),
        b.end_pc == vstd::math::min(
            b.ops@.last().0 + spec_push_len(b.ops@.last().1),
            bytes.len() - 1,
        ),
{
    reveal(spec_block_wf);
}

/// Instruction pcs within a block never precede the block's start.
pub proof fn lemma_ops_pc_lower(bytes: Seq<u8>, b: InstructionBlock, j: int)
    requires
        spec_block_wf(bytes, b),
        0 <= j < b.ops@.len(),
    ensures
        b.start_pc <= b.ops@[j].0,
    decreases j,
{
    lemma_block_geometry(bytes, b);
    if j > 0 {
        lemma_ops_pc_lower(bytes, b, j - 1);
        assert(b.ops@[(j - 1) + 1].0 == b.ops@[j - 1].0 + 1 + spec_push_len(b.ops@[j - 1].1));
    }
}

/// Instruction pcs within a block grow at least one per instruction.
pub proof fn lemma_ops_pc_index(bytes: Seq<u8>, b: InstructionBlock, j: int)
    requires
        spec_block_wf(bytes, b),
        0 <= j < b.ops@.len(),
    ensures
        b.ops@[j].0 >= b.start_pc + j,
    decreases j,
{
    lemma_block_geometry(bytes, b);
    if j > 0 {
        lemma_ops_pc_index(bytes, b, j - 1);
        assert(b.ops@[(j - 1) + 1].0 == b.ops@[j - 1].0 + 1 + spec_push_len(b.ops@[j - 1].1));
    }
}

/// A block holds no more instructions than bytes.
pub proof fn lemma_ops_count(bytes: Seq<u8>, b: InstructionBlock)
    requires
        spec_block_wf(bytes, b),
    ensures
        b.ops@.len() <= b.end_pc - b.start_pc + 1,
{
    lemma_block_geometry(bytes, b);
    let l = b.ops@.len() as int;
    lemma_ops_pc_index(bytes, b, l - 1);
}

/// No block's `start_pc` lies inside another block's push-immediate span: a
/// push at `pc` with immediate length `m` inside block `i` keeps the bytes
/// `(pc, pc + m]` inside block `i`, and distinct blocks cover disjoint ranges.
#[verifier::rlimit(100)]
pub proof fn lemma_no_start_in_push_span(
    bytes: Seq<u8>,
    blocks: Seq<InstructionBlock>,
    i: int,
    j: int,
    k: int,
)
    requires
        spec_blocks_wf(bytes, blocks),
        0 <= i < blocks.len(),
        0 <= j < blocks[i].ops@.len(),
        0 <= k < blocks.len(),
        k != i,
    ensures
        !(blocks[i].ops@[j].0 < blocks[k].start_pc <= blocks[i].ops@[j].0 + spec_push_len(
            blocks[i].ops@[j].1,
        )),
{
    let b = blocks[i];
    let o = b.ops@[j];
    let m = spec_push_len(o.1);
    lemma_block_geometry(bytes, b);
    lemma_ops_pc_lower(bytes, b, j);
    if k < i {
        // block k lies entirely before block i, hence before the span
        lemma_blocks_sorted(bytes, blocks, k, i);
        assert(blocks[k].start_pc < b.start_pc);
    } else {
        // block k starts after block i ends, and the span (clipped at the end
        // of the bytecode) does not extend past block i's end
        lemma_blocks_sorted(bytes, blocks, i, k);
        assert(b.end_pc < blocks[k].start_pc);
        lemma_block_geometry(bytes, blocks[k]);
        if j < b.ops@.len() - 1 {
            assert(b.ops@[j + 1].0 == o.0 + 1 + m);
            assert(b.ops@[j + 1].0 <= b.end_pc);
        } else {
            if o.0 + m > bytes.len() - 1 {
                // the span is clipped: block k starts at or before the last byte
                assert(blocks[k].start_pc as int <= bytes.len() - 1);
            }
        }
    }
}

} // verus!
