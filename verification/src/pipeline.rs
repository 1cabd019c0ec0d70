//! The assembled pipeline: per-block analysis, the indirect-jump resolver's
//! fixed-point propagation, and the `CFGEvm` value handed to callers.

use crate::block::InstructionBlock;
use crate::cfg::{
    edge_of_tag, find_start, form_basic_connections, jd_ok,
    remove_unreachable_instruction_blocks, spec_edge_of_tag, spec_find_start, spec_jd_ok,
    Edges, NodeEdge, TAG_SYMBOLIC_JUMP,
};
use crate::disasm::disassemble;
use crate::graph::{
    add_edge, contains_edge, graph_edge_map, graph_nodes, incoming_edges_vec,
    outgoing_edges_vec, CfgDag,
};
use crate::hexdec::{
    hex_decode, spec_hex_decode, spec_hex_ok, spec_sanitized, strip_whitespace,
};
use crate::jumpdest::jumpdest_table;
use crate::opcode::{OP_JUMP, OP_JUMPI};
use crate::stack::{
    analyze_stack_info, spec_delta, spec_indirect_jump, spec_min_required,
    spec_push_used_for_jump,
};
use vstd::prelude::*;

verus! {

/// A block whose summary fields agree with its own instructions: the analyzed
/// form every block of a finished pipeline has.
pub open spec fn spec_block_analyzed(b: InstructionBlock) -> bool {
    &&& b.stack_info.min_stack_size_required_for_entry == spec_min_required(b.ops@)
    &&& b.stack_info.stack_size_delta == spec_delta(b.ops@)
    &&& b.stack_info.push_used_for_jump == spec_push_used_for_jump(b.ops@)
    &&& b.stack_info.stack_entry_pos_to_stack_exit_pos@.len() == spec_min_required(b.ops@)
    &&& (forall|p: int|
        0 <= p < spec_min_required(b.ops@)
            ==> (#[trigger] b.stack_info.stack_entry_pos_to_stack_exit_pos@[p])@
            == crate::stack::spec_exit_positions(
            crate::stack::spec_sim_final(b.ops@).stack,
            p as usize,
            0,
        ))
    &&& b.stack_info.push_exit_vals@ == crate::stack::spec_push_exits(
        crate::stack::spec_sim_final(b.ops@).stack,
        0,
    )
    &&& b.stack_info.stack_entry_pos_to_op_usage@.len() == spec_min_required(b.ops@)
    &&& crate::stack::usage_view(b.stack_info.stack_entry_pos_to_op_usage@)
        == crate::stack::spec_usage(b.ops@, b.ops@.len() as int)
    &&& b.indirect_jump == (if b.ops@.len() > 0 && (b.ops@.last().1 == OP_JUMP || b.ops@.last().1
        == OP_JUMPI) {
        spec_indirect_jump(b.ops@)
    } else {
        Option::<usize>::None
    })
}

/// The relation between a raw disassembly and its analyzed form: the same
/// blocks, each carrying the summary its own instructions determine.
pub open spec fn spec_analyzed_from(
    raw: Seq<InstructionBlock>,
    an: Seq<InstructionBlock>,
) -> bool {
    &&& an.len() == raw.len()
    &&& forall|j: int|
        0 <= j < raw.len() ==> {
            let b0 = raw[j];
            let b = #[trigger] an[j];
            &&& b.start_pc == b0.start_pc
            &&& b.end_pc == b0.end_pc
            &&& b.ops == b0.ops
            &&& b.push_vals == b0.push_vals
            &&& spec_block_analyzed(b)
        }
}

/// Attach each block's stack-effect summary and indirect-jump marker,
/// leaving everything else as disassembled.
pub fn analyze_blocks(blocks: Vec<InstructionBlock>) -> (r: Vec<InstructionBlock>)
    requires
        forall|j: int| 0 <= j < blocks@.len() ==> (#[trigger] blocks@[j]).ops@.len() <= 0xFFFF,
    ensures
        r@.len() == blocks@.len(),
        forall|j: int|
            0 <= j < blocks@.len() ==> {
                let b0 = blocks@[j];
                let b = #[trigger] r@[j];
                &&& b.start_pc == b0.start_pc
                &&& b.end_pc == b0.end_pc
                &&& b.ops == b0.ops
                &&& b.push_vals == b0.push_vals
                &&& spec_block_analyzed(b)
            },
{
    let ghost orig = blocks@;
    let mut rest = blocks;
    let mut out: Vec<InstructionBlock> = Vec::new();
    let mut c: usize = 0;
    let n = rest.len();
    while c < n
        invariant
            n == orig.len(),
            c <= n,
            rest@ =~= orig.skip(c as int),
            out@.len() == c,
            forall|j: int| 0 <= j < orig.len() ==> (#[trigger] orig[j]).ops@.len() <= 0xFFFF,
            forall|j: int|
                0 <= j < c ==> {
                    let b0 = orig[j];
                    let b = #[trigger] out@[j];
                    &&& b.start_pc == b0.start_pc
                    &&& b.end_pc == b0.end_pc
                    &&& b.ops == b0.ops
                    &&& b.push_vals == b0.push_vals
                    &&& spec_block_analyzed(b)
                },
        decreases n - c,
    {
        let b0 = rest.remove(0);
        proof {
            assert(b0 == orig[c as int]);
            assert(rest@ =~= orig.skip(c + 1));
        }
        let info = analyze_stack_info(&b0.ops);
        let nops = b0.ops.len();
        let mut ind: Option<usize> = None;
        if nops > 0 {
            let last_op = b0.ops[nops - 1].1;
            if last_op == OP_JUMP || last_op == OP_JUMPI {
                ind = indirect_of(&b0.ops);
            }
        }
        let b = InstructionBlock {
            start_pc: b0.start_pc,
            end_pc: b0.end_pc,
            ops: b0.ops,
            indirect_jump: ind,
            push_vals: b0.push_vals,
            stack_info: info,
        };
        out.push(b);
        c = c + 1;
    }
    out
}

/// The entry position the terminal jump reads, when it reads one.
fn indirect_of(ops: &Vec<(u16, u8, Option<Vec<u8>>)>) -> (r: Option<usize>)
    requires
        ops@.len() > 0,
        ops@.len() <= 0xFFFF,
        ops@.last().1 == OP_JUMP || ops@.last().1 == OP_JUMPI,
    ensures
        r == spec_indirect_jump(ops@),
{
    match crate::stack::target_slot(ops) {
        crate::stack::Slot::Entry(p) => Some(p),
        _ => None,
    }
}

/// Two blocks equal in everything but the resolved push-target lists: even
/// there, the pushed bytes themselves are kept.
pub open spec fn spec_same_shape(b0: InstructionBlock, b: InstructionBlock) -> bool {
    &&& b.start_pc == b0.start_pc
    &&& b.end_pc == b0.end_pc
    &&& b.ops == b0.ops
    &&& b.indirect_jump == b0.indirect_jump
    &&& b.stack_info == b0.stack_info
    &&& b.push_vals@.len() == b0.push_vals@.len()
    &&& forall|q: int|
        0 <= q < b0.push_vals@.len() ==> (#[trigger] b.push_vals@[q]).0 == b0.push_vals@[q].0
}

/// A known stack value at a block entry during propagation:
/// `(entry position, value, origin block index, origin push index)`.
pub type Fact = (usize, u16, usize, usize);

/// Propagation keeps only positions below the machine's stack depth limit.
pub const POS_LIMIT: usize = 1024;

/// The fact lists as mathematical sequences.
pub open spec fn facts_view(f: Seq<Vec<Fact>>) -> Seq<Seq<Fact>> {
    f.map_values(|v: Vec<Fact>| v@)
}

/// A fact at a block's entry projects to a fact at its exit: through the
/// entry-to-exit table for tracked slots, or shifted by the height delta for
/// slots below the tracked region. Positions at or past the machine's stack
/// depth limit do not propagate.
pub open spec fn spec_proj(b: InstructionBlock, f: Fact, g: Fact) -> bool {
    let exit = b.stack_info.stack_entry_pos_to_stack_exit_pos@;
    &&& g.1 == f.1
    &&& g.2 == f.2
    &&& g.3 == f.3
    &&& f.0 < POS_LIMIT
    &&& g.0 < POS_LIMIT
    &&& if f.0 < exit.len() {
        exit[f.0 as int]@.contains(g.0)
    } else {
        g.0 as int == f.0 + b.stack_info.stack_size_delta
    }
}

/// The resolution consequence of one fact is already drawn: if the fact sits
/// at the position the block's terminal jump reads and names a valid
/// jumpdest that begins a block, the edge to that block exists.
pub open spec fn spec_res_ok(
    blocks: Seq<InstructionBlock>,
    jd: Seq<bool>,
    m: Map<((u16, u16), (u16, u16)), u8>,
    i: int,
    f: Fact,
) -> bool {
    (blocks[i].indirect_jump == Some(f.0) && spec_jd_ok(jd, f.1) && spec_find_start(
        blocks,
        f.1,
        0,
    ) is Some) ==> m.dom().contains(
        (blocks[i].key(), blocks[spec_find_start(blocks, f.1, 0).unwrap()].key()),
    )
}

/// Every resolution consequence of the facts at block `i` is drawn.
pub open spec fn spec_node_res_ok(
    blocks: Seq<InstructionBlock>,
    jd: Seq<bool>,
    m: Map<((u16, u16), (u16, u16)), u8>,
    fi: Seq<Fact>,
    i: int,
) -> bool {
    forall|k: int| 0 <= k < fi.len() ==> spec_res_ok(blocks, jd, m, i, #[trigger] fi[k])
}

/// Everything block `i` hands to block `t` has arrived: the projections of
/// `i`'s entry facts and `i`'s own surviving push values.
pub open spec fn spec_succ_prop_ok(
    blocks: Seq<InstructionBlock>,
    facts: Seq<Seq<Fact>>,
    i: int,
    t: int,
) -> bool {
    &&& (forall|k: int, g: Fact|
        0 <= k < facts[i].len() && spec_proj(blocks[i], #[trigger] facts[i][k], g)
            ==> #[trigger] facts[t].contains(g))
    &&& (forall|e: (usize, u16, usize)|
        (#[trigger] blocks[i].stack_info.push_exit_vals@.contains(e)) && e.0 < POS_LIMIT
            ==> facts[t].contains((e.0, e.1, i as usize, e.2)))
}

/// Block `i` has propagated to every successor the edges give it.
pub open spec fn spec_node_prop_ok(
    blocks: Seq<InstructionBlock>,
    m: Map<((u16, u16), (u16, u16)), u8>,
    facts: Seq<Seq<Fact>>,
    i: int,
) -> bool {
    forall|t: int|
        0 <= t < blocks.len() && #[trigger] m.dom().contains((blocks[i].key(), blocks[t].key()))
            ==> spec_succ_prop_ok(blocks, facts, i, t)
}

/// A propagation fixed point: no round over the known facts can add an edge,
/// a resolved target, or a fact.
pub open spec fn spec_resolved(
    blocks: Seq<InstructionBlock>,
    jd: Seq<bool>,
    m: Map<((u16, u16), (u16, u16)), u8>,
    facts: Seq<Seq<Fact>>,
) -> bool {
    &&& facts.len() == blocks.len()
    &&& (forall|i: int|
        0 <= i < blocks.len() ==> spec_node_res_ok(blocks, jd, m, #[trigger] facts[i], i)
            && spec_node_prop_ok(blocks, m, facts, i))
}

/// The edges one more propagation round would draw from the known facts.
pub open spec fn spec_round_edges(
    blocks: Seq<InstructionBlock>,
    jd: Seq<bool>,
    facts: Seq<Seq<Fact>>,
) -> Set<((u16, u16), (u16, u16))> {
    Set::new(
        |e: ((u16, u16), (u16, u16))|
            exists|i: int, k: int|
                0 <= i < blocks.len() && 0 <= k < facts[i].len() && {
                    let f = #[trigger] facts[i][k];
                    &&& blocks[i].indirect_jump == Some(f.0)
                    &&& spec_jd_ok(jd, f.1)
                    &&& spec_find_start(blocks, f.1, 0) is Some
                    &&& e == ((
                        blocks[i].key(),
                        blocks[spec_find_start(blocks, f.1, 0).unwrap()].key(),
                    ))
                },
    )
}

/// The resolver is idempotent: at a fixed point of propagation, one more
/// round adds zero new edges — every edge it would draw is already present.
pub proof fn lemma_resolution_idempotent(
    blocks: Seq<InstructionBlock>,
    jd: Seq<bool>,
    m: Map<((u16, u16), (u16, u16)), u8>,
    facts: Seq<Seq<Fact>>,
)
    requires
        spec_resolved(blocks, jd, m, facts),
    ensures
        forall|e: ((u16, u16), (u16, u16))|
            spec_round_edges(blocks, jd, facts).contains(e) ==> #[trigger] m.dom().contains(e),
{
    assert forall|e: ((u16, u16), (u16, u16))|
        spec_round_edges(blocks, jd, facts).contains(e) implies #[trigger] m.dom().contains(
        e,
    ) by {
        let (i, k) = choose|i: int, k: int|
            0 <= i < blocks.len() && 0 <= k < facts[i].len() && {
                let f = #[trigger] facts[i][k];
                &&& blocks[i].indirect_jump == Some(f.0)
                &&& spec_jd_ok(jd, f.1)
                &&& spec_find_start(blocks, f.1, 0) is Some
                &&& e == ((
                    blocks[i].key(),
                    blocks[spec_find_start(blocks, f.1, 0).unwrap()].key(),
                ))
            };
        assert(spec_node_res_ok(blocks, jd, m, facts[i], i));
        assert(spec_res_ok(blocks, jd, m, i, facts[i][k]));
    }
}

/// Check whether a fact list holds a fact.
fn contains_fact(v: &Vec<Fact>, f: Fact) -> (r: bool)
    ensures
        r == v@.contains(f),
{
    let mut i: usize = 0;
    while i < v.len()
        invariant
            i <= v@.len(),
            forall|j: int| 0 <= j < i ==> v@[j] != f,
        decreases v@.len() - i,
    {
        let c = v[i];
        if c.0 == f.0 && c.1 == f.1 && c.2 == f.2 && c.3 == f.3 {
            proof {
                assert(v@[i as int] == f);
            }
            return true;
        }
        i = i + 1;
    }
    false
}

/// Append a fact to the facts of block `t` if it is not yet known; report
/// whether anything was added.
fn add_fact(facts: &mut Vec<Vec<Fact>>, t: usize, f: Fact) -> (r: bool)
    requires
        t < old(facts)@.len(),
    ensures
        final(facts)@.len() == old(facts)@.len(),
        forall|j: int|
            0 <= j < old(facts)@.len() && j != t ==> final(facts)@[j] == old(facts)@[j],
        !r ==> final(facts)@ == old(facts)@ && old(facts)@[t as int]@.contains(f),
        r ==> final(facts)@[t as int]@ == old(facts)@[t as int]@.push(f),
{
    let ghost before = facts@;
    let mut ft = facts.remove(t);
    let mut added = false;
    if !contains_fact(&ft, f) {
        ft.push(f);
        added = true;
    }
    facts.insert(t, ft);
    proof {
        assert forall|j: int| 0 <= j < before.len() && j != t implies facts@[j] == before[j] by {
        };
        if !added {
            assert(facts@ =~= before);
        }
    }
    added
}

/// Record a resolved target in the matching push-value entry of its origin
/// block; report whether it was new. Nothing is touched when the target is
/// already recorded or the origin indices are stale.
fn record_target(blocks: &mut Vec<InstructionBlock>, ob: usize, oi: usize, v: u16) -> (r: bool)
    ensures
        final(blocks)@.len() == old(blocks)@.len(),
        forall|j: int|
            0 <= j < old(blocks)@.len() ==> spec_same_shape(
                old(blocks)@[j],
                #[trigger] final(blocks)@[j],
            ),
        !r ==> final(blocks)@ == old(blocks)@,
{
    if ob >= blocks.len() {
        return false;
    }
    if oi >= blocks[ob].push_vals.len() {
        return false;
    }
    // first look, without touching anything, whether the target is new
    let mut present = false;
    match &blocks[ob].push_vals[oi].1 {
        Some(l) => {
            let mut q: usize = 0;
            while q < l.len()
                invariant
                    q <= l@.len(),
                decreases l@.len() - q,
            {
                if l[q] == v {
                    present = true;
                }
                q = q + 1;
            }
        },
        None => {},
    }
    if present {
        return false;
    }
    // attach the target
    let ghost before = blocks@;
    let mut b = blocks.remove(ob);
    let ghost pv_before = b.push_vals@;
    let (bytes, targets) = b.push_vals.remove(oi);
    let new_targets = match targets {
        Some(mut l) => {
            l.push(v);
            Some(l)
        },
        None => {
            let mut l: Vec<u16> = Vec::new();
            l.push(v);
            Some(l)
        },
    };
    b.push_vals.insert(oi, (bytes, new_targets));
    proof {
        assert(b.push_vals@ =~= pv_before.update(
            oi as int,
            (pv_before[oi as int].0, b.push_vals@[oi as int].1),
        ));
    }
    blocks.insert(ob, b);
    proof {
        assert forall|j: int| 0 <= j < before.len() implies spec_same_shape(
            before[j],
            #[trigger] blocks@[j],
        ) by {
            if j < ob {
                assert(blocks@[j] == before[j]);
            } else if j > ob {
                assert(blocks@[j] == before[j]);
            }
        };
    }
    true
}

/// The first block with the given key.
fn find_key(blocks: &Vec<InstructionBlock>, k: (u16, u16)) -> (r: Option<usize>)
    ensures
        match r {
            Some(t) => t < blocks@.len() && blocks@[t as int].key() == k,
            None => forall|j: int| 0 <= j < blocks@.len() ==> (#[trigger] blocks@[j]).key() != k,
        },
{
    let mut i: usize = 0;
    while i < blocks.len()
        invariant
            i <= blocks@.len(),
            forall|j: int| 0 <= j < i ==> (#[trigger] blocks@[j]).key() != k,
        decreases blocks@.len() - i,
    {
        if blocks[i].start_pc == k.0 && blocks[i].end_pc == k.1 {
            return Some(i);
        }
        i = i + 1;
    }
    None
}

/// Project every entry fact of node `i` to its exit and hand the results,
/// together with the node's own surviving push values, to node `t`. When
/// nothing was added, everything block `i` can hand to block `t` was already
/// known there.
fn propagate_node(
    blocks: &Vec<InstructionBlock>,
    facts: &mut Vec<Vec<Fact>>,
    i: usize,
    t: usize,
) -> (changed: bool)
    requires
        i < blocks@.len(),
        t < old(facts)@.len(),
        old(facts)@.len() == blocks@.len(),
        i < old(facts)@.len(),
    ensures
        final(facts)@.len() == old(facts)@.len(),
        !changed ==> final(facts)@ == old(facts)@,
        !changed ==> spec_succ_prop_ok(blocks@, facts_view(old(facts)@), i as int, t as int),
{
    let ghost f0 = old(facts)@;
    let mut changed = false;
    let klen = facts[i].len();
    let mut k: usize = 0;
    while k < klen
        invariant
            facts@.len() == blocks@.len(),
            f0.len() == blocks@.len(),
            i < facts@.len(),
            t < facts@.len(),
            i < blocks@.len(),
            klen == f0[i as int]@.len(),
            klen <= facts@[i as int]@.len(),
            !changed ==> facts@ == f0,
            !changed ==> (forall|k2: int, g: Fact|
                0 <= k2 < k && spec_proj(blocks@[i as int], f0[i as int]@[k2], g) ==> f0[t as int]@.contains(
                    g,
                )),
        decreases klen - k,
    {
        let f = facts[i][k];
        let exit_len = blocks[i].stack_info.stack_entry_pos_to_stack_exit_pos.len();
        let ghost evec = blocks@[i as int].stack_info.stack_entry_pos_to_stack_exit_pos@;
        if f.0 < exit_len {
            let qlen = blocks[i].stack_info.stack_entry_pos_to_stack_exit_pos[f.0].len();
            let ghost ev = evec[f.0 as int]@;
            let mut q: usize = 0;
            while q < qlen
                invariant
                    facts@.len() == blocks@.len(),
                    f0.len() == blocks@.len(),
                    i < facts@.len(),
                    t < facts@.len(),
                    i < blocks@.len(),
                    f.0 < evec.len(),
                    evec == blocks@[i as int].stack_info.stack_entry_pos_to_stack_exit_pos@,
                    ev == evec[f.0 as int]@,
                    qlen == ev.len(),
                    klen == f0[i as int]@.len(),
                    klen <= facts@[i as int]@.len(),
                    !changed ==> facts@ == f0,
                    !changed ==> f == f0[i as int]@[k as int],
                    0 <= k < klen,
                    !changed ==> (forall|k2: int, g: Fact|
                        0 <= k2 < k && spec_proj(blocks@[i as int], f0[i as int]@[k2], g)
                            ==> f0[t as int]@.contains(g)),
                    !changed ==> (forall|qi: int|
                        0 <= qi < q && ev[qi] < POS_LIMIT ==> f0[t as int]@.contains(
                            (ev[qi], f.1, f.2, f.3),
                        )),
                decreases qlen - q,
            {
                let pos = blocks[i].stack_info.stack_entry_pos_to_stack_exit_pos[f.0][q];
                if pos < POS_LIMIT {
                    if add_fact(facts, t, (pos, f.1, f.2, f.3)) {
                        changed = true;
                    }
                }
                q = q + 1;
            }
            proof {
                if !changed {
                    assert forall|g: Fact|
                        spec_proj(blocks@[i as int], f0[i as int]@[k as int], g) implies f0[t as int]@.contains(
                        g,
                    ) by {
                        let qi = choose|qi: int| 0 <= qi < ev.len() && ev[qi] == g.0;
                        assert(f0[t as int]@.contains((ev[qi], f.1, f.2, f.3)));
                    };
                }
            }
        } else {
            let delta = blocks[i].stack_info.stack_size_delta;
            if f.0 < POS_LIMIT {
                let shifted = f.0 as i64 + delta as i64;
                if shifted >= 0 && shifted < POS_LIMIT as i64 {
                    if add_fact(facts, t, (shifted as usize, f.1, f.2, f.3)) {
                        changed = true;
                    }
                }
            }
            proof {
                if !changed {
                    assert forall|g: Fact|
                        spec_proj(blocks@[i as int], f0[i as int]@[k as int], g) implies f0[t as int]@.contains(
                        g,
                    ) by {
                        assert(g.0 as int == f.0 + delta);
                    };
                }
            }
        }
        k = k + 1;
    }
    // the node's own pushes arrive at the successor's entry
    let plen = blocks[i].stack_info.push_exit_vals.len();
    let ghost pev = blocks@[i as int].stack_info.push_exit_vals@;
    let mut e: usize = 0;
    while e < plen
        invariant
            facts@.len() == blocks@.len(),
            f0.len() == blocks@.len(),
            i < facts@.len(),
            t < facts@.len(),
            i < blocks@.len(),
            pev == blocks@[i as int].stack_info.push_exit_vals@,
            plen == pev.len(),
            klen == f0[i as int]@.len(),
            !changed ==> facts@ == f0,
            !changed ==> (forall|k2: int, g: Fact|
                0 <= k2 < klen && spec_proj(blocks@[i as int], f0[i as int]@[k2], g)
                    ==> f0[t as int]@.contains(g)),
            !changed ==> (forall|ei: int|
                0 <= ei < e && pev[ei].0 < POS_LIMIT ==> f0[t as int]@.contains(
                    (pev[ei].0, pev[ei].1, i as usize, pev[ei].2),
                )),
        decreases plen - e,
    {
        let pv = blocks[i].stack_info.push_exit_vals[e];
        if pv.0 < POS_LIMIT {
            if add_fact(facts, t, (pv.0, pv.1, i, pv.2)) {
                changed = true;
            }
        }
        e = e + 1;
    }
    proof {
        if !changed {
            assert(facts_view(f0)[i as int] == f0[i as int]@);
            assert(facts_view(f0)[t as int] == f0[t as int]@);
            assert forall|ee: (usize, u16, usize)|
                (#[trigger] blocks@[i as int].stack_info.push_exit_vals@.contains(ee)) && ee.0
                    < POS_LIMIT implies facts_view(f0)[t as int].contains(
                (ee.0, ee.1, i as usize, ee.2),
            ) by {
                let ei = choose|ei: int| 0 <= ei < pev.len() && pev[ei] == ee;
                assert(f0[t as int]@.contains((pev[ei].0, pev[ei].1, i as usize, pev[ei].2)));
            };
        }
    }
    changed
}

/// One propagation round over every node, in block order: resolve indirect
/// jumps from facts at the position the jump reads, and hand every node's
/// exit facts to its successors. Reports whether anything changed; when
/// nothing changed, the state is a propagation fixed point.
fn resolve_round(
    blocks: &mut Vec<InstructionBlock>,
    facts: &mut Vec<Vec<Fact>>,
    g: &mut CfgDag,
    jd: &Vec<bool>,
) -> (changed: bool)
    requires
        old(facts)@.len() == old(blocks)@.len(),
        forall|a: int, b: int|
            0 <= a < b < old(blocks)@.len() ==> (#[trigger] old(blocks)@[a]).key() != (
            #[trigger] old(blocks)@[b]).key(),
        forall|j: int|
            0 <= j < old(blocks)@.len() ==> graph_nodes(*old(g)).contains(
                (#[trigger] old(blocks)@[j]).key(),
            ),
    ensures
        final(facts)@.len() == final(blocks)@.len(),
        final(blocks)@.len() == old(blocks)@.len(),
        forall|j: int|
            0 <= j < old(blocks)@.len() ==> spec_same_shape(
                old(blocks)@[j],
                #[trigger] final(blocks)@[j],
            ),
        forall|k: ((u16, u16), (u16, u16))|
            #[trigger] graph_edge_map(*old(g)).dom().contains(k) ==> graph_edge_map(
                *final(g),
            ).dom().contains(k) && graph_edge_map(*final(g))[k] == graph_edge_map(*old(g))[k],
        forall|k: ((u16, u16), (u16, u16))|
            #[trigger] graph_edge_map(*final(g)).dom().contains(k) && !graph_edge_map(
                *old(g),
            ).dom().contains(k) ==> graph_edge_map(*final(g))[k] == TAG_SYMBOLIC_JUMP
                && spec_jd_ok(jd@, k.1.0),
        graph_nodes(*final(g)) == graph_nodes(*old(g)),
        forall|k: ((u16, u16), (u16, u16))|
            #[trigger] graph_edge_map(*final(g)).dom().contains(k) && !graph_edge_map(
                *old(g),
            ).dom().contains(k) ==> crate::cfg::spec_is_block_key(old(blocks)@, k.0)
                && crate::cfg::spec_is_block_key(old(blocks)@, k.1),
        !changed ==> final(facts)@ == old(facts)@ && final(blocks)@ == old(blocks)@
            && graph_edge_map(*final(g)) == graph_edge_map(*old(g)) && spec_resolved(
            old(blocks)@,
            jd@,
            graph_edge_map(*old(g)),
            facts_view(old(facts)@),
        ),
{
    let ghost blocks0 = old(blocks)@;
    let ghost facts0 = old(facts)@;
    let ghost fv0 = facts_view(old(facts)@);
    let ghost gm0 = graph_edge_map(*old(g));
    let ghost nodes0 = graph_nodes(*old(g));
    let mut changed = false;
    let n = blocks.len();
    let mut i: usize = 0;
    while i < n
        invariant
            n == blocks@.len(),
            blocks0.len() == n,
            facts0.len() == n,
            fv0 == facts_view(facts0),
            facts@.len() == n,
            i <= n,
            forall|a: int, b: int|
                0 <= a < b < n ==> (#[trigger] blocks0[a]).key() != (#[trigger] blocks0[b]).key(),
            forall|j: int| 0 <= j < n ==> nodes0.contains((#[trigger] blocks0[j]).key()),
            graph_nodes(*g) == nodes0,
            forall|j: int|
                0 <= j < blocks0.len() ==> spec_same_shape(blocks0[j], #[trigger] blocks@[j]),
            forall|k: ((u16, u16), (u16, u16))|
                #[trigger] gm0.dom().contains(k) ==> graph_edge_map(*g).dom().contains(k)
                    && graph_edge_map(*g)[k] == gm0[k],
            forall|k: ((u16, u16), (u16, u16))|
                #[trigger] graph_edge_map(*g).dom().contains(k) && !gm0.dom().contains(k)
                    ==> graph_edge_map(*g)[k] == TAG_SYMBOLIC_JUMP && spec_jd_ok(jd@, k.1.0),
            forall|k: ((u16, u16), (u16, u16))|
                #[trigger] graph_edge_map(*g).dom().contains(k) && !gm0.dom().contains(k)
                    ==> crate::cfg::spec_is_block_key(blocks0, k.0)
                    && crate::cfg::spec_is_block_key(blocks0, k.1),
            !changed ==> facts@ == facts0 && blocks@ == blocks0 && graph_edge_map(*g) == gm0,
            !changed ==> (forall|i2: int|
                0 <= i2 < i ==> spec_node_res_ok(blocks0, jd@, gm0, #[trigger] fv0[i2], i2)
                    && spec_node_prop_ok(blocks0, gm0, fv0, i2)),
        decreases n - i,
    {
        let key_i = (blocks[i].start_pc, blocks[i].end_pc);
        let ind = blocks[i].indirect_jump;
        proof {
            assert(spec_same_shape(blocks0[i as int], blocks@[i as int]));
            assert(key_i == blocks0[i as int].key());
            assert(ind == blocks0[i as int].indirect_jump);
        }
        // resolution: does some fact name the slot the terminal jump reads?
        match ind {
            Some(p) => {
                let klen = facts[i].len();
                let mut k: usize = 0;
                while k < klen
                    invariant
                        n == blocks@.len(),
                        blocks0.len() == n,
                        facts0.len() == n,
                        fv0 == facts_view(facts0),
                        facts@.len() == n,
                        i < n,
                        klen <= facts@[i as int]@.len(),
                        ind == Some(p),
                        ind == blocks0[i as int].indirect_jump,
                        key_i == blocks0[i as int].key(),
                        forall|a: int, b: int|
                            0 <= a < b < n ==> (#[trigger] blocks0[a]).key() != (
                            #[trigger] blocks0[b]).key(),
                        forall|j: int|
                            0 <= j < n ==> nodes0.contains((#[trigger] blocks0[j]).key()),
                        graph_nodes(*g) == nodes0,
                        forall|j: int|
                            0 <= j < blocks0.len() ==> spec_same_shape(
                                blocks0[j],
                                #[trigger] blocks@[j],
                            ),
                        forall|kk: ((u16, u16), (u16, u16))|
                            #[trigger] gm0.dom().contains(kk) ==> graph_edge_map(
                                *g,
                            ).dom().contains(kk) && graph_edge_map(*g)[kk] == gm0[kk],
                        forall|kk: ((u16, u16), (u16, u16))|
                            #[trigger] graph_edge_map(*g).dom().contains(kk) && !gm0.dom().contains(
                                kk,
                            ) ==> graph_edge_map(*g)[kk] == TAG_SYMBOLIC_JUMP && spec_jd_ok(
                                jd@,
                                kk.1.0,
                            ),
                        forall|kk: ((u16, u16), (u16, u16))|
                            #[trigger] graph_edge_map(*g).dom().contains(kk) && !gm0.dom().contains(
                                kk,
                            ) ==> crate::cfg::spec_is_block_key(blocks0, kk.0)
                                && crate::cfg::spec_is_block_key(blocks0, kk.1),
                        !changed ==> facts@ == facts0 && blocks@ == blocks0 && graph_edge_map(*g)
                            == gm0 && klen == facts0[i as int]@.len(),
                        !changed ==> (forall|i2: int|
                            0 <= i2 < i ==> spec_node_res_ok(blocks0, jd@, gm0, #[trigger] fv0[i2], i2)
                                && spec_node_prop_ok(blocks0, gm0, fv0, i2)),
                        !changed ==> (forall|k2: int|
                            0 <= k2 < k ==> spec_res_ok(
                                blocks0,
                                jd@,
                                gm0,
                                i as int,
                                #[trigger] fv0[i as int][k2],
                            )),
                    decreases klen - k,
                {
                    let f = facts[i][k];
                    let ghost was_changed = changed;
                    if f.0 == p && jd_ok(jd, f.1) {
                        match find_start(blocks, f.1) {
                            Some(t) => {
                                let key_t = (blocks[t].start_pc, blocks[t].end_pc);
                                let ghost nodes_pre = graph_nodes(*g);
                                if !contains_edge(g, key_i, key_t) {
                                    add_edge(g, key_i, key_t, TAG_SYMBOLIC_JUMP);
                                    changed = true;
                                    proof {
                                        assert(spec_same_shape(
                                            blocks0[t as int],
                                            blocks@[t as int],
                                        ));
                                        assert(key_t == blocks0[t as int].key());
                                        assert(nodes_pre.contains(key_i));
                                        assert(nodes_pre.contains(key_t));
                                        assert(graph_nodes(*g) =~= nodes_pre);
                                        assert(crate::cfg::spec_is_block_key(blocks0, key_i));
                                        assert(crate::cfg::spec_is_block_key(blocks0, key_t));
                                    }
                                }
                                let ghost bpre = blocks@;
                                if record_target(blocks, f.2, f.3, f.1) {
                                    changed = true;
                                }
                                proof {
                                    assert forall|j: int|
                                        0 <= j < blocks0.len() implies spec_same_shape(
                                        blocks0[j],
                                        #[trigger] blocks@[j],
                                    ) by {
                                        assert(spec_same_shape(blocks0[j], bpre[j]));
                                    };
                                    if !changed {
                                        assert(!was_changed);
                                        assert(blocks@ == blocks0);
                                        assert(spec_res_ok(
                                            blocks0,
                                            jd@,
                                            gm0,
                                            i as int,
                                            fv0[i as int][k as int],
                                        )) by {
                                            assert(f == facts0[i as int]@[k as int]);
                                            assert(gm0.dom().contains((key_i, key_t)));
                                        };
                                    }
                                }
                            },
                            None => {
                                proof {
                                    if !changed {
                                        assert(spec_res_ok(
                                            blocks0,
                                            jd@,
                                            gm0,
                                            i as int,
                                            fv0[i as int][k as int],
                                        )) by {
                                            assert(blocks@ == blocks0);
                                            assert(spec_find_start(blocks0, f.1, 0) is None);
                                        };
                                    }
                                }
                            },
                        }
                    } else {
                        proof {
                            if !changed {
                                assert(spec_res_ok(
                                    blocks0,
                                    jd@,
                                    gm0,
                                    i as int,
                                    fv0[i as int][k as int],
                                )) by {
                                    assert(f == facts0[i as int]@[k as int]);
                                };
                            }
                        }
                    }
                    k = k + 1;
                }
                proof {
                    if !changed {
                        assert(spec_node_res_ok(blocks0, jd@, gm0, fv0[i as int], i as int)) by {
                            assert(fv0[i as int].len() == facts0[i as int]@.len());
                        };
                    }
                }
            },
            None => {
                proof {
                    if !changed {
                        assert(spec_node_res_ok(blocks0, jd@, gm0, fv0[i as int], i as int)) by {
                            assert forall|k2: int|
                                0 <= k2 < fv0[i as int].len() implies spec_res_ok(
                                blocks0,
                                jd@,
                                gm0,
                                i as int,
                                #[trigger] fv0[i as int][k2],
                            ) by {
                                assert(blocks0[i as int].indirect_jump is None);
                            };
                        };
                    }
                }
            },
        }
        // propagation: hand this node's exit facts to every successor
        let key_i2 = (blocks[i].start_pc, blocks[i].end_pc);
        let outs = outgoing_edges_vec(g, key_i2);
        proof {
            assert(spec_same_shape(blocks0[i as int], blocks@[i as int]));
            assert(key_i2 == blocks0[i as int].key());
        }
        let mut o: usize = 0;
        while o < outs.len()
            invariant
                n == blocks@.len(),
                blocks0.len() == n,
                facts0.len() == n,
                fv0 == facts_view(facts0),
                facts@.len() == n,
                i < n,
                o <= outs@.len(),
                key_i2 == blocks0[i as int].key(),
                forall|a: int, b: int|
                    0 <= a < b < n ==> (#[trigger] blocks0[a]).key() != (
                    #[trigger] blocks0[b]).key(),
                forall|j: int| 0 <= j < n ==> nodes0.contains((#[trigger] blocks0[j]).key()),
                graph_nodes(*g) == nodes0,
                forall|j: int|
                    0 <= j < blocks0.len() ==> spec_same_shape(blocks0[j], #[trigger] blocks@[j]),
                forall|kk: ((u16, u16), (u16, u16))|
                    #[trigger] gm0.dom().contains(kk) ==> graph_edge_map(*g).dom().contains(kk)
                        && graph_edge_map(*g)[kk] == gm0[kk],
                forall|kk: ((u16, u16), (u16, u16))|
                    #[trigger] graph_edge_map(*g).dom().contains(kk) && !gm0.dom().contains(kk)
                        ==> graph_edge_map(*g)[kk] == TAG_SYMBOLIC_JUMP && spec_jd_ok(
                        jd@,
                        kk.1.0,
                    ),
                forall|kk: ((u16, u16), (u16, u16))|
                    #[trigger] graph_edge_map(*g).dom().contains(kk) && !gm0.dom().contains(kk)
                        ==> crate::cfg::spec_is_block_key(blocks0, kk.0)
                        && crate::cfg::spec_is_block_key(blocks0, kk.1),
                !changed ==> facts@ == facts0 && blocks@ == blocks0 && graph_edge_map(*g) == gm0,
                !changed ==> (forall|t2: int|
                    0 <= t2 < outs@.len() ==> (#[trigger] outs@[t2]).0 == key_i2
                        && gm0.dom().contains((key_i2, outs@[t2].1))),
                !changed ==> (forall|b2: (u16, u16)|
                    gm0.dom().contains((key_i2, b2)) ==> exists|t2: int|
                        0 <= t2 < outs@.len() && (#[trigger] outs@[t2]).1 == b2),
                !changed ==> (forall|i2: int|
                    0 <= i2 < i ==> spec_node_res_ok(blocks0, jd@, gm0, #[trigger] fv0[i2], i2)
                        && spec_node_prop_ok(blocks0, gm0, fv0, i2)),
                !changed ==> spec_node_res_ok(blocks0, jd@, gm0, fv0[i as int], i as int),
                !changed ==> (forall|o2: int, t2: int|
                    0 <= o2 < o && 0 <= t2 < n && (#[trigger] blocks0[t2]).key() == (
                    #[trigger] outs@[o2]).1 ==> spec_succ_prop_ok(blocks0, fv0, i as int, t2)),
            decreases outs@.len() - o,
        {
            let tk = outs[o].1;
            match find_key(blocks, tk) {
                Some(t) => {
                    let ghost was_changed = changed;
                    if propagate_node(blocks, facts, i, t) {
                        changed = true;
                    }
                    proof {
                        if !changed {
                            assert(!was_changed);
                            assert(blocks@ == blocks0 && facts@ == facts0);
                            assert(spec_succ_prop_ok(blocks0, fv0, i as int, t as int));
                            assert forall|t2: int|
                                0 <= t2 < n && (#[trigger] blocks0[t2]).key() == tk implies
                                spec_succ_prop_ok(blocks0, fv0, i as int, t2) by {
                                assert(blocks0[t as int].key() == tk);
                                if t2 != t as int {
                                    if t2 < t as int {
                                        assert(blocks0[t2].key() != blocks0[t as int].key());
                                    } else {
                                        assert(blocks0[t as int].key() != blocks0[t2].key());
                                    }
                                }
                            };
                        }
                    }
                },
                None => {
                    proof {
                        if !changed {
                            assert forall|t2: int|
                                0 <= t2 < n && (#[trigger] blocks0[t2]).key() == tk implies
                                spec_succ_prop_ok(blocks0, fv0, i as int, t2) by {
                                assert(blocks@[t2].key() != tk);
                                assert(spec_same_shape(blocks0[t2], blocks@[t2]));
                            };
                        }
                    }
                },
            }
            o = o + 1;
        }
        proof {
            if !changed {
                assert(spec_node_prop_ok(blocks0, gm0, fv0, i as int)) by {
                    assert forall|t: int|
                        0 <= t < blocks0.len() && #[trigger] gm0.dom().contains(
                            (blocks0[i as int].key(), blocks0[t].key()),
                        ) implies spec_succ_prop_ok(blocks0, fv0, i as int, t) by {
                        let b2 = blocks0[t].key();
                        let o2 = choose|o2: int|
                            0 <= o2 < outs@.len() && (#[trigger] outs@[o2]).1 == b2;
                    };
                };
            }
        }
        i = i + 1;
    }
    proof {
        if !changed {
            assert(spec_resolved(blocks0, jd@, gm0, fv0)) by {
                assert(fv0.len() == facts0.len());
            };
        }
    }
    changed
}

/// Run propagation rounds until a round adds nothing or the defensive bound
/// is exhausted. Returns the blocks (with resolved push targets attached),
/// the grown graph, whether a fixed point was reached, and the facts the
/// propagation established. At a reached fixed point the returned state
/// satisfies `spec_resolved`, so by `lemma_resolution_idempotent` one more
/// round would add zero new edges.
pub fn resolve_indirect_jumps(
    blocks: Vec<InstructionBlock>,
    jd: &Vec<bool>,
    g0: CfgDag,
) -> (r: (Vec<InstructionBlock>, CfgDag, bool, Ghost<Seq<Seq<Fact>>>))
    requires
        forall|a: int, b: int|
            0 <= a < b < blocks@.len() ==> (#[trigger] blocks@[a]).key() != (
            #[trigger] blocks@[b]).key(),
        forall|j: int|
            0 <= j < blocks@.len() ==> graph_nodes(g0).contains((#[trigger] blocks@[j]).key()),
    ensures
        r.0@.len() == blocks@.len(),
        forall|j: int|
            0 <= j < blocks@.len() ==> spec_same_shape(blocks@[j], #[trigger] r.0@[j]),
        forall|k: ((u16, u16), (u16, u16))|
            #[trigger] graph_edge_map(g0).dom().contains(k) ==> graph_edge_map(
                r.1,
            ).dom().contains(k) && graph_edge_map(r.1)[k] == graph_edge_map(g0)[k],
        forall|k: ((u16, u16), (u16, u16))|
            #[trigger] graph_edge_map(r.1).dom().contains(k) && !graph_edge_map(
                g0,
            ).dom().contains(k) ==> graph_edge_map(r.1)[k] == TAG_SYMBOLIC_JUMP && spec_jd_ok(
                jd@,
                k.1.0,
            ),
        graph_nodes(r.1) == graph_nodes(g0),
        forall|k: ((u16, u16), (u16, u16))|
            #[trigger] graph_edge_map(r.1).dom().contains(k) && !graph_edge_map(
                g0,
            ).dom().contains(k) ==> crate::cfg::spec_is_block_key(blocks@, k.0)
                && crate::cfg::spec_is_block_key(blocks@, k.1),
        r.2 ==> spec_resolved(r.0@, jd@, graph_edge_map(r.1), r.3@),
{
    let mut bl = blocks;
    let mut g = g0;
    let n = bl.len();
    let mut facts: Vec<Vec<Fact>> = Vec::new();
    let mut j: usize = 0;
    while j < n
        invariant
            facts@.len() == j,
            j <= n,
        decreases n - j,
    {
        facts.push(Vec::new());
        j = j + 1;
    }
    // defensive bound on propagation rounds
    let mut fuel: usize = if n < 4096 {
        16 * n + 16
    } else {
        65536
    };
    let mut fixed = false;
    while fuel > 0 && !fixed
        invariant
            n == bl@.len(),
            blocks@.len() == n,
            facts@.len() == n,
            forall|j: int|
                0 <= j < blocks@.len() ==> spec_same_shape(blocks@[j], #[trigger] bl@[j]),
            forall|a: int, b: int|
                0 <= a < b < n ==> (#[trigger] bl@[a]).key() != (#[trigger] bl@[b]).key(),
            forall|j: int|
                0 <= j < n ==> graph_nodes(g).contains((#[trigger] bl@[j]).key()),
            graph_nodes(g) == graph_nodes(g0),
            forall|k: ((u16, u16), (u16, u16))|
                #[trigger] graph_edge_map(g0).dom().contains(k) ==> graph_edge_map(
                    g,
                ).dom().contains(k) && graph_edge_map(g)[k] == graph_edge_map(g0)[k],
            forall|k: ((u16, u16), (u16, u16))|
                #[trigger] graph_edge_map(g).dom().contains(k) && !graph_edge_map(
                    g0,
                ).dom().contains(k) ==> graph_edge_map(g)[k] == TAG_SYMBOLIC_JUMP && spec_jd_ok(
                    jd@,
                    k.1.0,
                ),
            forall|k: ((u16, u16), (u16, u16))|
                #[trigger] graph_edge_map(g).dom().contains(k) && !graph_edge_map(
                    g0,
                ).dom().contains(k) ==> crate::cfg::spec_is_block_key(blocks@, k.0)
                    && crate::cfg::spec_is_block_key(blocks@, k.1),
            fixed ==> spec_resolved(bl@, jd@, graph_edge_map(g), facts_view(facts@)),
        decreases fuel,
    {
        let ghost blpre = bl@;
        let ghost gpre = graph_edge_map(g);
        let changed = resolve_round(&mut bl, &mut facts, &mut g, jd);
        proof {
            assert forall|j: int|
                0 <= j < blocks@.len() implies spec_same_shape(blocks@[j], #[trigger] bl@[j]) by {
                assert(spec_same_shape(blocks@[j], blpre[j]));
                assert(spec_same_shape(blpre[j], bl@[j]));
            };
            assert forall|k: ((u16, u16), (u16, u16))|
                #[trigger] graph_edge_map(g).dom().contains(k) && !graph_edge_map(
                    g0,
                ).dom().contains(k) implies crate::cfg::spec_is_block_key(blocks@, k.0)
                && crate::cfg::spec_is_block_key(blocks@, k.1) by {
                if !gpre.dom().contains(k) {
                    let j0 = choose|j0: int|
                        0 <= j0 < blpre.len() && (#[trigger] blpre[j0]).key() == k.0;
                    let j1 = choose|j1: int|
                        0 <= j1 < blpre.len() && (#[trigger] blpre[j1]).key() == k.1;
                    assert(spec_same_shape(blocks@[j0], blpre[j0]));
                    assert(spec_same_shape(blocks@[j1], blpre[j1]));
                    assert(blocks@[j0].key() == k.0 && blocks@[j1].key() == k.1);
                }
            };
            assert forall|a: int, b: int|
                0 <= a < b < n implies (#[trigger] bl@[a]).key() != (#[trigger] bl@[b]).key() by {
                assert(spec_same_shape(blpre[a], bl@[a]));
                assert(spec_same_shape(blpre[b], bl@[b]));
            };
            assert forall|j: int|
                0 <= j < n implies graph_nodes(g).contains((#[trigger] bl@[j]).key()) by {
                assert(spec_same_shape(blpre[j], bl@[j]));
            };
        }
        if !changed {
            fixed = true;
            proof {
                assert(bl@ == blpre);
            }
        }
        fuel = fuel - 1;
    }
    let ghost final_facts = facts_view(facts@);
    (bl, g, fixed, Ghost(final_facts))
}


/// All blocks that survive pruning stay analyzed.
proof fn lemma_kept_analyzed(
    m: Map<((u16, u16), (u16, u16)), u8>,
    jd: Seq<bool>,
    s: Seq<InstructionBlock>,
)
    requires
        forall|i: int| 0 <= i < s.len() ==> spec_block_analyzed(#[trigger] s[i]),
    ensures
        forall|j: int|
            0 <= j < crate::cfg::spec_kept_blocks(m, jd, s).len() ==> spec_block_analyzed(
                #[trigger] crate::cfg::spec_kept_blocks(m, jd, s)[j],
            ),
    decreases s.len(),
{
    reveal(Seq::filter);
    if s.len() > 0 {
        assert(forall|i: int|
            0 <= i < s.drop_last().len() ==> spec_block_analyzed(#[trigger] s.drop_last()[i]));
        lemma_kept_analyzed(m, jd, s.drop_last());
        let out = crate::cfg::spec_kept_blocks(m, jd, s);
        let sub = crate::cfg::spec_kept_blocks(m, jd, s.drop_last());
        assert forall|j: int| 0 <= j < out.len() implies spec_block_analyzed(
            #[trigger] out[j],
        ) by {
            if crate::cfg::spec_kept(m, jd, s.last()) {
                assert(out == sub.push(s.last()));
                if j < sub.len() {
                    assert(out[j] == sub[j]);
                } else {
                    assert(out[j] == s.last());
                    assert(spec_block_analyzed(s[s.len() - 1]));
                }
            } else {
                assert(out == sub);
            }
        };
    }
}

/// Every survivor of pruning is one of the original blocks and satisfies the
/// survival condition.
proof fn lemma_kept_members(
    m: Map<((u16, u16), (u16, u16)), u8>,
    jd: Seq<bool>,
    s: Seq<InstructionBlock>,
)
    ensures
        forall|x: InstructionBlock|
            #[trigger] crate::cfg::spec_kept_blocks(m, jd, s).contains(x) ==> s.contains(x)
                && crate::cfg::spec_kept(m, jd, x),
    decreases s.len(),
{
    reveal(Seq::filter);
    let out = crate::cfg::spec_kept_blocks(m, jd, s);
    if s.len() > 0 {
        lemma_kept_members(m, jd, s.drop_last());
        let sub = crate::cfg::spec_kept_blocks(m, jd, s.drop_last());
        assert forall|x: InstructionBlock| #[trigger] out.contains(x) implies s.contains(x)
            && crate::cfg::spec_kept(m, jd, x) by {
            if crate::cfg::spec_kept(m, jd, s.last()) && x == s.last() {
                assert(s[s.len() - 1] == x);
            } else {
                assert(sub.contains(x));
                let j = choose|j: int| 0 <= j < s.drop_last().len() && s.drop_last()[j] == x;
                assert(s[j] == x);
            }
        };
    }
}

/// Every block that satisfies the survival condition is among the survivors.
proof fn lemma_kept_contains(
    m: Map<((u16, u16), (u16, u16)), u8>,
    jd: Seq<bool>,
    s: Seq<InstructionBlock>,
)
    ensures
        forall|i: int|
            0 <= i < s.len() && crate::cfg::spec_kept(m, jd, #[trigger] s[i])
                ==> crate::cfg::spec_kept_blocks(m, jd, s).contains(s[i]),
    decreases s.len(),
{
    reveal(Seq::filter);
    let out = crate::cfg::spec_kept_blocks(m, jd, s);
    if s.len() > 0 {
        lemma_kept_contains(m, jd, s.drop_last());
        let sub = crate::cfg::spec_kept_blocks(m, jd, s.drop_last());
        assert forall|i: int|
            0 <= i < s.len() && crate::cfg::spec_kept(m, jd, #[trigger] s[i]) implies out.contains(
            s[i],
        ) by {
            if i < s.len() - 1 {
                assert(s.drop_last()[i] == s[i]);
                assert(sub.contains(s[i]));
                let j = choose|j: int| 0 <= j < sub.len() && sub[j] == s[i];
                if crate::cfg::spec_kept(m, jd, s.last()) {
                    assert(out == sub.push(s.last()));
                    assert(out[j] == s[i]);
                } else {
                    assert(out == sub);
                }
            } else {
                assert(s[i] == s.last());
                assert(out == sub.push(s.last()));
                assert(out[out.len() - 1] == s[i]);
            }
        };
    }
}

/// Pruning keeps the block keys pairwise distinct.
proof fn lemma_kept_unique_keys(
    m: Map<((u16, u16), (u16, u16)), u8>,
    jd: Seq<bool>,
    s: Seq<InstructionBlock>,
)
    requires
        forall|a: int, b: int|
            0 <= a < b < s.len() ==> (#[trigger] s[a]).key() != (#[trigger] s[b]).key(),
    ensures
        forall|a: int, b: int|
            0 <= a < b < crate::cfg::spec_kept_blocks(m, jd, s).len() ==> (
            #[trigger] crate::cfg::spec_kept_blocks(m, jd, s)[a]).key() != (
            #[trigger] crate::cfg::spec_kept_blocks(m, jd, s)[b]).key(),
    decreases s.len(),
{
    reveal(Seq::filter);
    let out = crate::cfg::spec_kept_blocks(m, jd, s);
    if s.len() > 0 {
        assert(forall|a: int, b: int|
            0 <= a < b < s.drop_last().len() ==> (#[trigger] s.drop_last()[a]).key() != (
            #[trigger] s.drop_last()[b]).key());
        lemma_kept_unique_keys(m, jd, s.drop_last());
        lemma_kept_members(m, jd, s.drop_last());
        let sub = crate::cfg::spec_kept_blocks(m, jd, s.drop_last());
        assert forall|a: int, b: int|
            0 <= a < b < out.len() implies (#[trigger] out[a]).key() != (
        #[trigger] out[b]).key() by {
            if crate::cfg::spec_kept(m, jd, s.last()) {
                assert(out == sub.push(s.last()));
                if b < sub.len() {
                    assert(out[a] == sub[a] && out[b] == sub[b]);
                } else {
                    assert(out[a] == sub[a] && out[b] == s.last());
                    assert(sub.contains(sub[a]));
                    let j = choose|j: int|
                        0 <= j < s.drop_last().len() && s.drop_last()[j] == sub[a];
                    assert(s[j] == sub[a]);
                    assert(s[j].key() != s[s.len() - 1].key());
                }
            } else {
                assert(out == sub);
                assert(out[a] == sub[a] && out[b] == sub[b]);
            }
        };
    }
}

/// The last node formed during construction: the final block of the
/// disassembly, before pruning.
pub open spec fn spec_last_node(an: Seq<InstructionBlock>) -> Option<(u16, u16)> {
    if an.len() > 0 {
        Some(an.last().key())
    } else {
        None
    }
}

/// The conditional-jump classification as an edge type.
pub open spec fn spec_jumpi_opt(an: Seq<InstructionBlock>, jd: Seq<bool>) -> Option<Edges> {
    match crate::cfg::spec_jumpi_after(an, jd, an.len() as int) {
        Some(t) => Some(spec_edge_of_tag(t)),
        None => None,
    }
}

/// The recovered control-flow graph of one bytecode program: the surviving
/// instruction blocks, the typed edge graph over their `(start_pc, end_pc)`
/// keys, the last node formed during construction, and the classification of
/// the most recent conditional-jump edge.
pub struct CFGEvm {
    pub cfg_dag: CfgDag,
    /// The key of the last node formed during construction (before pruning).
    pub last_node: Option<(u16, u16)>,
    /// The classification of the most recent conditional-jump edge formed.
    pub jumpi_edge: Option<Edges>,
    /// The surviving blocks, in program order.
    pub map_to_instructionblock: Vec<InstructionBlock>,
    /// Whether the resolver reached its fixed point within the defensive
    /// iteration bound.
    pub resolution_complete: bool,
    /// The edges that stood before indirect-jump resolution (after pruning).
    pub direct_edges: Ghost<Map<((u16, u16), (u16, u16)), u8>>,
    /// The jumpdest table of the decoded bytes.
    pub jd_table: Ghost<Seq<bool>>,
    /// The raw disassembly of the decoded bytes.
    pub disassembly: Ghost<Seq<InstructionBlock>>,
    /// The disassembly with every block's stack summary attached (pre-prune).
    pub analyzed: Ghost<Seq<InstructionBlock>>,
    /// The entry facts the resolver's propagation established.
    pub facts: Ghost<Seq<Seq<Fact>>>,
}

impl CFGEvm {
    /// Run the whole pipeline on a hexadecimal bytecode string: strip
    /// whitespace, decode, build the jumpdest table, disassemble, summarize
    /// each block, form direct edges, prune unreachable blocks, and resolve
    /// indirect jumps to a fixed point.
    ///
    /// The contract pins the result to the pipeline: the ghost `disassembly`
    /// is a well-formed tiling of the decoded bytes, `analyzed` is its
    /// summarized form, the surviving blocks are exactly the pruned analyzed
    /// blocks (with resolved push targets attached), the direct edges are the
    /// pruned basic edge map and survive resolution unchanged, every edge the
    /// resolver added is a symbolic jump landing on a genuine jump
    /// destination, and at a reached fixed point the final state satisfies
    /// `spec_resolved`.
    pub fn new(bytecode_string: String) -> (r: CFGEvm)
        requires
            spec_hex_ok(spec_sanitized(bytecode_string@)),
            spec_hex_decode(spec_sanitized(bytecode_string@)).len() <= 0xFFFF,
        ensures
            ({
                let bytes = spec_hex_decode(spec_sanitized(bytecode_string@));
                let an = r.analyzed@;
                let jd = r.jd_table@;
                let basic = crate::cfg::spec_edges_after(an, jd, an.len() as int);
                let kept = crate::cfg::spec_kept_blocks(basic, jd, an);
                &&& jd.len() == bytes.len()
                &&& (forall|pc: int|
                    0 <= pc < bytes.len() ==> jd[pc] == crate::jumpdest::spec_is_jumpdest(
                        bytes,
                        pc,
                    ))
                &&& crate::disasm::spec_blocks_wf(bytes, r.disassembly@)
                &&& spec_analyzed_from(r.disassembly@, an)
                &&& r.map_to_instructionblock@.len() == kept.len()
                &&& (forall|j: int|
                    0 <= j < kept.len() ==> spec_same_shape(
                        kept[j],
                        #[trigger] r.map_to_instructionblock@[j],
                    ))
                &&& (forall|j: int|
                    0 <= j < r.map_to_instructionblock@.len() ==> spec_block_analyzed(
                        #[trigger] r.map_to_instructionblock@[j],
                    ))
                &&& (forall|k: ((u16, u16), (u16, u16))|
                    #[trigger] r.direct_edges@.dom().contains(k) ==> basic.dom().contains(k)
                        && r.direct_edges@[k] == basic[k])
                &&& (forall|k: ((u16, u16), (u16, u16))|
                    basic.dom().contains(k) && !crate::cfg::spec_unkept_key(basic, jd, an, k.0)
                        && !crate::cfg::spec_unkept_key(basic, jd, an, k.1)
                        ==> #[trigger] r.direct_edges@.dom().contains(k))
                &&& (forall|k: ((u16, u16), (u16, u16))|
                    #[trigger] r.direct_edges@.dom().contains(k) ==> graph_edge_map(
                        r.cfg_dag,
                    ).dom().contains(k) && graph_edge_map(r.cfg_dag)[k] == r.direct_edges@[k])
                &&& (forall|k: ((u16, u16), (u16, u16))|
                    #[trigger] graph_edge_map(r.cfg_dag).dom().contains(k)
                        && !r.direct_edges@.dom().contains(k) ==> graph_edge_map(r.cfg_dag)[k]
                        == TAG_SYMBOLIC_JUMP && crate::jumpdest::spec_is_jumpdest(
                        bytes,
                        k.1.0 as int,
                    ))
                &&& (forall|n: (u16, u16)|
                    #[trigger] graph_nodes(r.cfg_dag).contains(n) <==> (
                    crate::cfg::spec_keys_after(an, an.len() as int).contains(n)
                        && !crate::cfg::spec_unkept_key(basic, jd, an, n)))
                &&& (forall|k: ((u16, u16), (u16, u16))|
                    #[trigger] graph_edge_map(r.cfg_dag).dom().contains(k) ==> (exists|j: int|
                        0 <= j < r.map_to_instructionblock@.len() && (
                        #[trigger] r.map_to_instructionblock@[j]).key() == k.0) && (exists|j: int|
                        0 <= j < r.map_to_instructionblock@.len() && (
                        #[trigger] r.map_to_instructionblock@[j]).key() == k.1))
                &&& r.last_node == spec_last_node(an)
                &&& r.jumpi_edge == spec_jumpi_opt(an, jd)
                &&& (r.resolution_complete ==> spec_resolved(
                    r.map_to_instructionblock@,
                    jd,
                    graph_edge_map(r.cfg_dag),
                    r.facts@,
                ))
            }),
    {
        let cleaned = strip_whitespace(bytecode_string.as_str());
        let bytes = match hex_decode(cleaned.as_str()) {
            Some(v) => v,
            None => vstd::pervasive::unreached(),
        };
        let jd = jumpdest_table(&bytes);
        let raw = disassemble(&bytes);
        proof {
            assert forall|j: int| 0 <= j < raw@.len() implies (#[trigger] raw@[j]).ops@.len()
                <= 0xFFFF && raw@[j].ops@.len() > 0 by {
                crate::disasm::lemma_ops_count(bytes@, raw@[j]);
                crate::disasm::lemma_block_geometry(bytes@, raw@[j]);
            };
        }
        let ghost raw0 = raw@;
        let analyzed = analyze_blocks(raw);
        let ghost an = analyzed@;
        proof {
            assert(spec_analyzed_from(raw0, an));
            assert forall|j: int| 0 <= j < an.len() implies (#[trigger] an[j]).ops@.len() > 0 by {
                assert(an[j].ops == raw0[j].ops);
            };
            // keys are pairwise distinct: block starts strictly increase
            assert forall|a: int, b: int|
                0 <= a < b < an.len() implies (#[trigger] an[a]).key() != (
            #[trigger] an[b]).key() by {
                crate::disasm::lemma_blocks_sorted(bytes@, raw0, a, b);
                assert(an[a].start_pc == raw0[a].start_pc && an[b].start_pc == raw0[b].start_pc);
            };
        }
        let last_node: Option<(u16, u16)> = if analyzed.len() > 0 {
            Some((analyzed[analyzed.len() - 1].start_pc, analyzed[analyzed.len() - 1].end_pc))
        } else {
            None
        };
        let (g, jumpi_tag) = form_basic_connections(&analyzed, &jd);
        let ghost gm = graph_edge_map(g);
        let (kept, g2) = remove_unreachable_instruction_blocks(analyzed, &jd, g);
        let ghost direct = graph_edge_map(g2);
        proof {
            lemma_kept_analyzed(gm, jd@, an);
            lemma_kept_unique_keys(gm, jd@, an);
            lemma_kept_members(gm, jd@, an);
            // every survivor's key is still a node of the pruned graph
            assert forall|j: int|
                0 <= j < kept@.len() implies graph_nodes(g2).contains(
                (#[trigger] kept@[j]).key(),
            ) by {
                let x = kept@[j];
                assert(crate::cfg::spec_kept_blocks(gm, jd@, an).contains(x));
                assert(an.contains(x) && crate::cfg::spec_kept(gm, jd@, x));
                let idx = choose|idx: int| 0 <= idx < an.len() && an[idx] == x;
                crate::cfg::lemma_keys_after_contains(an, an.len() as int, idx);
                if crate::cfg::spec_unkept_key(gm, jd@, an, x.key()) {
                    let j2 = choose|j2: int|
                        0 <= j2 < an.len() && (#[trigger] an[j2]).key() == x.key()
                            && !crate::cfg::spec_kept(gm, jd@, an[j2]);
                    if j2 < idx {
                        assert(an[j2].key() != an[idx].key());
                    } else if j2 > idx {
                        assert(an[idx].key() != an[j2].key());
                    }
                }
            };
        }
        let (kept2, g3, fixed, resolver_facts) = resolve_indirect_jumps(kept, &jd, g2);
        let jumpi_edge: Option<Edges> = match jumpi_tag {
            Some(t) => Some(edge_of_tag(t)),
            None => None,
        };
        proof {
            // the resolver's extra edges land on genuine jump destinations
            assert forall|k: ((u16, u16), (u16, u16))|
                #[trigger] graph_edge_map(g3).dom().contains(k) && !direct.dom().contains(k)
                    implies graph_edge_map(g3)[k] == TAG_SYMBOLIC_JUMP
                && crate::jumpdest::spec_is_jumpdest(bytes@, k.1.0 as int) by {
                assert(spec_jd_ok(jd@, k.1.0));
            };
            // every edge of the final graph connects keys of surviving blocks
            crate::cfg::lemma_edges_endpoints(an, jd@, an.len() as int);
            lemma_kept_contains(gm, jd@, an);
            let kseq = crate::cfg::spec_kept_blocks(gm, jd@, an);
            assert forall|n: (u16, u16)|
                (crate::cfg::spec_is_block_key(an, n) && !crate::cfg::spec_unkept_key(
                    gm,
                    jd@,
                    an,
                    n,
                )) || crate::cfg::spec_is_block_key(kseq, n) implies exists|j: int|
                0 <= j < kept2@.len() && (#[trigger] kept2@[j]).key() == n by {
                if crate::cfg::spec_is_block_key(kseq, n) {
                    let j = choose|j: int| 0 <= j < kseq.len() && (#[trigger] kseq[j]).key() == n;
                    assert(spec_same_shape(kseq[j], kept2@[j]));
                    assert(kept2@[j].key() == n);
                } else {
                    let idx = choose|idx: int|
                        0 <= idx < an.len() && (#[trigger] an[idx]).key() == n;
                    assert(crate::cfg::spec_kept(gm, jd@, an[idx])) by {
                        if !crate::cfg::spec_kept(gm, jd@, an[idx]) {
                            assert(crate::cfg::spec_unkept_key(gm, jd@, an, n));
                        }
                    };
                    assert(kseq.contains(an[idx]));
                    let j = choose|j: int| 0 <= j < kseq.len() && kseq[j] == an[idx];
                    assert(spec_same_shape(kseq[j], kept2@[j]));
                    assert(kept2@[j].key() == n);
                }
            };
            assert forall|k: ((u16, u16), (u16, u16))|
                #[trigger] graph_edge_map(g3).dom().contains(k) implies (exists|j: int|
                0 <= j < kept2@.len() && (#[trigger] kept2@[j]).key() == k.0) && (exists|j: int|
                0 <= j < kept2@.len() && (#[trigger] kept2@[j]).key() == k.1) by {
                if direct.dom().contains(k) {
                    assert(gm.dom().contains(k));
                    assert(crate::cfg::spec_is_block_key(an, k.0));
                    assert(crate::cfg::spec_is_block_key(an, k.1));
                    assert(!crate::cfg::spec_unkept_key(gm, jd@, an, k.0));
                    assert(!crate::cfg::spec_unkept_key(gm, jd@, an, k.1));
                } else {
                    assert(crate::cfg::spec_is_block_key(kept@, k.0));
                    assert(crate::cfg::spec_is_block_key(kept@, k.1));
                }
            };
        }
        CFGEvm {
            cfg_dag: g3,
            last_node,
            jumpi_edge,
            map_to_instructionblock: kept2,
            resolution_complete: fixed,
            direct_edges: Ghost(direct),
            jd_table: Ghost(jd@),
            disassembly: Ghost(raw0),
            analyzed: Ghost(an),
            facts: resolver_facts,
        }
    }

    /// The typed edges entering `node`: every edge of the graph into `node`,
    /// each exactly once.
    pub fn incoming_edges(&self, node: (u16, u16)) -> (r: Vec<NodeEdge>)
        ensures
            forall|i: int|
                0 <= i < r@.len() ==> (#[trigger] r@[i]).to_node == node && graph_edge_map(
                    self.cfg_dag,
                ).dom().contains((r@[i].from_node, node)) && r@[i].edge == spec_edge_of_tag(
                    graph_edge_map(self.cfg_dag)[(r@[i].from_node, node)],
                ),
            forall|a: (u16, u16)|
                graph_edge_map(self.cfg_dag).dom().contains((a, node)) ==> exists|i: int|
                    0 <= i < r@.len() && (#[trigger] r@[i]).from_node == a,
            forall|i: int, j: int|
                0 <= i < j < r@.len() ==> (#[trigger] r@[i]).from_node != (
                #[trigger] r@[j]).from_node,
    {
        let raw = incoming_edges_vec(&self.cfg_dag, node);
        let mut ret: Vec<NodeEdge> = Vec::new();
        let mut i: usize = 0;
        while i < raw.len()
            invariant
                i <= raw@.len(),
                ret@.len() == i,
                forall|t: int|
                    0 <= t < raw@.len() ==> (#[trigger] raw@[t]).1 == node && graph_edge_map(
                        self.cfg_dag,
                    ).dom().contains((raw@[t].0, node)) && raw@[t].2 == graph_edge_map(
                        self.cfg_dag,
                    )[(raw@[t].0, node)],
                forall|t: int|
                    0 <= t < i ==> (#[trigger] ret@[t]).from_node == raw@[t].0 && ret@[t].to_node
                        == node && ret@[t].edge == spec_edge_of_tag(raw@[t].2),
            decreases raw@.len() - i,
        {
            let e = raw[i];
            ret.push(NodeEdge::new(e.0, e.1, &edge_of_tag(e.2)));
            i = i + 1;
        }
        proof {
            assert forall|a: (u16, u16)|
                graph_edge_map(self.cfg_dag).dom().contains((a, node)) implies exists|t: int|
                0 <= t < ret@.len() && (#[trigger] ret@[t]).from_node == a by {
                let t = choose|t: int| 0 <= t < raw@.len() && (#[trigger] raw@[t]).0 == a;
                assert(ret@[t].from_node == a);
            };
        }
        ret
    }

    /// The typed edges leaving `node`: every edge of the graph out of `node`,
    /// each exactly once.
    pub fn outgoing_edges(&self, node: (u16, u16)) -> (r: Vec<NodeEdge>)
        ensures
            forall|i: int|
                0 <= i < r@.len() ==> (#[trigger] r@[i]).from_node == node && graph_edge_map(
                    self.cfg_dag,
                ).dom().contains((node, r@[i].to_node)) && r@[i].edge == spec_edge_of_tag(
                    graph_edge_map(self.cfg_dag)[(node, r@[i].to_node)],
                ),
            forall|b: (u16, u16)|
                graph_edge_map(self.cfg_dag).dom().contains((node, b)) ==> exists|i: int|
                    0 <= i < r@.len() && (#[trigger] r@[i]).to_node == b,
            forall|i: int, j: int|
                0 <= i < j < r@.len() ==> (#[trigger] r@[i]).to_node != (#[trigger] r@[j]).to_node,
    {
        let raw = outgoing_edges_vec(&self.cfg_dag, node);
        let mut ret: Vec<NodeEdge> = Vec::new();
        let mut i: usize = 0;
        while i < raw.len()
            invariant
                i <= raw@.len(),
                ret@.len() == i,
                forall|t: int|
                    0 <= t < raw@.len() ==> (#[trigger] raw@[t]).0 == node && graph_edge_map(
                        self.cfg_dag,
                    ).dom().contains((node, raw@[t].1)) && raw@[t].2 == graph_edge_map(
                        self.cfg_dag,
                    )[(node, raw@[t].1)],
                forall|t: int|
                    0 <= t < i ==> (#[trigger] ret@[t]).to_node == raw@[t].1 && ret@[t].from_node
                        == node && ret@[t].edge == spec_edge_of_tag(raw@[t].2),
            decreases raw@.len() - i,
        {
            let e = raw[i];
            ret.push(NodeEdge::new(e.0, e.1, &edge_of_tag(e.2)));
            i = i + 1;
        }
        proof {
            assert forall|b: (u16, u16)|
                graph_edge_map(self.cfg_dag).dom().contains((node, b)) implies exists|t: int|
                0 <= t < ret@.len() && (#[trigger] ret@[t]).to_node == b by {
                let t = choose|t: int| 0 <= t < raw@.len() && (#[trigger] raw@[t]).1 == b;
                assert(ret@[t].to_node == b);
            };
        }
        ret
    }

    /// Look up a surviving block by its key.
    pub fn get_block(&self, node: (u16, u16)) -> (r: Option<&InstructionBlock>)
        ensures
            match r {
                Some(b) => exists|j: int|
                    0 <= j < self.map_to_instructionblock@.len()
                        && (#[trigger] self.map_to_instructionblock@[j]).key() == node
                        && self.map_to_instructionblock@[j] == *b,
                None => forall|j: int|
                    0 <= j < self.map_to_instructionblock@.len() ==> (
                    #[trigger] self.map_to_instructionblock@[j]).key() != node,
            },
    {
        let mut i: usize = 0;
        while i < self.map_to_instructionblock.len()
            invariant
                i <= self.map_to_instructionblock@.len(),
                forall|j: int|
                    0 <= j < i ==> (#[trigger] self.map_to_instructionblock@[j]).key() != node,
            decreases self.map_to_instructionblock@.len() - i,
        {
            if self.map_to_instructionblock[i].start_pc == node.0
                && self.map_to_instructionblock[i].end_pc == node.1 {
                return Some(&self.map_to_instructionblock[i]);
            }
            i = i + 1;
        }
        None
    }
}

} // verus!
