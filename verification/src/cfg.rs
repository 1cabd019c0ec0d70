//! Building the control-flow graph: one node per instruction block, edges for
//! statically determinable transfers, pruning of unreachable blocks, and the
//! query surface of the finished graph.

use crate::block::InstructionBlock;
use crate::graph::{
    add_edge, add_node, graph_edge_map, graph_is_empty, graph_nodes, incoming_edges_vec,
    new_graph, CfgDag, remove_node,
};
use crate::opcode::{is_terminal, spec_is_terminal, OP_JUMP, OP_JUMPI};
use vstd::prelude::*;

verus! {

pub const TAG_JUMP: u8 = 0;
pub const TAG_CONDITION_TRUE: u8 = 1;
pub const TAG_CONDITION_FALSE: u8 = 2;
pub const TAG_SYMBOLIC_JUMP: u8 = 3;

/// The type of a control-flow edge.
#[derive(Clone, Copy, PartialEq, Eq, Structural, Debug)]
pub enum Edges {
    /// Unconditional transfer: fallthrough or a direct jump.
    Jump,
    /// The taken leg of a conditional jump.
    ConditionTrue,
    /// The fallthrough leg of a conditional jump.
    ConditionFalse,
    /// An indirect jump resolved by value propagation.
    SymbolicJump,
}

pub open spec fn spec_edge_of_tag(t: u8) -> Edges {
    if t == TAG_CONDITION_TRUE {
        Edges::ConditionTrue
    } else if t == TAG_CONDITION_FALSE {
        Edges::ConditionFalse
    } else if t == TAG_SYMBOLIC_JUMP {
        Edges::SymbolicJump
    } else {
        Edges::Jump
    }
}

pub fn edge_of_tag(t: u8) -> (r: Edges)
    ensures
        r == spec_edge_of_tag(t),
{
    if t == TAG_CONDITION_TRUE {
        Edges::ConditionTrue
    } else if t == TAG_CONDITION_FALSE {
        Edges::ConditionFalse
    } else if t == TAG_SYMBOLIC_JUMP {
        Edges::SymbolicJump
    } else {
        Edges::Jump
    }
}

/// One typed edge of the graph, as handed to callers.
#[derive(Clone, Copy, PartialEq, Eq, Debug)]
pub struct NodeEdge {
    pub from_node: (u16, u16),
    pub to_node: (u16, u16),
    pub edge: Edges,
}

impl NodeEdge {
    pub fn new(from_node: (u16, u16), to_node: (u16, u16), edge: &Edges) -> (r: NodeEdge)
        ensures
            r.from_node == from_node,
            r.to_node == to_node,
            r.edge == edge,
    {
        NodeEdge { from_node, to_node, edge: *edge }
    }
}

/// `v` is a valid jump destination according to the jumpdest table.
pub open spec fn spec_jd_ok(jd: Seq<bool>, v: u16) -> bool {
    (v as int) < jd.len() && jd[v as int]
}

pub fn jd_ok(jd: &Vec<bool>, v: u16) -> (r: bool)
    ensures
        r == spec_jd_ok(jd@, v),
{
    (v as usize) < jd.len() && jd[v as usize]
}

/// The first block that starts at pc `v`.
pub open spec fn spec_find_start(blocks: Seq<InstructionBlock>, v: u16, i: int) -> Option<int>
    decreases blocks.len() - i,
{
    if i < 0 || i >= blocks.len() {
        None
    } else if blocks[i].start_pc == v {
        Some(i)
    } else {
        spec_find_start(blocks, v, i + 1)
    }
}

pub fn find_start(blocks: &Vec<InstructionBlock>, v: u16) -> (r: Option<usize>)
    ensures
        match r {
            Some(t) => spec_find_start(blocks@, v, 0) == Some(t as int) && t < blocks@.len()
                && blocks@[t as int].start_pc == v,
            None => spec_find_start(blocks@, v, 0) is None,
        },
{
    let mut i: usize = 0;
    while i < blocks.len()
        invariant
            i <= blocks@.len(),
            spec_find_start(blocks@, v, 0) == spec_find_start(blocks@, v, i as int),
        decreases blocks@.len() - i,
    {
        if blocks[i].start_pc == v {
            return Some(i);
        }
        i = i + 1;
    }
    None
}

/// `n` is the key of one of the blocks.
pub open spec fn spec_is_block_key(blocks: Seq<InstructionBlock>, n: (u16, u16)) -> bool {
    exists|j: int| 0 <= j < blocks.len() && (#[trigger] blocks[j]).key() == n
}

/// A found block index is in range and starts at the sought pc.
pub proof fn lemma_find_start_range(blocks: Seq<InstructionBlock>, v: u16, i: int)
    requires
        spec_find_start(blocks, v, i) is Some,
        0 <= i,
    ensures
        i <= spec_find_start(blocks, v, i).unwrap() < blocks.len(),
        blocks[spec_find_start(blocks, v, i).unwrap()].start_pc == v,
    decreases blocks.len() - i,
{
    if i < blocks.len() && blocks[i].start_pc != v {
        lemma_find_start_range(blocks, v, i + 1);
    }
}

/// Every basic edge connects keys of the blocks that formed it.
pub proof fn lemma_edges_endpoints(blocks: Seq<InstructionBlock>, jd: Seq<bool>, n: int)
    requires
        0 <= n <= blocks.len(),
    ensures
        forall|k: ((u16, u16), (u16, u16))|
            #[trigger] spec_edges_after(blocks, jd, n).dom().contains(k) ==> spec_is_block_key(
                blocks,
                k.0,
            ) && spec_is_block_key(blocks, k.1),
    decreases n,
{
    if n > 0 {
        lemma_edges_endpoints(blocks, jd, n - 1);
        assert forall|k: ((u16, u16), (u16, u16))|
            #[trigger] spec_edges_after(blocks, jd, n).dom().contains(k) implies spec_is_block_key(
            blocks,
            k.0,
        ) && spec_is_block_key(blocks, k.1) by {
            if !spec_edges_after(blocks, jd, n - 1).dom().contains(k) {
                let b = blocks[n - 1];
                if spec_took(blocks, jd, n - 1) {
                    let v = b.stack_info.push_used_for_jump.unwrap();
                    lemma_find_start_range(blocks, v, 0);
                }
                assert(spec_is_block_key(blocks, blocks[n - 1].key()));
                if n - 1 < blocks.len() - 1 {
                    assert(spec_is_block_key(blocks, blocks[n].key()));
                }
            }
        };
    }
}

/// Whether block `i` has a resolvable trailing-literal jump target: a literal
/// that is a valid jumpdest beginning some block.
pub open spec fn spec_took(blocks: Seq<InstructionBlock>, jd: Seq<bool>, i: int) -> bool {
    match blocks[i].stack_info.push_used_for_jump {
        Some(v) => spec_jd_ok(jd, v) && spec_find_start(blocks, v, 0) is Some,
        None => false,
    }
}

/// Add the edge for a trailing-literal jump of block `i`, when the literal is
/// a valid jumpdest that begins a block.
pub open spec fn spec_direct_edge(
    blocks: Seq<InstructionBlock>,
    jd: Seq<bool>,
    m: Map<((u16, u16), (u16, u16)), u8>,
    i: int,
    tag: u8,
) -> Map<((u16, u16), (u16, u16)), u8> {
    match blocks[i].stack_info.push_used_for_jump {
        Some(v) => if spec_jd_ok(jd, v) {
            match spec_find_start(blocks, v, 0) {
                Some(t) => m.insert((blocks[i].key(), blocks[t].key()), tag),
                None => m,
            }
        } else {
            m
        },
        None => m,
    }
}

/// The edge map formed from the first `i` blocks: fallthrough edges, direct
/// jump edges to valid jumpdests, and the two legs of conditional jumps (the
/// fallthrough leg first, so on a collision the taken leg's tag stands).
pub open spec fn spec_edges_after(
    blocks: Seq<InstructionBlock>,
    jd: Seq<bool>,
    i: int,
) -> Map<((u16, u16), (u16, u16)), u8>
    decreases i,
{
    if i <= 0 {
        Map::empty()
    } else {
        let m = spec_edges_after(blocks, jd, i - 1);
        let b = blocks[i - 1];
        let last_op = b.ops@.last().1;
        if last_op == OP_JUMP {
            spec_direct_edge(blocks, jd, m, i - 1, TAG_JUMP)
        } else if last_op == OP_JUMPI {
            let m1 = if i - 1 < blocks.len() - 1 {
                m.insert((b.key(), blocks[i].key()), TAG_CONDITION_FALSE)
            } else {
                m
            };
            spec_direct_edge(blocks, jd, m1, i - 1, TAG_CONDITION_TRUE)
        } else if spec_is_terminal(last_op) {
            m
        } else {
            if i - 1 < blocks.len() - 1 {
                m.insert((b.key(), blocks[i].key()), TAG_JUMP)
            } else {
                m
            }
        }
    }
}

/// The classification of the most recent conditional-jump edge formed among
/// the first `i` blocks.
pub open spec fn spec_jumpi_after(blocks: Seq<InstructionBlock>, jd: Seq<bool>, i: int) -> Option<
    u8,
>
    decreases i,
{
    if i <= 0 {
        None
    } else {
        let prev = spec_jumpi_after(blocks, jd, i - 1);
        if blocks[i - 1].ops@.last().1 == OP_JUMPI {
            if spec_took(blocks, jd, i - 1) {
                Some(TAG_CONDITION_TRUE)
            } else if i - 1 < blocks.len() - 1 {
                Some(TAG_CONDITION_FALSE)
            } else {
                prev
            }
        } else {
            prev
        }
    }
}

/// The keys of the first `i` blocks.
pub open spec fn spec_keys_after(blocks: Seq<InstructionBlock>, i: int) -> Set<(u16, u16)>
    decreases i,
{
    if i <= 0 {
        Set::empty()
    } else {
        spec_keys_after(blocks, i - 1).insert(blocks[i - 1].key())
    }
}

/// Every block key is in the key set.
pub proof fn lemma_keys_after_contains(blocks: Seq<InstructionBlock>, n: int, j: int)
    requires
        0 <= j < n <= blocks.len(),
    ensures
        spec_keys_after(blocks, n).contains(blocks[j].key()),
    decreases n,
{
    if j < n - 1 {
        lemma_keys_after_contains(blocks, n - 1, j);
    }
}

/// Add the direct-jump edge of block `i` when its trailing literal is a valid
/// jumpdest beginning a block; report whether an edge was added.
fn direct_edge(
    blocks: &Vec<InstructionBlock>,
    jd: &Vec<bool>,
    g: &mut CfgDag,
    i: usize,
    tag: u8,
) -> (took: bool)
    requires
        i < blocks@.len(),
    ensures
        graph_edge_map(*final(g)) == spec_direct_edge(
            blocks@,
            jd@,
            graph_edge_map(*old(g)),
            i as int,
            tag,
        ),
        took == spec_took(blocks@, jd@, i as int),
        graph_nodes(*old(g)) == spec_keys_after(blocks@, blocks@.len() as int) ==> graph_nodes(
            *final(g),
        ) == graph_nodes(*old(g)),
{
    match blocks[i].stack_info.push_used_for_jump {
        Some(v) => {
            if jd_ok(jd, v) {
                match find_start(blocks, v) {
                    Some(t) => {
                        let key_i = (blocks[i].start_pc, blocks[i].end_pc);
                        let key_t = (blocks[t].start_pc, blocks[t].end_pc);
                        add_edge(g, key_i, key_t, tag);
                        proof {
                            if graph_nodes(*old(g)) == spec_keys_after(
                                blocks@,
                                blocks@.len() as int,
                            ) {
                                lemma_keys_after_contains(
                                    blocks@,
                                    blocks@.len() as int,
                                    i as int,
                                );
                                lemma_keys_after_contains(
                                    blocks@,
                                    blocks@.len() as int,
                                    t as int,
                                );
                                assert(graph_nodes(*g) =~= graph_nodes(*old(g)));
                            }
                        }
                        true
                    },
                    None => false,
                }
            } else {
                false
            }
        },
        None => false,
    }
}

/// Create a graph with one node per block and form the statically
/// determinable edges: fallthrough, direct jumps to valid jumpdests, and the
/// two legs of conditional jumps. Returns the graph and the most recent
/// conditional-jump classification.
pub fn form_basic_connections(blocks: &Vec<InstructionBlock>, jd: &Vec<bool>) -> (r: (
    CfgDag,
    Option<u8>,
))
    requires
        forall|j: int| 0 <= j < blocks@.len() ==> (#[trigger] blocks@[j]).ops@.len() > 0,
    ensures
        graph_nodes(r.0) == spec_keys_after(blocks@, blocks@.len() as int),
        graph_edge_map(r.0) == spec_edges_after(blocks@, jd@, blocks@.len() as int),
        r.1 == spec_jumpi_after(blocks@, jd@, blocks@.len() as int),
{
    let mut g = new_graph();
    let n = blocks.len();
    let mut i: usize = 0;
    while i < n
        invariant
            n == blocks@.len(),
            i <= n,
            graph_nodes(g) == spec_keys_after(blocks@, i as int),
            graph_edge_map(g) =~= Map::<((u16, u16), (u16, u16)), u8>::empty(),
        decreases n - i,
    {
        add_node(&mut g, (blocks[i].start_pc, blocks[i].end_pc));
        i = i + 1;
    }
    proof {
        assert(graph_edge_map(g) =~= spec_edges_after(blocks@, jd@, 0));
    }
    let mut jumpi: Option<u8> = None;
    i = 0;
    while i < n
        invariant
            n == blocks@.len(),
            i <= n,
            forall|j: int| 0 <= j < blocks@.len() ==> (#[trigger] blocks@[j]).ops@.len() > 0,
            graph_nodes(g) == spec_keys_after(blocks@, n as int),
            graph_edge_map(g) == spec_edges_after(blocks@, jd@, i as int),
            jumpi == spec_jumpi_after(blocks@, jd@, i as int),
        decreases n - i,
    {
        let key_i = (blocks[i].start_pc, blocks[i].end_pc);
        let nops = blocks[i].ops.len();
        let last_op = blocks[i].ops[nops - 1].1;
        let ghost nodes0 = graph_nodes(g);
        if last_op == OP_JUMP {
            direct_edge(blocks, jd, &mut g, i, TAG_JUMP);
        } else if last_op == OP_JUMPI {
            if i < n - 1 {
                let nxt = (blocks[i + 1].start_pc, blocks[i + 1].end_pc);
                add_edge(&mut g, key_i, nxt, TAG_CONDITION_FALSE);
                proof {
                    lemma_keys_after_contains(blocks@, n as int, i as int);
                    lemma_keys_after_contains(blocks@, n as int, i + 1);
                    assert(graph_nodes(g) =~= nodes0);
                }
            }
            let took = direct_edge(blocks, jd, &mut g, i, TAG_CONDITION_TRUE);
            if took {
                jumpi = Some(TAG_CONDITION_TRUE);
            } else if i < n - 1 {
                jumpi = Some(TAG_CONDITION_FALSE);
            }
        } else if is_terminal(last_op) {
        } else {
            if i < n - 1 {
                let nxt = (blocks[i + 1].start_pc, blocks[i + 1].end_pc);
                add_edge(&mut g, key_i, nxt, TAG_JUMP);
                proof {
                    lemma_keys_after_contains(blocks@, n as int, i as int);
                    lemma_keys_after_contains(blocks@, n as int, i + 1);
                    assert(graph_nodes(g) =~= nodes0);
                }
            }
        }
        i = i + 1;
    }
    (g, jumpi)
}

/// The blocks that survive pruning, in order.
pub open spec fn spec_kept_blocks(
    m: Map<((u16, u16), (u16, u16)), u8>,
    jd: Seq<bool>,
    blocks: Seq<InstructionBlock>,
) -> Seq<InstructionBlock> {
    blocks.filter(|b: InstructionBlock| spec_kept(m, jd, b))
}

/// A surviving block: the entry block, a valid jump destination (a potential
/// indirect target), or the target of some already-formed edge.
pub open spec fn spec_kept(
    m: Map<((u16, u16), (u16, u16)), u8>,
    jd: Seq<bool>,
    b: InstructionBlock,
) -> bool {
    b.start_pc == 0 || spec_jd_ok(jd, b.start_pc) || exists|a: (u16, u16)|
        m.dom().contains((a, b.key()))
}

/// The key of a block the pass removes.
pub open spec fn spec_unkept_key(
    m: Map<((u16, u16), (u16, u16)), u8>,
    jd: Seq<bool>,
    blocks: Seq<InstructionBlock>,
    n: (u16, u16),
) -> bool {
    exists|j: int|
        0 <= j < blocks.len() && (#[trigger] blocks[j]).key() == n && !spec_kept(m, jd, blocks[j])
}

/// The key of one of the first `c` blocks that the pass removes.
pub open spec fn spec_unkept_key_upto(
    m: Map<((u16, u16), (u16, u16)), u8>,
    jd: Seq<bool>,
    blocks: Seq<InstructionBlock>,
    c: int,
    n: (u16, u16),
) -> bool {
    exists|j: int|
        0 <= j < c && (#[trigger] blocks[j]).key() == n && !spec_kept(m, jd, blocks[j])
}

/// Remove from the graph and the block list every block that, judged against
/// the freshly formed edges, has no incoming edge, is not the entry block,
/// and is not a valid jump destination. One pass, not iterated: exactly the
/// nodes of removed blocks leave the graph, and every edge between two
/// surviving nodes survives with its tag.
pub fn remove_unreachable_instruction_blocks(
    blocks: Vec<InstructionBlock>,
    jd: &Vec<bool>,
    g0: CfgDag,
) -> (r: (Vec<InstructionBlock>, CfgDag))
    requires
        forall|a: int, b: int|
            0 <= a < b < blocks@.len() ==> (#[trigger] blocks@[a]).key() != (
            #[trigger] blocks@[b]).key(),
    ensures
        r.0@ == spec_kept_blocks(graph_edge_map(g0), jd@, blocks@),
        forall|k: ((u16, u16), (u16, u16))|
            #[trigger] graph_edge_map(r.1).dom().contains(k) ==> graph_edge_map(g0).dom().contains(
                k,
            ) && graph_edge_map(r.1)[k] == graph_edge_map(g0)[k],
        forall|k: ((u16, u16), (u16, u16))|
            graph_edge_map(g0).dom().contains(k) && !spec_unkept_key(
                graph_edge_map(g0),
                jd@,
                blocks@,
                k.0,
            ) && !spec_unkept_key(graph_edge_map(g0), jd@, blocks@, k.1)
                ==> #[trigger] graph_edge_map(r.1).dom().contains(k),
        forall|k: ((u16, u16), (u16, u16))|
            #[trigger] graph_edge_map(r.1).dom().contains(k) ==> !spec_unkept_key(
                graph_edge_map(g0),
                jd@,
                blocks@,
                k.0,
            ) && !spec_unkept_key(graph_edge_map(g0), jd@, blocks@, k.1),
        forall|k: (u16, u16)|
            #[trigger] graph_nodes(r.1).contains(k) <==> (graph_nodes(g0).contains(k)
                && !spec_unkept_key(graph_edge_map(g0), jd@, blocks@, k)),
{
    let ghost m0 = graph_edge_map(g0);
    let ghost nodes0 = graph_nodes(g0);
    let mut g = g0;
    let n = blocks.len();
    // first pass: decide, against the pre-pass graph, which blocks survive
    let mut keep: Vec<bool> = Vec::new();
    let mut i: usize = 0;
    while i < n
        invariant
            n == blocks@.len(),
            i <= n,
            graph_edge_map(g) == m0,
            keep@.len() == i,
            forall|j: int| 0 <= j < i ==> keep@[j] == spec_kept(m0, jd@, blocks@[j]),
        decreases n - i,
    {
        let b_start = blocks[i].start_pc;
        let key_i = (blocks[i].start_pc, blocks[i].end_pc);
        let incoming = incoming_edges_vec(&g, key_i);
        let kept = b_start == 0 || jd_ok(jd, b_start) || incoming.len() > 0;
        proof {
            let b = blocks@[i as int];
            assert(b.key() == key_i);
            if incoming@.len() > 0 {
                assert(m0.dom().contains((incoming@[0].0, key_i)));
                assert(spec_kept(m0, jd@, b));
            }
            if exists|a: (u16, u16)| m0.dom().contains((a, key_i)) {
                let a = choose|a: (u16, u16)| m0.dom().contains((a, key_i));
                assert(exists|t: int| 0 <= t < incoming@.len() && (#[trigger] incoming@[t]).0
                    == a);
                assert(incoming@.len() > 0);
            }
            assert(kept == spec_kept(m0, jd@, b));
        }
        keep.push(kept);
        i = i + 1;
    }
    // second pass: drop the others from graph and list
    let ghost all = blocks@;
    let mut blocks_in = blocks;
    let mut out: Vec<InstructionBlock> = Vec::new();
    let mut c: usize = 0;
    proof {
        assert(spec_kept_blocks(m0, jd@, all.take(0)) =~= Seq::<InstructionBlock>::empty()) by {
            reveal(Seq::filter);
        };
    }
    proof {
        assert forall|k: (u16, u16)| !spec_unkept_key_upto(m0, jd@, all, 0, k) by {};
    }
    while c < n
        invariant
            n == all.len(),
            c <= n,
            blocks_in@ =~= all.skip(c as int),
            keep@.len() == n,
            forall|j: int| 0 <= j < n ==> keep@[j] == spec_kept(m0, jd@, all[j]),
            out@ == spec_kept_blocks(m0, jd@, all.take(c as int)),
            forall|k: ((u16, u16), (u16, u16))|
                #[trigger] graph_edge_map(g).dom().contains(k) ==> m0.dom().contains(k)
                    && graph_edge_map(g)[k] == m0[k],
            forall|k: ((u16, u16), (u16, u16))|
                m0.dom().contains(k) && !spec_unkept_key_upto(m0, jd@, all, c as int, k.0)
                    && !spec_unkept_key_upto(m0, jd@, all, c as int, k.1)
                    ==> #[trigger] graph_edge_map(g).dom().contains(k),
            forall|k: ((u16, u16), (u16, u16))|
                #[trigger] graph_edge_map(g).dom().contains(k) ==> !spec_unkept_key_upto(
                    m0,
                    jd@,
                    all,
                    c as int,
                    k.0,
                ) && !spec_unkept_key_upto(m0, jd@, all, c as int, k.1),
            forall|k: (u16, u16)|
                #[trigger] graph_nodes(g).contains(k) <==> (nodes0.contains(k)
                    && !spec_unkept_key_upto(m0, jd@, all, c as int, k)),
        decreases n - c,
    {
        let b = blocks_in.remove(0);
        proof {
            assert(b == all[c as int]);
            assert(blocks_in@ =~= all.skip(c + 1));
            assert(all.take(c + 1).drop_last() =~= all.take(c as int));
            reveal(Seq::filter);
        }
        if keep[c] {
            out.push(b);
            proof {
                assert(out@ =~= spec_kept_blocks(m0, jd@, all.take(c + 1)));
                // a kept block contributes no removed key
                assert forall|k: (u16, u16)|
                    spec_unkept_key_upto(m0, jd@, all, c + 1, k) implies spec_unkept_key_upto(
                    m0,
                    jd@,
                    all,
                    c as int,
                    k,
                ) by {
                    let j = choose|j: int|
                        0 <= j < c + 1 && (#[trigger] all[j]).key() == k && !spec_kept(
                            m0,
                            jd@,
                            all[j],
                        );
                    assert(j < c);
                };
            }
        } else {
            let ghost mprev = graph_edge_map(g);
            let key_b = (b.start_pc, b.end_pc);
            remove_node(&mut g, key_b);
            proof {
                assert(out@ =~= spec_kept_blocks(m0, jd@, all.take(c + 1)));
                assert(all[c as int].key() == key_b && !spec_kept(m0, jd@, all[c as int]));
                // the removed keys after this step are those before it plus key_b
                assert forall|k: (u16, u16)|
                    spec_unkept_key_upto(m0, jd@, all, c + 1, k) == (spec_unkept_key_upto(
                    m0,
                    jd@,
                    all,
                    c as int,
                    k,
                ) || k == key_b) by {
                    if spec_unkept_key_upto(m0, jd@, all, c + 1, k) {
                        let j = choose|j: int|
                            0 <= j < c + 1 && (#[trigger] all[j]).key() == k && !spec_kept(
                                m0,
                                jd@,
                                all[j],
                            );
                        if j == c {
                            assert(k == key_b);
                        }
                    }
                    if spec_unkept_key_upto(m0, jd@, all, c as int, k) {
                        assert(spec_unkept_key_upto(m0, jd@, all, c + 1, k));
                    }
                    if k == key_b {
                        assert(0 <= c < c + 1 && all[c as int].key() == k && !spec_kept(
                            m0,
                            jd@,
                            all[c as int],
                        ));
                        assert(spec_unkept_key_upto(m0, jd@, all, c + 1, k));
                    }
                };
                assert forall|k: ((u16, u16), (u16, u16))|
                    graph_edge_map(g).dom().contains(k) implies m0.dom().contains(k)
                    && graph_edge_map(g)[k] == m0[k] by {
                    assert(mprev.dom().contains(k));
                    assert(graph_edge_map(g)[k] == mprev[k]);
                };
                assert forall|k: ((u16, u16), (u16, u16))|
                    m0.dom().contains(k) && !spec_unkept_key_upto(m0, jd@, all, c + 1, k.0)
                        && !spec_unkept_key_upto(m0, jd@, all, c + 1, k.1) implies #[trigger]
                    graph_edge_map(g).dom().contains(k) by {
                    assert(mprev.dom().contains(k));
                };
            }
        }
        c = c + 1;
    }
    proof {
        assert(all.take(n as int) =~= all);
        assert(spec_kept_blocks(m0, jd@, all.take(n as int)) == spec_kept_blocks(m0, jd@, all));
        assert forall|k: (u16, u16)|
            spec_unkept_key_upto(m0, jd@, all, n as int, k) == spec_unkept_key(m0, jd@, all, k) by {};
    }
    (out, g)
}

/// A pair of conditional edges out of one node targets two distinct nodes:
/// the graph stores at most one edge per ordered node pair, so the taken and
/// fallthrough legs can both be present only with distinct targets.
pub proof fn lemma_condition_edges_distinct(
    m: Map<((u16, u16), (u16, u16)), u8>,
    a: (u16, u16),
    t: (u16, u16),
    f: (u16, u16),
)
    requires
        m.dom().contains((a, t)),
        m.dom().contains((a, f)),
        m[(a, t)] == TAG_CONDITION_TRUE,
        m[(a, f)] == TAG_CONDITION_FALSE,
    ensures
        t != f,
{
}

/// When the branch target of a conditional jump is unresolved or invalid,
/// only the fallthrough leg is formed: the edge map after basic connections
/// holds no taken leg out of that block.
pub proof fn lemma_jumpi_without_target(
    blocks: Seq<InstructionBlock>,
    jd: Seq<bool>,
    i: int,
    b: (u16, u16),
)
    requires
        0 <= i < blocks.len(),
        blocks[i].ops@.last().1 == OP_JUMPI,
        !spec_took(blocks, jd, i),
        forall|j: int, k: int|
            0 <= j < k < blocks.len() ==> (#[trigger] blocks[j]).key() != (
            #[trigger] blocks[k]).key(),
    ensures
        spec_edges_after(blocks, jd, blocks.len() as int).dom().contains((blocks[i].key(), b))
            ==> spec_edges_after(blocks, jd, blocks.len() as int)[(blocks[i].key(), b)]
            != TAG_CONDITION_TRUE,
{
    let m = spec_edges_after(blocks, jd, blocks.len() as int);
    if m.dom().contains((blocks[i].key(), b)) && m[(blocks[i].key(), b)] == TAG_CONDITION_TRUE {
        lemma_edges_sources(blocks, jd, blocks.len() as int, (blocks[i].key(), b));
    }
}

/// Every edge in the basic map leaves the block that created it, with the tag
/// its rule gives: a taken-leg tag appears only when the source block ends in
/// a conditional jump with a resolvable target.
proof fn lemma_edges_sources(
    blocks: Seq<InstructionBlock>,
    jd: Seq<bool>,
    n: int,
    k: ((u16, u16), (u16, u16)),
)
    requires
        0 <= n <= blocks.len(),
        forall|j: int, t: int|
            0 <= j < t < blocks.len() ==> (#[trigger] blocks[j]).key() != (
            #[trigger] blocks[t]).key(),
        spec_edges_after(blocks, jd, n).dom().contains(k),
        spec_edges_after(blocks, jd, n)[k] == TAG_CONDITION_TRUE,
    ensures
        exists|i: int|
            0 <= i < n && (#[trigger] blocks[i]).key() == k.0 && blocks[i].ops@.last().1
                == OP_JUMPI && spec_took(blocks, jd, i),
    decreases n,
{
    if n > 0 {
        let m = spec_edges_after(blocks, jd, n - 1);
        let b = blocks[n - 1];
        let last_op = b.ops@.last().1;
        if last_op == OP_JUMPI {
            let m1 = if n - 1 < blocks.len() - 1 {
                m.insert((b.key(), blocks[n].key()), TAG_CONDITION_FALSE)
            } else {
                m
            };
            if spec_took(blocks, jd, n - 1) {
                let v = blocks[n - 1].stack_info.push_used_for_jump.unwrap();
                let t = spec_find_start(blocks, v, 0).unwrap();
                if k == ((b.key(), blocks[t].key())) {
                    assert(blocks[n - 1].key() == k.0);
                } else if m1.dom().contains(k) && m1[k] == TAG_CONDITION_TRUE {
                    if n - 1 < blocks.len() - 1 && k == ((b.key(), blocks[n].key())) {
                    } else {
                        lemma_edges_sources(blocks, jd, n - 1, k);
                    }
                }
            } else {
                if n - 1 < blocks.len() - 1 && k == ((b.key(), blocks[n].key())) {
                } else {
                    lemma_edges_sources(blocks, jd, n - 1, k);
                }
            }
        } else if last_op == OP_JUMP {
            if spec_took(blocks, jd, n - 1) {
                let v = blocks[n - 1].stack_info.push_used_for_jump.unwrap();
                let t = spec_find_start(blocks, v, 0).unwrap();
                if k == ((b.key(), blocks[t].key())) {
                } else {
                    lemma_edges_sources(blocks, jd, n - 1, k);
                }
            } else {
                lemma_edges_sources(blocks, jd, n - 1, k);
            }
        } else if spec_is_terminal(last_op) {
            lemma_edges_sources(blocks, jd, n - 1, k);
        } else {
            if n - 1 < blocks.len() - 1 && k == ((b.key(), blocks[n].key())) {
            } else {
                lemma_edges_sources(blocks, jd, n - 1, k);
            }
        }
    }
}

} // verus!
