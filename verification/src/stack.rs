//! Per-block abstract stack-effect analysis: each block is simulated once
//! against a stack of symbolic slots, independent of any concrete entry
//! state, yielding its `StackInfo` summary.

use crate::block::StackInfo;
use crate::disasm::spec_pushes;
use crate::opcode::{
    arity, is_push, spec_arity, spec_is_push, OP_JUMP, OP_JUMPI,
};
use vstd::prelude::*;

verus! {

/// One abstract stack slot during simulation.
#[derive(Clone, Copy, PartialEq, Eq, Structural, Debug)]
pub enum Slot {
    /// The value the caller had at this entry position (0 = entry top).
    Entry(usize),
    /// A literal pushed inside the block that fits a program counter,
    /// together with the index of its push in the block's push list.
    Known(u16, usize),
    /// Any other value produced inside the block.
    Opaque,
}

/// The simulation state: the explicit slot stack (top is the last element)
/// and how many entry slots have been materialized into it.
pub ghost struct SimState {
    pub stack: Seq<Slot>,
    pub consumed: int,
}

/// Pack a stack and consumed-count into a state.
pub open spec fn sim_of(stack: Seq<Slot>, consumed: int) -> SimState {
    SimState { stack, consumed }
}

pub open spec fn spec_sim_init() -> SimState {
    SimState { stack: Seq::empty(), consumed: 0 }
}

/// Materialize entry slots at the bottom of the stack until it holds at
/// least `need` slots. Deeper slots get higher entry indices.
pub open spec fn spec_materialize(s: SimState, need: int) -> SimState
    decreases need - s.stack.len(),
{
    if s.stack.len() >= need {
        s
    } else {
        spec_materialize(
            SimState {
                stack: seq![Slot::Entry(s.consumed as usize)] + s.stack,
                consumed: s.consumed + 1,
            },
            need,
        )
    }
}

/// The value of a push immediate if it fits 16 bits (all bytes but the last
/// two are zero), as a potential jump target.
pub open spec fn spec_push_val16(imm: Seq<u8>) -> Option<u16> {
    if forall|t: int| 0 <= t < imm.len() - 2 ==> imm[t] == 0 {
        if imm.len() == 0 {
            Some(0u16)
        } else if imm.len() == 1 {
            Some(imm[imm.len() - 1] as u16)
        } else {
            Some((imm[imm.len() - 2] * 256 + imm[imm.len() - 1]) as u16)
        }
    } else {
        None
    }
}

/// The slot a push instruction produces.
pub open spec fn spec_push_slot(imm: Option<Vec<u8>>, pidx: usize) -> Slot {
    match imm {
        Some(v) => match spec_push_val16(v@) {
            Some(x) => Slot::Known(x, pidx),
            None => Slot::Opaque,
        },
        None => Slot::Opaque,
    }
}

/// Effect of one instruction on the simulation state. `pidx` is the number of
/// pushes that precede the instruction in the block.
pub open spec fn spec_step(s: SimState, o: (u16, u8, Option<Vec<u8>>), pidx: usize) -> SimState {
    let op = o.1;
    if spec_is_push(op) {
        SimState { stack: s.stack.push(spec_push_slot(o.2, pidx)), consumed: s.consumed }
    } else if 0x80 <= op <= 0x8f {
        // DUP n: copy the slot at depth n - 1 to the top
        let n = (op - 0x7f) as int;
        let s2 = spec_materialize(s, n);
        let l = s2.stack.len() as int;
        SimState { stack: s2.stack.push(s2.stack[l - n]), consumed: s2.consumed }
    } else if 0x90 <= op <= 0x9f {
        // SWAP n: exchange the top with the slot at depth n
        let n = (op - 0x8f) as int;
        let s2 = spec_materialize(s, n + 1);
        let l = s2.stack.len() as int;
        SimState {
            stack: s2.stack.update(l - 1, s2.stack[l - 1 - n]).update(l - 1 - n, s2.stack[l - 1]),
            consumed: s2.consumed,
        }
    } else {
        match spec_arity(op) {
            Some(pq) => {
                let s2 = spec_materialize(s, pq.0 as int);
                let l = s2.stack.len() as int;
                SimState {
                    stack: s2.stack.take(l - pq.0) + Seq::new(pq.1, |t: int| Slot::Opaque),
                    consumed: s2.consumed,
                }
            },
            None => s,
        }
    }
}

/// The simulation state after the first `i` instructions of the block.
pub open spec fn spec_sim(ops: Seq<(u16, u8, Option<Vec<u8>>)>, i: int) -> SimState
    decreases i,
{
    if i <= 0 {
        spec_sim_init()
    } else {
        spec_step(spec_sim(ops, i - 1), ops[i - 1], spec_pushes(ops.take(i - 1)).len() as usize)
    }
}

pub open spec fn spec_sim_final(ops: Seq<(u16, u8, Option<Vec<u8>>)>) -> SimState {
    spec_sim(ops, ops.len() as int)
}

/// The minimum number of entry slots the block requires: how many it
/// materializes over its whole run.
pub open spec fn spec_min_required(ops: Seq<(u16, u8, Option<Vec<u8>>)>) -> int {
    spec_sim_final(ops).consumed
}

/// Net stack height change from entry to exit.
pub open spec fn spec_delta(ops: Seq<(u16, u8, Option<Vec<u8>>)>) -> int {
    spec_sim_final(ops).stack.len() - spec_sim_final(ops).consumed
}

/// The slot the terminal jump of the block reads, if the block ends in a
/// jump.
pub open spec fn spec_target_slot(ops: Seq<(u16, u8, Option<Vec<u8>>)>) -> Option<Slot> {
    if ops.len() > 0 && (ops.last().1 == OP_JUMP || ops.last().1 == OP_JUMPI) {
        let s = spec_materialize(spec_sim(ops, ops.len() - 1), 1);
        Some(s.stack.last())
    } else {
        None
    }
}

/// The literal value feeding the terminal jump, when there is one.
pub open spec fn spec_push_used_for_jump(ops: Seq<(u16, u8, Option<Vec<u8>>)>) -> Option<u16> {
    match spec_target_slot(ops) {
        Some(Slot::Known(v, idx)) => Some(v),
        _ => None,
    }
}

/// The entry position feeding the terminal jump, when the jump reads an entry
/// slot.
pub open spec fn spec_indirect_jump(ops: Seq<(u16, u8, Option<Vec<u8>>)>) -> Option<usize> {
    match spec_target_slot(ops) {
        Some(Slot::Entry(p)) => Some(p),
        _ => None,
    }
}

/// The exit positions (0 = exit top) occupied by entry slot `p` in the final
/// stack, scanning from the bottom.
pub open spec fn spec_exit_positions(stack: Seq<Slot>, p: usize, i: int) -> Seq<usize>
    decreases stack.len() - i,
{
    if i < 0 || i >= stack.len() {
        Seq::empty()
    } else {
        let rest = spec_exit_positions(stack, p, i + 1);
        if stack[i] == Slot::Entry(p) {
            seq![(stack.len() - 1 - i) as usize] + rest
        } else {
            rest
        }
    }
}

/// The pushed 16-bit values surviving to exit: `(exit position, value, push
/// index)`, scanning the final stack from the bottom.
pub open spec fn spec_push_exits(stack: Seq<Slot>, i: int) -> Seq<(usize, u16, usize)>
    decreases stack.len() - i,
{
    if i < 0 || i >= stack.len() {
        Seq::empty()
    } else {
        let rest = spec_push_exits(stack, i + 1);
        match stack[i] {
            Slot::Known(v, idx) => seq![((stack.len() - 1 - i) as usize, v, idx)] + rest,
            _ => rest,
        }
    }
}

/// The usage table as mathematical sequences.
pub open spec fn usage_view(u: Seq<Vec<(u16, u8, usize)>>) -> Seq<Seq<(u16, u8, usize)>> {
    u.map_values(|v: Vec<(u16, u8, usize)>| v@)
}

/// Extend the usage table with empty rows for newly materialized entry slots.
pub open spec fn spec_upad(u: Seq<Seq<(u16, u8, usize)>>, c: int) -> Seq<Seq<(u16, u8, usize)>> {
    u + Seq::new(if c >= u.len() { (c - u.len()) as nat } else { 0 }, |x: int| Seq::empty())
}

/// Record that instruction `(pc, op)` read `slot` as its `pos`-th operand.
pub open spec fn spec_urecord(
    u: Seq<Seq<(u16, u8, usize)>>,
    slot: Slot,
    pc: u16,
    op: u8,
    pos: usize,
) -> Seq<Seq<(u16, u8, usize)>> {
    match slot {
        Slot::Entry(p) => if p < u.len() {
            u.update(p as int, u[p as int].push((pc, op, pos)))
        } else {
            u
        },
        _ => u,
    }
}

/// Record the `p` slots an instruction pops, top first.
pub open spec fn spec_urecord_pops(
    u: Seq<Seq<(u16, u8, usize)>>,
    stack: Seq<Slot>,
    kk: int,
    pc: u16,
    op: u8,
) -> Seq<Seq<(u16, u8, usize)>>
    decreases kk,
{
    if kk <= 0 {
        u
    } else {
        spec_urecord(
            spec_urecord_pops(u, stack, kk - 1, pc, op),
            stack[stack.len() - kk],
            pc,
            op,
            (kk - 1) as usize,
        )
    }
}

/// The usage the instruction adds, given the state before it.
pub open spec fn spec_ustep(
    s: SimState,
    u: Seq<Seq<(u16, u8, usize)>>,
    o: (u16, u8, Option<Vec<u8>>),
) -> Seq<Seq<(u16, u8, usize)>> {
    let op = o.1;
    if spec_is_push(op) {
        u
    } else if 0x80 <= op <= 0x8f {
        let n = (op - 0x7f) as int;
        let s2 = spec_materialize(s, n);
        let l = s2.stack.len() as int;
        spec_urecord(spec_upad(u, s2.consumed), s2.stack[l - n], o.0, op, (n - 1) as usize)
    } else if 0x90 <= op <= 0x9f {
        let n = (op - 0x8f) as int;
        let s2 = spec_materialize(s, n + 1);
        let l = s2.stack.len() as int;
        spec_urecord(
            spec_urecord(spec_upad(u, s2.consumed), s2.stack[l - 1], o.0, op, 0),
            s2.stack[l - 1 - n],
            o.0,
            op,
            n as usize,
        )
    } else {
        match spec_arity(op) {
            Some(pq) => {
                let s2 = spec_materialize(s, pq.0 as int);
                spec_urecord_pops(spec_upad(u, s2.consumed), s2.stack, pq.0 as int, o.0, op)
            },
            None => u,
        }
    }
}

/// The usage table after the first `i` instructions.
pub open spec fn spec_usage(ops: Seq<(u16, u8, Option<Vec<u8>>)>, i: int) -> Seq<
    Seq<(u16, u8, usize)>,
>
    decreases i,
{
    if i <= 0 {
        Seq::empty()
    } else {
        spec_ustep(spec_sim(ops, i - 1), spec_usage(ops, i - 1), ops[i - 1])
    }
}

/// Replace the element of `v` at `i`.
fn vec_update(v: &mut Vec<Slot>, i: usize, x: Slot)
    requires
        i < old(v)@.len(),
    ensures
        final(v)@ == old(v)@.update(i as int, x),
{
    v.remove(i);
    v.insert(i, x);
    proof {
        assert(v@ =~= old(v)@.update(i as int, x));
    }
}

/// Compute the stack-effect summary of one block from its instructions alone.
///
/// Every field is pinned exactly to the abstract simulation: heights and the
/// terminal-jump slot to `spec_sim`, the exit tables to the final stack, and
/// the op-usage table (which instructions read which entry slot, and as which
/// operand) to `spec_usage`.
#[verifier::rlimit(100)]
pub fn analyze_stack_info(ops: &Vec<(u16, u8, Option<Vec<u8>>)>) -> (r: StackInfo)
    requires
        ops@.len() <= 0xFFFF,
    ensures
        r.min_stack_size_required_for_entry == spec_min_required(ops@),
        r.stack_size_delta == spec_delta(ops@),
        r.push_used_for_jump == spec_push_used_for_jump(ops@),
        r.stack_entry_pos_to_stack_exit_pos@.len() == spec_min_required(ops@),
        forall|p: int|
            0 <= p < spec_min_required(ops@) ==> (#[trigger] r.stack_entry_pos_to_stack_exit_pos@[p])@
                == spec_exit_positions(spec_sim_final(ops@).stack, p as usize, 0),
        r.push_exit_vals@ == spec_push_exits(spec_sim_final(ops@).stack, 0),
        r.stack_entry_pos_to_op_usage@.len() == spec_min_required(ops@),
        usage_view(r.stack_entry_pos_to_op_usage@) == spec_usage(ops@, ops@.len() as int),
{
    let n = ops.len();
    let mut stack: Vec<Slot> = Vec::new();
    let mut consumed: usize = 0;
    let mut usage: Vec<Vec<(u16, u8, usize)>> = Vec::new();
    let mut pidx: usize = 0;
    let mut i: usize = 0;
    while i < n
        invariant
            n == ops@.len(),
            n <= 0xFFFF,
            i <= n,
            stack@ == spec_sim(ops@, i as int).stack,
            consumed == spec_sim(ops@, i as int).consumed,
            consumed <= 17 * i,
            stack@.len() <= 34 * i,
            usage@.len() == consumed,
            usage_view(usage@) == spec_usage(ops@, i as int),
            pidx == spec_pushes(ops@.take(i as int)).len(),
        decreases n - i,
    {
        let pc_here = ops[i].0;
        let op = ops[i].1;
        let ghost pre = SimState { stack: stack@, consumed: consumed as int };
        let ghost upre = usage_view(usage@);
        proof {
            assert(ops@.take(i + 1).drop_last() =~= ops@.take(i as int));
            crate::disasm::lemma_pushes_snoc(ops@.take(i as int), ops@[i as int]);
            assert(ops@.take(i + 1) =~= ops@.take(i as int).push(ops@[i as int]));
            assert(spec_sim(ops@, i + 1) == spec_step(pre, ops@[i as int], pidx));
            assert(spec_usage(ops@, i + 1) == spec_ustep(pre, upre, ops@[i as int]));
        }
        if is_push(op) {
            let slot = push_slot(&ops[i].2, pidx);
            stack.push(slot);
            pidx = pidx + 1;
        } else if 0x80 <= op && op <= 0x8f {
            let nd = (op - 0x7f) as usize;
            materialize(&mut stack, &mut consumed, &mut usage, nd, i);
            let read = stack[stack.len() - nd];
            record_usage(&mut usage, &read, pc_here, op, nd - 1);
            proof {
                assert(usage_view(usage@) == spec_ustep(pre, upre, ops@[i as int]));
            }
            stack.push(read);
        } else if 0x90 <= op && op <= 0x9f {
            let nd = (op - 0x8f) as usize;
            materialize(&mut stack, &mut consumed, &mut usage, nd + 1, i);
            let l = stack.len();
            let a = stack[l - 1];
            let b = stack[l - 1 - nd];
            record_usage(&mut usage, &a, pc_here, op, 0);
            record_usage(&mut usage, &b, pc_here, op, nd);
            proof {
                assert(usage_view(usage@) == spec_ustep(pre, upre, ops@[i as int]));
            }
            vec_update(&mut stack, l - 1, b);
            vec_update(&mut stack, l - 1 - nd, a);
        } else {
            match arity(op) {
                Some(pq) => {
                    materialize(&mut stack, &mut consumed, &mut usage, pq.0, i);
                    let ghost s2 = SimState { stack: stack@, consumed: consumed as int };
                    let ghost upad = usage_view(usage@);
                    let mut k: usize = 0;
                    while k < pq.0
                        invariant
                            k <= pq.0,
                            pq.0 <= 17,
                            stack@ == s2.stack.take(s2.stack.len() - k),
                            s2.stack.len() >= pq.0,
                            usage@.len() == consumed,
                            op == ops@[i as int].1,
                            pc_here == ops@[i as int].0,
                            i < ops@.len(),
                            usage_view(usage@) == spec_urecord_pops(
                                upad,
                                s2.stack,
                                k as int,
                                pc_here,
                                op,
                            ),
                        decreases pq.0 - k,
                    {
                        let top = stack[stack.len() - 1];
                        record_usage(&mut usage, &top, pc_here, op, k);
                        stack.pop();
                        proof {
                            assert(stack@ =~= s2.stack.take(s2.stack.len() - (k + 1)));
                            assert(top == s2.stack[s2.stack.len() - (k + 1)]);
                        }
                        k = k + 1;
                    }
                    proof {
                        assert(usage_view(usage@) == spec_ustep(pre, upre, ops@[i as int]));
                    }
                    let mut q: usize = 0;
                    while q < pq.1
                        invariant
                            q <= pq.1,
                            pq.1 <= 17,
                            stack@ == s2.stack.take(s2.stack.len() - pq.0) + Seq::new(
                                q as nat,
                                |t: int| Slot::Opaque,
                            ),
                            usage@.len() == consumed,
                            usage_view(usage@) == spec_usage(ops@, i + 1),
                        decreases pq.1 - q,
                    {
                        stack.push(Slot::Opaque);
                        proof {
                            assert(stack@ =~= s2.stack.take(s2.stack.len() - pq.0) + Seq::new(
                                (q + 1) as nat,
                                |t: int| Slot::Opaque,
                            ));
                        }
                        q = q + 1;
                    }
                },
                None => {},
            }
        }
        i = i + 1;
    }
    // the slot read by a terminal jump
    let mut push_used: Option<u16> = None;
    let mut indirect: Option<usize> = None;
    if n > 0 {
        let last_op = ops[n - 1].1;
        if last_op == OP_JUMP || last_op == OP_JUMPI {
            // re-simulate without the terminal instruction to look at its operand
            let ts = target_slot(ops);
            match ts {
                Slot::Known(v, _) => {
                    push_used = Some(v);
                },
                Slot::Entry(p) => {
                    indirect = Some(p);
                },
                Slot::Opaque => {},
            }
            proof {
                assert(spec_target_slot(ops@) == Some(ts));
            }
        }
    }
    // build the exit-position table
    let ghost fstack = spec_sim_final(ops@).stack;
    let mut exit_map: Vec<Vec<usize>> = Vec::new();
    let mut p: usize = 0;
    while p < consumed
        invariant
            consumed == spec_min_required(ops@),
            stack@ == fstack,
            exit_map@.len() == p,
            p <= consumed,
            forall|t: int|
                0 <= t < p ==> (#[trigger] exit_map@[t])@ == spec_exit_positions(
                    fstack,
                    t as usize,
                    0,
                ),
        decreases consumed - p,
    {
        let positions = exit_positions_of(&stack, p);
        exit_map.push(positions);
        p = p + 1;
    }
    // pushed values surviving to exit
    let push_exit_vals = push_exits_of(&stack);
    let delta = stack.len() as i32 - consumed as i32;
    StackInfo {
        min_stack_size_required_for_entry: consumed,
        stack_entry_pos_to_op_usage: usage,
        stack_entry_pos_to_stack_exit_pos: exit_map,
        stack_size_delta: delta,
        push_used_for_jump: push_used,
        push_exit_vals,
    }
}

/// The slot produced by a push with the given immediate.
fn push_slot(imm: &Option<Vec<u8>>, pidx: usize) -> (r: Slot)
    ensures
        r == spec_push_slot(*imm, pidx),
{
    match imm {
        Some(v) => {
            let l = v.len();
            let mut all_zero = true;
            let mut t: usize = 0;
            while l >= 3 && t < l - 2
                invariant
                    l == v@.len(),
                    t <= l,
                    l < 3 ==> t == 0,
                    l >= 3 ==> t <= l - 2,
                    all_zero == (forall|u: int| 0 <= u < t ==> v@[u] == 0),
                decreases l - t,
            {
                if v[t] != 0 {
                    all_zero = false;
                }
                t = t + 1;
            }
            if all_zero {
                if l == 0 {
                    Slot::Known(0, pidx)
                } else if l == 1 {
                    Slot::Known(v[0] as u16, pidx)
                } else {
                    Slot::Known((v[l - 2] as u16) * 256 + (v[l - 1] as u16), pidx)
                }
            } else {
                Slot::Opaque
            }
        },
        None => Slot::Opaque,
    }
}

/// Materialize entry slots at the bottom of the stack until it is at least
/// `need` deep, keeping the usage table dense.
fn materialize(
    stack: &mut Vec<Slot>,
    consumed: &mut usize,
    usage: &mut Vec<Vec<(u16, u8, usize)>>,
    need: usize,
    i: usize,
)
    requires
        need <= 17,
        old(stack)@.len() <= 34 * i,
        *old(consumed) <= 17 * i,
        i <= 0xFFFF,
        old(usage)@.len() == *old(consumed),
    ensures
        sim_of(final(stack)@, *final(consumed) as int) == spec_materialize(
            sim_of(old(stack)@, *old(consumed) as int),
            need as int,
        ),
        final(stack)@.len() <= 34 * i + 17,
        *final(consumed) <= 17 * i + 17,
        final(stack)@.len() >= need,
        final(usage)@.len() == *final(consumed),
        *final(consumed) >= *old(consumed),
        usage_view(final(usage)@) == spec_upad(usage_view(old(usage)@), *final(consumed) as int),
{
    let ghost orig = SimState { stack: old(stack)@, consumed: *old(consumed) as int };
    let ghost uv0 = usage_view(old(usage)@);
    proof {
        assert(spec_upad(uv0, *consumed as int) =~~= uv0);
    }
    while stack.len() < need
        invariant
            need <= 17,
            orig.consumed <= 17 * i,
            orig.stack.len() >= 0,
            stack@.len() <= 34 * i + 17,
            *consumed <= 17 * i + 17,
            i <= 0xFFFF,
            usage@.len() == *consumed,
            *consumed >= orig.consumed,
            uv0.len() == orig.consumed,
            usage_view(usage@) == spec_upad(uv0, *consumed as int),
            spec_materialize(sim_of(stack@, *consumed as int), need as int)
                == spec_materialize(orig, need as int),
            (*consumed as int) - stack@.len() <= orig.consumed - orig.stack.len(),
        decreases need - stack@.len(),
    {
        let ghost before = SimState { stack: stack@, consumed: *consumed as int };
        let ghost ubefore = usage_view(usage@);
        stack.insert(0, Slot::Entry(*consumed));
        usage.push(Vec::new());
        *consumed = *consumed + 1;
        proof {
            assert(stack@ =~= seq![Slot::Entry(before.consumed as usize)] + before.stack);
            assert(usage_view(usage@).len() == ubefore.len() + 1);
            assert(usage_view(usage@)[ubefore.len() as int] =~= Seq::<(u16, u8, usize)>::empty());
            assert(ubefore.len() == before.consumed);
            assert(usage_view(usage@).len() == spec_upad(uv0, *consumed as int).len());
            assert forall|j: int|
                0 <= j < usage_view(usage@).len() implies usage_view(usage@)[j] == spec_upad(
                uv0,
                *consumed as int,
            )[j] by {
                if j < ubefore.len() {
                    assert(usage_view(usage@)[j] == ubefore[j]);
                    assert(ubefore[j] == spec_upad(uv0, before.consumed)[j]);
                    if j < uv0.len() {
                        assert(spec_upad(uv0, before.consumed)[j] == uv0[j]);
                        assert(spec_upad(uv0, *consumed as int)[j] == uv0[j]);
                    } else {
                        assert(spec_upad(uv0, before.consumed)[j] =~= Seq::<(
                            u16,
                            u8,
                            usize,
                        )>::empty());
                        assert(spec_upad(uv0, *consumed as int)[j] =~= Seq::<(
                            u16,
                            u8,
                            usize,
                        )>::empty());
                    }
                } else {
                    assert(spec_upad(uv0, *consumed as int)[j] =~= Seq::<(
                        u16,
                        u8,
                        usize,
                    )>::empty());
                }
            };
            assert(usage_view(usage@) =~= spec_upad(uv0, *consumed as int));
        }
    }
}

/// Record that instruction `(pc, op)` read `slot` as its `pos`-th operand,
/// when the slot is an entry slot.
fn record_usage(usage: &mut Vec<Vec<(u16, u8, usize)>>, slot: &Slot, pc: u16, op: u8, pos: usize)
    ensures
        final(usage)@.len() == old(usage)@.len(),
        usage_view(final(usage)@) == spec_urecord(usage_view(old(usage)@), *slot, pc, op, pos),
{
    let ghost uv0 = usage_view(old(usage)@);
    match slot {
        Slot::Entry(p) => {
            if *p < usage.len() {
                let mut inner = usage.remove(*p);
                inner.push((pc, op, pos));
                usage.insert(*p, inner);
                proof {
                    assert(usage_view(usage@) =~~= uv0.update(
                        *p as int,
                        uv0[*p as int].push((pc, op, pos)),
                    ));
                }
            }
        },
        _ => {},
    }
    proof {
        assert(usage_view(usage@) =~~= spec_urecord(uv0, *slot, pc, op, pos));
    }
}

/// The slot the terminal jump reads: the top of the stack after all but the
/// last instruction (materializing it if the stack is locally empty).
pub fn target_slot(ops: &Vec<(u16, u8, Option<Vec<u8>>)>) -> (r: Slot)
    requires
        ops@.len() > 0,
        ops@.len() <= 0xFFFF,
        ops@.last().1 == OP_JUMP || ops@.last().1 == OP_JUMPI,
    ensures
        spec_target_slot(ops@) == Some(r),
{
    let n = ops.len();
    let mut stack: Vec<Slot> = Vec::new();
    let mut consumed: usize = 0;
    let mut usage: Vec<Vec<(u16, u8, usize)>> = Vec::new();
    let mut pidx: usize = 0;
    let mut i: usize = 0;
    while i < n - 1
        invariant
            n == ops@.len(),
            n <= 0xFFFF,
            n > 0,
            i <= n - 1,
            stack@ == spec_sim(ops@, i as int).stack,
            consumed == spec_sim(ops@, i as int).consumed,
            consumed <= 17 * i,
            stack@.len() <= 34 * i,
            usage@.len() == consumed,
            pidx == spec_pushes(ops@.take(i as int)).len(),
        decreases n - 1 - i,
    {
        let pc_here = ops[i].0;
        let op = ops[i].1;
        let ghost pre = SimState { stack: stack@, consumed: consumed as int };
        proof {
            assert(ops@.take(i + 1).drop_last() =~= ops@.take(i as int));
            crate::disasm::lemma_pushes_snoc(ops@.take(i as int), ops@[i as int]);
            assert(ops@.take(i + 1) =~= ops@.take(i as int).push(ops@[i as int]));
            assert(spec_sim(ops@, i + 1) == spec_step(pre, ops@[i as int], pidx));
        }
        if is_push(op) {
            let slot = push_slot(&ops[i].2, pidx);
            stack.push(slot);
            pidx = pidx + 1;
        } else if 0x80 <= op && op <= 0x8f {
            let nd = (op - 0x7f) as usize;
            materialize(&mut stack, &mut consumed, &mut usage, nd, i);
            let read = stack[stack.len() - nd];
            stack.push(read);
        } else if 0x90 <= op && op <= 0x9f {
            let nd = (op - 0x8f) as usize;
            materialize(&mut stack, &mut consumed, &mut usage, nd + 1, i);
            let l = stack.len();
            let a = stack[l - 1];
            let b = stack[l - 1 - nd];
            vec_update(&mut stack, l - 1, b);
            vec_update(&mut stack, l - 1 - nd, a);
        } else {
            match arity(op) {
                Some(pq) => {
                    materialize(&mut stack, &mut consumed, &mut usage, pq.0, i);
                    let ghost s2 = SimState { stack: stack@, consumed: consumed as int };
                    let mut k: usize = 0;
                    while k < pq.0
                        invariant
                            k <= pq.0,
                            pq.0 <= 17,
                            stack@ == s2.stack.take(s2.stack.len() - k),
                            s2.stack.len() >= pq.0,
                            usage@.len() == consumed,
                        decreases pq.0 - k,
                    {
                        stack.pop();
                        proof {
                            assert(stack@ =~= s2.stack.take(s2.stack.len() - (k + 1)));
                        }
                        k = k + 1;
                    }
                    let mut q: usize = 0;
                    while q < pq.1
                        invariant
                            q <= pq.1,
                            pq.1 <= 17,
                            stack@ == s2.stack.take(s2.stack.len() - pq.0) + Seq::new(
                                q as nat,
                                |t: int| Slot::Opaque,
                            ),
                            usage@.len() == consumed,
                        decreases pq.1 - q,
                    {
                        stack.push(Slot::Opaque);
                        proof {
                            assert(stack@ =~= s2.stack.take(s2.stack.len() - pq.0) + Seq::new(
                                (q + 1) as nat,
                                |t: int| Slot::Opaque,
                            ));
                        }
                        q = q + 1;
                    }
                },
                None => {},
            }
        }
        i = i + 1;
    }
    let mut usage2 = usage;
    materialize(&mut stack, &mut consumed, &mut usage2, 1, n - 1);
    let top = stack[stack.len() - 1];
    top
}

/// Collect the exit positions of entry slot `p` in the final stack.
fn exit_positions_of(stack: &Vec<Slot>, p: usize) -> (r: Vec<usize>)
    ensures
        r@ == spec_exit_positions(stack@, p, 0),
{
    let mut r: Vec<usize> = Vec::new();
    let mut i: usize = 0;
    while i < stack.len()
        invariant
            i <= stack@.len(),
            spec_exit_positions(stack@, p, 0) == (r@ + spec_exit_positions(stack@, p, i as int)),
        decreases stack@.len() - i,
    {
        let ghost before = r@;
        match stack[i] {
            Slot::Entry(q) => {
                if q == p {
                    r.push(stack.len() - 1 - i);
                }
            },
            _ => {},
        }
        proof {
            assert(spec_exit_positions(stack@, p, 0) =~= r@ + spec_exit_positions(
                stack@,
                p,
                i + 1,
            ));
        }
        i = i + 1;
    }
    proof {
        assert(spec_exit_positions(stack@, p, 0) =~= r@);
    }
    r
}

/// Collect the pushed values surviving in the final stack.
fn push_exits_of(stack: &Vec<Slot>) -> (r: Vec<(usize, u16, usize)>)
    ensures
        r@ == spec_push_exits(stack@, 0),
{
    let mut r: Vec<(usize, u16, usize)> = Vec::new();
    let mut i: usize = 0;
    while i < stack.len()
        invariant
            i <= stack@.len(),
            spec_push_exits(stack@, 0) == (r@ + spec_push_exits(stack@, i as int)),
        decreases stack@.len() - i,
    {
        match stack[i] {
            Slot::Known(v, idx) => {
                r.push((stack.len() - 1 - i, v, idx));
            },
            _ => {},
        }
        proof {
            assert(spec_push_exits(stack@, 0) =~= r@ + spec_push_exits(stack@, i + 1));
        }
        i = i + 1;
    }
    proof {
        assert(spec_push_exits(stack@, 0) =~= r@);
    }
    r
}

} // verus!
