//! The jumpdest table: which program counters are valid jump destinations,
//! i.e. carry a JUMPDEST opcode on a genuine instruction boundary (not inside
//! a push immediate).

use crate::opcode::{push_len, spec_push_len, OP_JUMPDEST};
use vstd::prelude::*;

verus! {

/// The linear scan from boundary `i` reaches boundary `j` (skipping push
/// immediates).
pub open spec fn spec_boundary(bytes: Seq<u8>, i: int, j: int) -> bool
    decreases bytes.len() - i,
{
    i == j || (0 <= i && i < bytes.len() && i < j && {
        let nx = i + 1 + spec_push_len(bytes[i]);
        nx <= bytes.len() && spec_boundary(bytes, nx, j)
    })
}

/// `pc` holds a JUMPDEST opcode on an instruction boundary of the scan that
/// starts at boundary `i`.
pub open spec fn spec_is_jumpdest_from(bytes: Seq<u8>, i: int, pc: int) -> bool
    decreases bytes.len() - i,
{
    if i < 0 || i >= bytes.len() || i > pc {
        false
    } else if i == pc {
        bytes[i] == OP_JUMPDEST
    } else {
        let nx = i + 1 + spec_push_len(bytes[i]);
        if nx <= bytes.len() {
            spec_is_jumpdest_from(bytes, nx, pc)
        } else {
            false
        }
    }
}

/// `pc` is a valid jump destination of the bytecode.
pub open spec fn spec_is_jumpdest(bytes: Seq<u8>, pc: int) -> bool {
    spec_is_jumpdest_from(bytes, 0, pc)
}

pub proof fn lemma_boundary_le(bytes: Seq<u8>, i: int, j: int)
    requires
        spec_boundary(bytes, i, j),
    ensures
        i <= j,
    decreases bytes.len() - i,
{
    if i != j {
        let nx = i + 1 + spec_push_len(bytes[i]);
        lemma_boundary_le(bytes, nx, j);
    }
}

/// Boundaries reached from the same start are totally ordered along one chain.
pub proof fn lemma_boundary_linear(bytes: Seq<u8>, i: int, j: int, k: int)
    requires
        spec_boundary(bytes, i, j),
        spec_boundary(bytes, i, k),
        j <= k,
    ensures
        spec_boundary(bytes, j, k),
    decreases bytes.len() - i,
{
    if i != j {
        let nx = i + 1 + spec_push_len(bytes[i]);
        if i == k {
            lemma_boundary_le(bytes, i, j);
        } else {
            lemma_boundary_linear(bytes, nx, j, k);
        }
    }
}

/// A valid jump destination is a boundary of the scan.
pub proof fn lemma_jumpdest_is_boundary(bytes: Seq<u8>, i: int, pc: int)
    requires
        spec_is_jumpdest_from(bytes, i, pc),
    ensures
        spec_boundary(bytes, i, pc),
        0 <= pc < bytes.len() && bytes[pc] == OP_JUMPDEST,
    decreases bytes.len() - i,
{
    if i != pc {
        let nx = i + 1 + spec_push_len(bytes[i]);
        lemma_jumpdest_is_boundary(bytes, nx, pc);
    }
}

/// The scan result for positions at or past a reached boundary does not depend
/// on where the scan started.
pub proof fn lemma_jumpdest_split(bytes: Seq<u8>, i: int, j: int, pc: int)
    requires
        spec_boundary(bytes, i, j),
        j <= pc,
    ensures
        spec_is_jumpdest_from(bytes, i, pc) == spec_is_jumpdest_from(bytes, j, pc),
    decreases bytes.len() - i,
{
    if i != j {
        let nx = i + 1 + spec_push_len(bytes[i]);
        lemma_boundary_le(bytes, nx, j);
        lemma_jumpdest_split(bytes, nx, j, pc);
    }
}

/// Compute the jumpdest table: `r[pc]` is true exactly when `pc` is a valid
/// jump destination.
pub fn jumpdest_table(bytes: &Vec<u8>) -> (r: Vec<bool>)
    ensures
        r@.len() == bytes@.len(),
        forall|pc: int| 0 <= pc < bytes@.len() ==> r@[pc] == spec_is_jumpdest(bytes@, pc),
{
    let n = bytes.len();
    let mut r: Vec<bool> = Vec::new();
    let mut pc: usize = 0;
    let mut bnd: usize = 0;
    while pc < n
        invariant
            n == bytes@.len(),
            pc <= n,
            pc <= bnd,
            bnd <= n,
            spec_boundary(bytes@, 0, bnd as int) || bnd == n,
            r@.len() == pc,
            forall|q: int| 0 <= q < pc ==> r@[q] == spec_is_jumpdest(bytes@, q),
            forall|q: int| pc <= q < bnd ==> !spec_is_jumpdest(bytes@, q),
        decreases n - pc,
    {
        if pc == bnd {
            let op = bytes[pc];
            let step = 1 + push_len(op);
            let nx = if step <= n - bnd { bnd + step } else { n };
            proof {
                lemma_jumpdest_split(bytes@, 0, bnd as int, bnd as int);
                // nothing strictly between bnd and nx is a jumpdest
                assert forall|q: int| pc < q < nx implies !spec_is_jumpdest(bytes@, q) by {
                    if spec_is_jumpdest(bytes@, q) {
                        lemma_jumpdest_is_boundary(bytes@, 0, q);
                        lemma_boundary_linear(bytes@, 0, bnd as int, q);
                        let nb = bnd as int + 1 + spec_push_len(op);
                        if nb <= n {
                            lemma_boundary_le(bytes@, nb, q);
                        }
                    }
                };
                // the scan from bnd proceeds to bnd + step when it fits
                if step <= n - bnd {
                    assert(spec_boundary(bytes@, bnd as int, nx as int)) by {
                        assert(spec_boundary(bytes@, bnd as int + 1 + spec_push_len(op), nx as int));
                    };
                    lemma_boundary_chain(bytes@, 0, bnd as int, nx as int);
                }
            }
            r.push(op == OP_JUMPDEST);
            bnd = nx;
        } else {
            r.push(false);
        }
        pc = pc + 1;
    }
    r
}

/// Reaching `j` from `i` and `k` from `j` reaches `k` from `i`.
pub proof fn lemma_boundary_chain(bytes: Seq<u8>, i: int, j: int, k: int)
    requires
        spec_boundary(bytes, i, j),
        spec_boundary(bytes, j, k),
    ensures
        spec_boundary(bytes, i, k),
    decreases bytes.len() - i,
{
    if i != j {
        let nx = i + 1 + spec_push_len(bytes[i]);
        lemma_boundary_chain(bytes, nx, j, k);
        lemma_boundary_le(bytes, j, k);
    }
}

} // verus!
