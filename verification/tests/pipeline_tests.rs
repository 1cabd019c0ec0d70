use bytecode_cfg::block::InstructionBlock;
use bytecode_cfg::cfg::Edges;
use bytecode_cfg::disasm::disassemble;
use bytecode_cfg::hexdec::{hex_decode, strip_whitespace};
use bytecode_cfg::jumpdest::jumpdest_table;
use bytecode_cfg::pipeline::CFGEvm;
use bytecode_cfg::stack::analyze_stack_info;

fn edge_list(cfg: &CFGEvm) -> Vec<((u16, u16), (u16, u16), u8)> {
    let mut all: Vec<((u16, u16), (u16, u16), u8)> = Vec::new();
    for b in cfg.map_to_instructionblock.iter() {
        let key = (b.start_pc, b.end_pc);
        for e in cfg.outgoing_edges(key) {
            let tag = match e.edge {
                Edges::Jump => 0u8,
                Edges::ConditionTrue => 1,
                Edges::ConditionFalse => 2,
                Edges::SymbolicJump => 3,
            };
            all.push((e.from_node, e.to_node, tag));
        }
    }
    all.sort();
    all
}

fn keys(cfg: &CFGEvm) -> Vec<(u16, u16)> {
    cfg.map_to_instructionblock
        .iter()
        .map(|b| (b.start_pc, b.end_pc))
        .collect()
}

#[test]
fn hex_decoding() {
    assert_eq!(hex_decode("600S").is_none(), true);
    assert_eq!(hex_decode("605").is_none(), true);
    assert_eq!(hex_decode("6005").unwrap(), vec![0x60, 0x05]);
    assert_eq!(hex_decode("").unwrap(), Vec::<u8>::new());
}

#[test]
fn whitespace_stripping() {
    assert_eq!(strip_whitespace("60 05\r\n60"), "600560".to_string());
    // the stripped form must decode where the raw form does not
    assert!(hex_decode("60 05").is_none());
    assert_eq!(hex_decode(&strip_whitespace("60 05")).unwrap(), vec![0x60, 0x05]);
}

#[test]
fn jumpdest_table_skips_immediates() {
    // PUSH1 0x5b; JUMPDEST: the immediate byte must not count
    let bytes = vec![0x60u8, 0x5b, 0x5b];
    let table = jumpdest_table(&bytes);
    assert_eq!(table, vec![false, false, true]);
}

#[test]
fn disassembly_partitions_the_bytes() {
    // PUSH1 5 PUSH1 10 ADD PUSH1 0 MSTORE STOP, then a JUMPDEST block
    let bytes = hex_decode("6005600a016000525b00").unwrap();
    let blocks = disassemble(&bytes);
    assert_eq!(blocks[0].start_pc, 0);
    let mut prev_end: Option<u16> = None;
    for b in blocks.iter() {
        assert!(b.start_pc <= b.end_pc);
        if let Some(pe) = prev_end {
            // no gaps, no overlaps
            assert_eq!(b.start_pc, pe + 1);
        }
        prev_end = Some(b.end_pc);
    }
    assert_eq!(prev_end.unwrap() as usize, bytes.len() - 1);
}

#[test]
fn truncated_push_is_zero_padded() {
    let bytes = vec![0x61u8, 0xaa];
    let blocks = disassemble(&bytes);
    assert_eq!(blocks.len(), 1);
    assert_eq!(blocks[0].end_pc, 1);
    let (_, op, imm) = &blocks[0].ops[0];
    assert_eq!(*op, 0x61);
    assert_eq!(imm.as_ref().unwrap(), &vec![0xaa, 0x00]);
}

#[test]
fn swap_stack_summary() {
    // a lone SWAP1 needs two entry slots and swaps them
    let ops: Vec<(u16, u8, Option<Vec<u8>>)> = vec![(0, 0x90, None)];
    let info = analyze_stack_info(&ops);
    assert_eq!(info.min_stack_size_required_for_entry, 2);
    assert_eq!(info.stack_size_delta, 0);
    assert_eq!(info.stack_entry_pos_to_stack_exit_pos[0], vec![1]);
    assert_eq!(info.stack_entry_pos_to_stack_exit_pos[1], vec![0]);
}

#[test]
fn single_block_no_branches() {
    // PUSH1 5 PUSH1 10 ADD PUSH1 0 MSTORE STOP
    let cfg = CFGEvm::new("6005600a0160005200".to_string());
    assert_eq!(keys(&cfg), vec![(0, 8)]);
    let b = cfg.get_block((0, 8)).unwrap();
    assert_eq!(b.stack_info.stack_size_delta, 0);
    assert!(b.indirect_jump.is_none());
    assert!(cfg.outgoing_edges((0, 8)).is_empty());
    assert!(cfg.incoming_edges((0, 8)).is_empty());
}

#[test]
fn conditional_jump_forms_both_edges() {
    // PUSH1 1 PUSH1 6 JUMPI STOP JUMPDEST STOP
    let cfg = CFGEvm::new("6001600657005b00".to_string());
    let out = cfg.outgoing_edges((0, 4));
    assert_eq!(out.len(), 2);
    let mut true_target = None;
    let mut false_target = None;
    for e in out.iter() {
        match e.edge {
            Edges::ConditionTrue => true_target = Some(e.to_node),
            Edges::ConditionFalse => false_target = Some(e.to_node),
            _ => panic!("unexpected edge type"),
        }
    }
    assert_eq!(true_target.unwrap(), (6, 7));
    assert_eq!(false_target.unwrap(), (5, 5));
    // the two legs target distinct nodes
    assert_ne!(true_target.unwrap(), false_target.unwrap());
    assert!(matches!(cfg.jumpi_edge, Some(Edges::ConditionTrue)));
}

#[test]
fn conditional_jump_with_invalid_target() {
    // PUSH1 1 PUSH1 5 JUMPI STOP STOP: pc 5 is no JUMPDEST, only the
    // fallthrough leg exists
    let cfg = CFGEvm::new("60016005570000".to_string());
    let out = cfg.outgoing_edges((0, 4));
    assert_eq!(out.len(), 1);
    assert!(matches!(out[0].edge, Edges::ConditionFalse));
    assert_eq!(out[0].to_node, (5, 5));
}

#[test]
fn indirect_jump_resolved_through_propagation() {
    // PUSH1 8 PUSH1 5 JUMP ; JUMPDEST JUMP ; STOP ; JUMPDEST STOP
    // the first block pushes the return-style target 8, jumps directly to 5;
    // the block at 5 jumps to a value it never pushed itself
    let cfg = CFGEvm::new("60086005565b56005b00".to_string());
    let b1 = cfg.get_block((5, 6)).unwrap();
    assert_eq!(b1.indirect_jump, Some(0));
    let out = cfg.outgoing_edges((5, 6));
    assert_eq!(out.len(), 1);
    assert!(matches!(out[0].edge, Edges::SymbolicJump));
    assert_eq!(out[0].to_node, (8, 9));
    assert!(cfg.resolution_complete);
    // the push that fed the jump carries its resolved target
    let b0 = cfg.get_block((0, 4)).unwrap();
    let (bytes0, targets0) = &b0.push_vals[0];
    assert_eq!(bytes0, &vec![0x08]);
    assert_eq!(targets0.as_ref().unwrap(), &vec![8u16]);
    // the dead STOP block at pc 7 was pruned
    assert!(cfg.get_block((7, 7)).is_none());
}

#[test]
fn dispatcher_resolves_both_handlers() {
    // Two selector branches feed one shared indirect JUMP:
    //  0: PUSH1 0x10   handler a, left on the stack
    //  2: PUSH1 0x01   condition
    //  4: PUSH1 0x0c   the shared jump block
    //  6: JUMPI
    //  7: PUSH1 0x12   handler b
    //  9: PUSH1 0x0c
    //  b: JUMP
    //  c: JUMPDEST JUMP   target comes from the entry stack
    //  e: STOP (dead)
    //  f: STOP (dead)
    // 10: JUMPDEST STOP   handler a
    // 12: JUMPDEST STOP   handler b
    let cfg = CFGEvm::new("60106001600c576012600c565b5600005b005b00".to_string());
    let out = cfg.outgoing_edges((0x0c, 0x0d));
    assert_eq!(out.len(), 2);
    let mut targets: Vec<(u16, u16)> = out.iter().map(|e| e.to_node).collect();
    targets.sort();
    assert_eq!(targets, vec![(0x10, 0x11), (0x12, 0x13)]);
    for e in out.iter() {
        assert!(matches!(e.edge, Edges::SymbolicJump));
    }
    assert!(cfg.resolution_complete);
}

#[test]
fn pipeline_is_deterministic() {
    let code = "60086005565b56005b00";
    let a = CFGEvm::new(code.to_string());
    let b = CFGEvm::new(code.to_string());
    assert_eq!(keys(&a), keys(&b));
    assert_eq!(edge_list(&a), edge_list(&b));
    assert_eq!(a.last_node, b.last_node);
}

#[test]
fn empty_bytecode() {
    let cfg = CFGEvm::new("".to_string());
    assert!(cfg.map_to_instructionblock.is_empty());
    assert!(cfg.last_node.is_none());
}

#[test]
fn no_block_starts_inside_an_immediate() {
    let bytes = hex_decode("6005600a016000525b00").unwrap();
    let blocks = disassemble(&bytes);
    let starts: Vec<u16> = blocks.iter().map(|b| b.start_pc).collect();
    for b in blocks.iter() {
        for (pc, op, imm) in b.ops.iter() {
            if let Some(v) = imm {
                for off in 1..=v.len() as u16 {
                    assert!(!starts.contains(&(pc + off)));
                }
            }
        }
    }
}

#[test]
fn underflowing_block_reports_deficit() {
    // a lone ADD pops two slots it never pushed
    let ops: Vec<(u16, u8, Option<Vec<u8>>)> = vec![(0, 0x01, None)];
    let info = analyze_stack_info(&ops);
    assert_eq!(info.min_stack_size_required_for_entry, 2);
    assert_eq!(info.stack_size_delta, -1);
}

#[test]
fn block_lookup_and_last_node() {
    let cfg = CFGEvm::new("6001600657005b00".to_string());
    assert_eq!(cfg.last_node, Some((6, 7)));
    let b: &InstructionBlock = cfg.get_block((6, 7)).unwrap();
    assert_eq!(b.ops[0].1, 0x5b);
}
