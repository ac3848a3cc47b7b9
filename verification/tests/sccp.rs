//! Sparse conditional constant propagation.

use ccc::ir::{
    BasicBlock, BlockId, Instruction, IrBinOp, IrConst, IrFunction, IrType, Operand, Terminator,
    Value,
};
use ccc::passes::sccp::run_sccp_with_usedef;
use ccc::passes::use_def::UseDefInfo;

fn make_func(blocks: Vec<BasicBlock>) -> IrFunction {
    let mut f = IrFunction::new("test".into(), IrType::Void, vec![], false);
    f.blocks = blocks;
    let mut max = 0u32;
    for b in &f.blocks {
        for inst in &b.instructions {
            if let Some(v) = inst.dest() {
                if v.0 > max { max = v.0; }
            }
        }
    }
    f.next_value_id = max + 1;
    f
}

#[test]
fn test_sccp_constant_propagation() {
    // %0 = Copy 3
    // %1 = BinOp Add %0, %0  → should become 6
    // return %1
    let blocks = vec![BasicBlock {
        label: BlockId(0),
        instructions: vec![
            Instruction::Copy {
                dest: Value(0),
                src: Operand::Const(IrConst::I64(3)),
            },
            Instruction::BinOp {
                dest: Value(1),
                op: IrBinOp::Add,
                lhs: Operand::Value(Value(0)),
                rhs: Operand::Value(Value(0)),
                ty: IrType::I64,
            },
        ],
        terminator: Terminator::Return(Some(Operand::Value(Value(1)))),
        source_spans: vec![],
    }];

    let mut func = make_func(blocks);
    let usedef = UseDefInfo::build(&func);
    let n = run_sccp_with_usedef(&mut func, &usedef);
    assert!(n > 0, "SCCP should have made changes");

    // %1's operands should have been rewritten to constants.
    match &func.blocks[0].instructions[1] {
        Instruction::BinOp { lhs, rhs, .. } => {
            assert!(matches!(lhs, Operand::Const(IrConst::I64(3))));
            assert!(matches!(rhs, Operand::Const(IrConst::I64(3))));
        }
        other => panic!("Expected BinOp, got {:?}", other),
    }
}

#[test]
fn test_sccp_branch_folding() {
    // Block 0: %0 = Copy 1; condbranch %0, Block1, Block2
    // Block 1: return void  (reachable)
    // Block 2: return void  (unreachable — condition is always true)
    let blocks = vec![
        BasicBlock {
            label: BlockId(0),
            instructions: vec![
                Instruction::Copy {
                    dest: Value(0),
                    src: Operand::Const(IrConst::I32(1)),
                },
            ],
            terminator: Terminator::CondBranch {
                cond: Operand::Value(Value(0)),
                true_label: BlockId(1),
                false_label: BlockId(2),
            },
            source_spans: vec![],
        },
        BasicBlock {
            label: BlockId(1),
            instructions: vec![],
            terminator: Terminator::Return(None),
            source_spans: vec![],
        },
        BasicBlock {
            label: BlockId(2),
            instructions: vec![],
            terminator: Terminator::Return(None),
            source_spans: vec![],
        },
    ];

    let mut func = make_func(blocks);
    let usedef = UseDefInfo::build(&func);
    let n = run_sccp_with_usedef(&mut func, &usedef);
    assert!(n > 0);

    // Block 0 terminator should be Branch(BlockId(1))
    assert!(matches!(func.blocks[0].terminator, Terminator::Branch(BlockId(1))));
}

#[test]
fn test_sccp_dead_edge_phi() {
    // Block 0: %0 = Copy 42; branch → Block 2
    // Block 1: (unreachable) branch → Block 2
    // Block 2: %1 = Phi [(Block 0, %0), (Block 1, Const(99))]; return %1
    // Since Block 1 is unreachable, %1 should resolve to 42.
    let blocks = vec![
        BasicBlock {
            label: BlockId(0),
            instructions: vec![
                Instruction::Copy {
                    dest: Value(0),
                    src: Operand::Const(IrConst::I64(42)),
                },
            ],
            terminator: Terminator::Branch(BlockId(2)),
            source_spans: vec![],
        },
        BasicBlock {
            label: BlockId(1),
            instructions: vec![],
            terminator: Terminator::Branch(BlockId(2)),
            source_spans: vec![],
        },
        BasicBlock {
            label: BlockId(2),
            instructions: vec![
                Instruction::Phi {
                    dest: Value(1),
                    incoming: vec![
                        (Operand::Value(Value(0)), BlockId(0)),
                        (Operand::Const(IrConst::I64(99)), BlockId(1)),
                    ],
                    ty: IrType::I64,
                },
            ],
            terminator: Terminator::Return(Some(Operand::Value(Value(1)))),
            source_spans: vec![],
        },
    ];

    let mut func = make_func(blocks);
    let usedef = UseDefInfo::build(&func);
    let n = run_sccp_with_usedef(&mut func, &usedef);
    assert!(n > 0);

    // Block 1 is unreachable (no edge from block 0 reaches it),
    // but we leave cleanup to cfg_simplify.
}

#[test]
fn test_sccp_switch_folding() {
    // Block 0: %0 = Copy 2; Switch %0: case 1 → Block1, case 2 → Block2, default → Block3
    // Only Block 2 should be reachable.
    let blocks = vec![
        BasicBlock {
            label: BlockId(0),
            instructions: vec![
                Instruction::Copy {
                    dest: Value(0),
                    src: Operand::Const(IrConst::I32(2)),
                },
            ],
            terminator: Terminator::Switch {
                val: Operand::Value(Value(0)),
                cases: vec![(1, BlockId(1)), (2, BlockId(2))],
                default: BlockId(3),
                ty: IrType::I32,
            },
            source_spans: vec![],
        },
        BasicBlock {
            label: BlockId(1),
            instructions: vec![],
            terminator: Terminator::Return(None),
            source_spans: vec![],
        },
        BasicBlock {
            label: BlockId(2),
            instructions: vec![],
            terminator: Terminator::Return(None),
            source_spans: vec![],
        },
        BasicBlock {
            label: BlockId(3),
            instructions: vec![],
            terminator: Terminator::Return(None),
            source_spans: vec![],
        },
    ];

    let mut func = make_func(blocks);
    let usedef = UseDefInfo::build(&func);
    let n = run_sccp_with_usedef(&mut func, &usedef);
    assert!(n > 0);

    // Block 0 should have Branch(BlockId(2))
    assert!(matches!(func.blocks[0].terminator, Terminator::Branch(BlockId(2))));
}

#[test]
fn test_sccp_transitive_chain() {
    // %0 = Copy 5
    // %1 = Copy %0
    // %2 = BinOp Add %1, %1  → should fold to 10
    // return %2
    let blocks = vec![BasicBlock {
        label: BlockId(0),
        instructions: vec![
            Instruction::Copy {
                dest: Value(0),
                src: Operand::Const(IrConst::I32(5)),
            },
            Instruction::Copy {
                dest: Value(1),
                src: Operand::Value(Value(0)),
            },
            Instruction::BinOp {
                dest: Value(2),
                op: IrBinOp::Add,
                lhs: Operand::Value(Value(1)),
                rhs: Operand::Value(Value(1)),
                ty: IrType::I32,
            },
        ],
        terminator: Terminator::Return(Some(Operand::Value(Value(2)))),
        source_spans: vec![],
    }];

    let mut func = make_func(blocks);
    let usedef = UseDefInfo::build(&func);
    let n = run_sccp_with_usedef(&mut func, &usedef);
    assert!(n > 0);

    // %2's operands should be rewritten to constants.
    match &func.blocks[0].instructions[2] {
        Instruction::BinOp { lhs, rhs, .. } => {
            assert!(matches!(lhs, Operand::Const(IrConst::I32(5))));
            assert!(matches!(rhs, Operand::Const(IrConst::I32(5))));
        }
        other => panic!("Expected BinOp, got {:?}", other),
    }
}

#[test]
fn test_sccp_param_stays_bottom() {
    // %0 = ParamRef(0)
    // %1 = BinOp Add %0, Const(1)
    // return %1
    // ParamRef is Bottom → %1 stays Bottom → no constant rewrite.
    let blocks = vec![BasicBlock {
        label: BlockId(0),
        instructions: vec![
            Instruction::ParamRef {
                dest: Value(0),
                param_idx: 0,
                ty: IrType::I32,
            },
            Instruction::BinOp {
                dest: Value(1),
                op: IrBinOp::Add,
                lhs: Operand::Value(Value(0)),
                rhs: Operand::Const(IrConst::I32(1)),
                ty: IrType::I32,
            },
        ],
        terminator: Terminator::Return(Some(Operand::Value(Value(1)))),
        source_spans: vec![],
    }];

    let mut func = make_func(blocks);
    let usedef = UseDefInfo::build(&func);
    let n = run_sccp_with_usedef(&mut func, &usedef);
    // No constant propagation should happen.
    assert_eq!(n, 0, "ParamRef should prevent constant propagation");

    // %1's lhs should still be Value(0).
    match &func.blocks[0].instructions[1] {
        Instruction::BinOp { lhs, .. } => {
            assert!(matches!(lhs, Operand::Value(Value(0))));
        }
        other => panic!("Expected BinOp, got {:?}", other),
    }
}

#[test]
fn test_sccp_loop_phi_bottom() {
    // Block 0: %0 = Copy 1; branch → Block 1
    // Block 1: %1 = Phi [(Block 0, %0), (Block 1, %2)]
    //          %2 = BinOp Add %1, Const(1)
    //          branch → Block 1
    // The phi merges a constant (1) with a loop-carried value (%2).
    // %1 should be Bottom (multiple possible values).
    let blocks = vec![
        BasicBlock {
            label: BlockId(0),
            instructions: vec![
                Instruction::Copy {
                    dest: Value(0),
                    src: Operand::Const(IrConst::I32(1)),
                },
            ],
            terminator: Terminator::Branch(BlockId(1)),
            source_spans: vec![],
        },
        BasicBlock {
            label: BlockId(1),
            instructions: vec![
                Instruction::Phi {
                    dest: Value(1),
                    incoming: vec![
                        (Operand::Value(Value(0)), BlockId(0)),
                        (Operand::Value(Value(2)), BlockId(1)),
                    ],
                    ty: IrType::I32,
                },
                Instruction::BinOp {
                    dest: Value(2),
                    op: IrBinOp::Add,
                    lhs: Operand::Value(Value(1)),
                    rhs: Operand::Const(IrConst::I32(1)),
                    ty: IrType::I32,
                },
            ],
            terminator: Terminator::Branch(BlockId(1)),
            source_spans: vec![],
        },
    ];

    let mut func = make_func(blocks);
    let usedef = UseDefInfo::build(&func);
    let n = run_sccp_with_usedef(&mut func, &usedef);

    // %1 should be Bottom (constant + non-constant merge).
    // The BinOp operands should NOT be rewritten to constants.
    match &func.blocks[1].instructions[1] {
        Instruction::BinOp { lhs, .. } => {
            assert!(matches!(lhs, Operand::Value(Value(1))),
                "Loop phi should be Bottom, operand should remain Value");
        }
        other => panic!("Expected BinOp, got {:?}", other),
    }
}

#[test]
fn test_sccp_select_const_cond() {
    // %0 = Copy 1 (true)
    // %1 = Select %0, Const(42), Const(99)  → should resolve to 42
    // return %1
    let blocks = vec![BasicBlock {
        label: BlockId(0),
        instructions: vec![
            Instruction::Copy {
                dest: Value(0),
                src: Operand::Const(IrConst::I32(1)),
            },
            Instruction::Select {
                dest: Value(1),
                cond: Operand::Value(Value(0)),
                true_val: Operand::Const(IrConst::I32(42)),
                false_val: Operand::Const(IrConst::I32(99)),
                ty: IrType::I32,
            },
        ],
        terminator: Terminator::Return(Some(Operand::Value(Value(1)))),
        source_spans: vec![],
    }];

    let mut func = make_func(blocks);
    let usedef = UseDefInfo::build(&func);
    let n = run_sccp_with_usedef(&mut func, &usedef);
    assert!(n > 0);

    // The Select's condition should have been rewritten to a constant.
    match &func.blocks[0].instructions[1] {
        Instruction::Select { cond, .. } => {
            assert!(matches!(cond, Operand::Const(IrConst::I32(1))));
        }
        other => panic!("Expected Select, got {:?}", other),
    }
}
