//! Use-def information.

use ccc::ir::{
    BasicBlock, BlockId, Instruction, IrBinOp, IrConst, IrFunction, IrType, Operand, Terminator,
    Value,
};
use ccc::passes::use_def::{DefLoc, UseDefInfo};

/// Helper: create a minimal function with given blocks.
fn make_func(blocks: Vec<BasicBlock>) -> IrFunction {
    let mut f = IrFunction::new("test".to_string(), IrType::Void, vec![], false);
    f.blocks = blocks;
    // Set next_value_id to cover all values
    let mut max = 0u32;
    for b in &f.blocks {
        for inst in &b.instructions {
            if let Some(v) = inst.dest() {
                if v.0 > max { max = v.0; }
            }
        }
    }
    f.next_value_id = max + 1;
    f
}

#[test]
fn test_def_loc_encoding() {
    let none = DefLoc::none();
    assert!(none.is_none());
    assert_eq!(none.as_instruction(), None);

    let inst = DefLoc::instruction(3, 7);
    assert!(!inst.is_none());
    assert_eq!(inst.as_instruction(), Some((3, 7)));

    let param = DefLoc::parameter(2);
    assert!(!param.is_none());
    assert_eq!(param.as_instruction(), None);
}

#[test]
fn test_basic_use_count() {
    // %0 = Copy 42
    // %1 = BinOp Add %0, %0
    // return %1
    let blocks = vec![BasicBlock {
        label: BlockId(0),
        instructions: vec![
            Instruction::Copy {
                dest: Value(0),
                src: Operand::Const(IrConst::I64(42)),
            },
            Instruction::BinOp {
                dest: Value(1),
                op: IrBinOp::Add,
                lhs: Operand::Value(Value(0)),
                rhs: Operand::Value(Value(0)),
                ty: IrType::I64,
            },
        ],
        terminator: Terminator::Return(Some(Operand::Value(Value(1)))),
        source_spans: vec![],
    }];

    let func = make_func(blocks);
    let info = UseDefInfo::build(&func);

    // %0 used twice (lhs + rhs of BinOp)
    assert_eq!(info.use_count[0], 2);
    // %1 used once (return)
    assert_eq!(info.use_count[1], 1);

    // %0 defined at block 0, inst 0
    assert_eq!(info.def_loc[0].as_instruction(), Some((0, 0)));
    // %1 defined at block 0, inst 1
    assert_eq!(info.def_loc[1].as_instruction(), Some((0, 1)));

    assert!(!info.is_dead(0));
    assert!(!info.is_dead(1));
}

#[test]
fn test_dead_value() {
    // %0 = Copy 42  (unused)
    // return void
    let blocks = vec![BasicBlock {
        label: BlockId(0),
        instructions: vec![
            Instruction::Copy {
                dest: Value(0),
                src: Operand::Const(IrConst::I64(42)),
            },
        ],
        terminator: Terminator::Return(None),
        source_spans: vec![],
    }];

    let func = make_func(blocks);
    let info = UseDefInfo::build(&func);

    assert_eq!(info.use_count[0], 0);
    assert!(info.is_dead(0));
}

#[test]
fn test_phi_self_ref_excluded() {
    // Block 0: %0 = Copy 0; branch -> Block 1
    // Block 1: %1 = Phi [(Block 0, %0), (Block 1, %1)]; branch -> Block 1
    // The self-ref (%1 -> %1) should NOT be counted.
    let blocks = vec![
        BasicBlock {
            label: BlockId(0),
            instructions: vec![
                Instruction::Copy {
                    dest: Value(0),
                    src: Operand::Const(IrConst::I64(0)),
                },
            ],
            terminator: Terminator::Branch(BlockId(1)),
            source_spans: vec![],
        },
        BasicBlock {
            label: BlockId(1),
            instructions: vec![
                Instruction::Phi {
                    dest: Value(1),
                    incoming: vec![
                        (Operand::Value(Value(0)), BlockId(0)),
                        (Operand::Value(Value(1)), BlockId(1)), // self-ref
                    ],
                    ty: IrType::I64,
                },
            ],
            terminator: Terminator::Branch(BlockId(1)),
            source_spans: vec![],
        },
    ];

    let func = make_func(blocks);
    let info = UseDefInfo::build(&func);

    // %0 used once (in Phi from Block 0)
    assert_eq!(info.use_count[0], 1);
    // %1: self-ref excluded, so only 0 external uses (phi not used by anything else)
    assert_eq!(info.use_count[1], 0);
    assert!(info.is_dead(1));
}
