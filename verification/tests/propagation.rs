//! Constant propagation, and the runs of functions before and after it.

use std::collections::HashMap;

use ccc::ir::{
    BasicBlock, BlockId, CallInfo, Instruction, IrBinOp, IrCmpOp, IrConst, IrFunction, IrType,
    IrUnaryOp, Operand, Terminator, Value,
};
use ccc::passes::sccp::run_sccp_with_usedef;
use ccc::passes::use_def::{UseDefInfo, UseLoc, TERMINATOR_INDEX};

fn func(blocks: Vec<BasicBlock>, values: u32) -> IrFunction {
    let mut f = IrFunction::new("f".to_string(), IrType::I64, vec![], false);
    f.blocks = blocks;
    f.next_value_id = values;
    f
}

fn block(label: u32, instructions: Vec<Instruction>, terminator: Terminator) -> BasicBlock {
    BasicBlock { label: BlockId(label), instructions, terminator, source_spans: vec![] }
}

fn val(v: u32) -> Operand {
    Operand::Value(Value(v))
}

fn num(v: i64) -> Operand {
    Operand::Const(IrConst::I64(v))
}

fn copy(dest: u32, src: Operand) -> Instruction {
    Instruction::Copy { dest: Value(dest), src }
}

fn bin(dest: u32, op: IrBinOp, lhs: Operand, rhs: Operand) -> Instruction {
    Instruction::BinOp { dest: Value(dest), op, lhs, rhs, ty: IrType::I64 }
}

fn less(dest: u32, lhs: Operand, rhs: Operand) -> Instruction {
    Instruction::Cmp { dest: Value(dest), op: IrCmpOp::Slt, lhs, rhs, ty: IrType::I64 }
}

fn phi(dest: u32, incoming: Vec<(Operand, u32)>) -> Instruction {
    Instruction::Phi {
        dest: Value(dest),
        incoming: incoming.into_iter().map(|(op, l)| (op, BlockId(l))).collect(),
        ty: IrType::I64,
    }
}

fn input(dest: u32) -> Instruction {
    Instruction::ParamRef { dest: Value(dest), param_idx: 0, ty: IrType::I64 }
}

fn branch(cond: Operand, yes: u32, no: u32) -> Terminator {
    Terminator::CondBranch { cond, true_label: BlockId(yes), false_label: BlockId(no) }
}

fn propagate(f: &mut IrFunction) -> usize {
    let info = UseDefInfo::build(f);
    run_sccp_with_usedef(f, &info)
}

/// The blocks that a run goes through, and what it returns.
fn execute(f: &IrFunction, argument: i64) -> (Vec<u32>, Option<i64>) {
    let mut values: HashMap<u32, i64> = HashMap::new();
    let mut trace = Vec::new();
    let mut at = 0;
    let mut from = u32::MAX;
    loop {
        let b = &f.blocks[at];
        trace.push(b.label.0);
        assert!(trace.len() < 100);
        let entry = values.clone();
        let get = |op: &Operand, values: &HashMap<u32, i64>| match op {
            Operand::Const(c) => c.to_i64().unwrap(),
            Operand::Value(v) => values[&v.0],
        };
        for inst in &b.instructions {
            let (d, v) = match inst {
                Instruction::Copy { dest, src } => (dest.0, get(src, &values)),
                Instruction::BinOp { dest, op, lhs, rhs, .. } => {
                    let l = get(lhs, &values);
                    let r = get(rhs, &values);
                    let v = match op {
                        IrBinOp::Add => l.wrapping_add(r),
                        IrBinOp::Sub => l.wrapping_sub(r),
                        IrBinOp::Mul => l.wrapping_mul(r),
                        _ => panic!("{:?}", op),
                    };
                    (dest.0, v)
                }
                Instruction::Cmp { dest, lhs, rhs, .. } => {
                    (dest.0, (get(lhs, &values) < get(rhs, &values)) as i64)
                }
                Instruction::Select { dest, cond, true_val, false_val, .. } => {
                    let pick = if get(cond, &values) != 0 { true_val } else { false_val };
                    (dest.0, get(pick, &values))
                }
                Instruction::Phi { dest, incoming, .. } => {
                    let (op, _) = incoming.iter().find(|(_, l)| l.0 == from).unwrap();
                    (dest.0, get(op, &entry))
                }
                Instruction::ParamRef { dest, .. } => (dest.0, argument),
                other => panic!("{:?}", other),
            };
            values.insert(d, v);
        }
        let next = match &b.terminator {
            Terminator::Return(op) => return (trace, op.as_ref().map(|op| get(op, &values))),
            Terminator::Branch(l) => *l,
            Terminator::CondBranch { cond, true_label, false_label } => {
                if get(cond, &values) != 0 { *true_label } else { *false_label }
            }
            Terminator::Switch { val, cases, default, .. } => {
                let v = get(val, &values);
                cases.iter().find(|(c, _)| *c == v).map(|(_, l)| *l).unwrap_or(*default)
            }
            other => panic!("{:?}", other),
        };
        from = b.label.0;
        at = f.blocks.iter().position(|b| b.label == next).unwrap();
    }
}

/// Sums up while counting to the argument; one way in the loop is never taken.
fn loop_func() -> IrFunction {
    func(
        vec![
            block(0, vec![input(0), copy(1, num(1)), copy(2, num(0))], Terminator::Branch(BlockId(1))),
            block(
                1,
                vec![
                    phi(3, vec![(num(0), 0), (val(8), 4)]),
                    phi(4, vec![(val(1), 0), (val(9), 4)]),
                    less(5, val(3), val(0)),
                ],
                branch(val(5), 2, 5),
            ),
            block(2, vec![less(6, val(4), val(2))], branch(val(6), 3, 4)),
            block(3, vec![copy(7, num(99))], Terminator::Branch(BlockId(4))),
            block(
                4,
                vec![
                    phi(9, vec![(val(4), 2), (val(7), 3)]),
                    bin(8, IrBinOp::Add, val(3), val(9)),
                ],
                Terminator::Branch(BlockId(1)),
            ),
            block(
                5,
                vec![bin(10, IrBinOp::Mul, val(3), val(4))],
                Terminator::Return(Some(val(10))),
            ),
        ],
        11,
    )
}

#[test]
fn constant_survives_a_loop() {
    let mut f = loop_func();
    assert!(propagate(&mut f) > 0);
    // The step is 1 in every round, so the block that would change it is never reached.
    assert!(matches!(f.blocks[2].terminator, Terminator::Branch(BlockId(4))));
    match &f.blocks[4].instructions[1] {
        Instruction::BinOp { lhs, rhs, .. } => {
            assert_eq!(*lhs, val(3));
            assert_eq!(*rhs, num(1));
        }
        other => panic!("{:?}", other),
    }
    // A block that is not reached keeps its instructions and is marked.
    assert!(matches!(f.blocks[3].instructions[0], Instruction::Copy { src: Operand::Const(IrConst::I64(99)), .. }));
    assert!(matches!(f.blocks[3].terminator, Terminator::Unreachable));
}

#[test]
fn runs_are_the_same_after_propagation() {
    let before = loop_func();
    let mut after = loop_func();
    propagate(&mut after);
    for n in 0..10 {
        assert_eq!(execute(&before, n), execute(&after, n));
    }
}

#[test]
fn second_propagation_changes_no_operand() {
    let mut f = loop_func();
    propagate(&mut f);
    let once = format!("{:?}", f);
    assert_eq!(propagate(&mut f), 0);
    assert_eq!(format!("{:?}", f), once);
}

#[test]
fn switch_on_a_constant_is_decided() {
    let make = || {
        func(
            vec![
                block(
                    0,
                    vec![copy(0, num(2))],
                    Terminator::Switch {
                        val: val(0),
                        cases: vec![(1, BlockId(1)), (2, BlockId(2)), (2, BlockId(1))],
                        default: BlockId(3),
                        ty: IrType::I64,
                    },
                ),
                block(1, vec![], Terminator::Return(Some(num(10)))),
                block(2, vec![], Terminator::Return(Some(num(20)))),
                block(3, vec![], Terminator::Return(Some(num(30)))),
            ],
            1,
        )
    };
    let mut f = make();
    // The switch, and the two blocks that are not reached.
    assert_eq!(propagate(&mut f), 3);
    assert!(matches!(f.blocks[0].terminator, Terminator::Branch(BlockId(2))));
    assert_eq!(execute(&make(), 0), execute(&f, 0));
}

#[test]
fn switch_without_a_case_takes_the_default() {
    let mut f = func(
        vec![
            block(
                0,
                vec![],
                Terminator::Switch {
                    val: num(5),
                    cases: vec![(1, BlockId(1))],
                    default: BlockId(2),
                    ty: IrType::I64,
                },
            ),
            block(1, vec![], Terminator::Return(None)),
            block(2, vec![], Terminator::Return(None)),
        ],
        1,
    );
    assert_eq!(propagate(&mut f), 2);
    assert!(matches!(f.blocks[1].terminator, Terminator::Unreachable));
    assert!(matches!(f.blocks[0].terminator, Terminator::Branch(BlockId(2))));
}

#[test]
fn select_takes_the_known_side() {
    let mut f = func(
        vec![block(
            0,
            vec![
                input(0),
                copy(1, num(0)),
                Instruction::Select {
                    dest: Value(2),
                    cond: val(1),
                    true_val: val(0),
                    false_val: num(7),
                    ty: IrType::I64,
                },
                bin(3, IrBinOp::Add, val(2), val(0)),
            ],
            Terminator::Return(Some(val(3))),
        )],
        4,
    );
    let before = execute(&f, 5);
    // The condition of the select and one operand of the sum.
    assert_eq!(propagate(&mut f), 2);
    assert!(matches!(
        f.blocks[0].instructions[3],
        Instruction::BinOp { lhs: Operand::Const(IrConst::I64(7)), .. }
    ));
    assert_eq!(execute(&f, 5), before);
}

#[test]
fn results_of_calls_and_loads_are_not_known() {
    let mut f = func(
        vec![block(
            0,
            vec![
                Instruction::Call {
                    func: "g".to_string(),
                    info: CallInfo { dest: Some(Value(0)), args: vec![], return_type: IrType::I64 },
                },
                Instruction::Load { dest: Value(1), ptr: Value(0), ty: IrType::I64 },
                bin(2, IrBinOp::Add, val(0), val(1)),
            ],
            Terminator::Return(Some(val(2))),
        )],
        3,
    );
    let before = format!("{:?}", f);
    assert_eq!(propagate(&mut f), 0);
    assert_eq!(format!("{:?}", f), before);
}

#[test]
fn constancy_is_decided() {
    let ask = |dest: u32, src: Operand| Instruction::UnaryOp {
        dest: Value(dest),
        op: IrUnaryOp::IsConstant,
        src,
        ty: IrType::I32,
    };
    let mut f = func(
        vec![block(
            0,
            vec![
                input(0),
                copy(1, num(4)),
                ask(2, val(0)),
                ask(3, val(1)),
                bin(4, IrBinOp::Add, val(2), val(3)),
            ],
            Terminator::Return(Some(val(4))),
        )],
        5,
    );
    propagate(&mut f);
    match &f.blocks[0].instructions[4] {
        Instruction::BinOp { lhs, rhs, .. } => {
            // That a value is not constant is left open.
            assert_eq!(*lhs, val(2));
            assert_eq!(*rhs, Operand::Const(IrConst::I32(1)));
        }
        other => panic!("{:?}", other),
    }
}

#[test]
fn returned_constant_is_replaced() {
    let mut f = func(
        vec![block(
            0,
            vec![copy(0, num(3)), bin(1, IrBinOp::Add, val(0), val(0))],
            Terminator::Return(Some(val(1))),
        )],
        2,
    );
    // Both operands of the sum, and what is returned.
    assert_eq!(propagate(&mut f), 3);
    assert!(matches!(
        f.blocks[0].terminator,
        Terminator::Return(Some(Operand::Const(IrConst::I64(6))))
    ));
    assert_eq!(propagate(&mut f), 0);
}

#[test]
fn unreached_blocks_are_marked_once() {
    let mut f = func(
        vec![
            block(0, vec![], Terminator::Return(None)),
            // Of what only this block uses, nothing is known once it is marked.
            block(1, vec![copy(1, num(4))], branch(val(0), 0, 1)),
            block(2, vec![], Terminator::Unreachable),
        ],
        2,
    );
    assert_eq!(propagate(&mut f), 1);
    assert!(matches!(f.blocks[0].terminator, Terminator::Return(None)));
    assert!(matches!(f.blocks[1].terminator, Terminator::Unreachable));
    assert_eq!(f.blocks[1].instructions.len(), 1);
    assert_eq!(propagate(&mut f), 0);
}

#[test]
fn definitions_are_found_or_not() {
    let f = func(
        vec![block(
            0,
            vec![input(0), bin(2, IrBinOp::Add, val(0), val(1))],
            Terminator::Return(Some(val(2))),
        )],
        3,
    );
    let info = UseDefInfo::build(&f);
    assert_eq!(info.def_inst(2, &f).unwrap().dest(), Some(Value(2)));
    // A parameter, a value that is not defined, and one out of range.
    assert!(info.def_inst(0, &f).is_none());
    assert!(info.def_inst(1, &f).is_none());
    assert!(info.def_inst(1000, &f).is_none());
    // A function in which the place is not there.
    let other = func(vec![block(0, vec![], Terminator::Return(None))], 3);
    assert!(info.def_inst(2, &other).is_none());
}

#[test]
fn empty_function_is_left_alone() {
    let mut f = func(vec![], 0);
    assert_eq!(propagate(&mut f), 0);
    assert!(f.blocks.is_empty());
}

#[test]
fn value_without_definition_is_not_known() {
    let mut f = func(
        vec![block(
            0,
            vec![bin(1, IrBinOp::Sub, val(0), val(0))],
            Terminator::Return(Some(val(1))),
        )],
        2,
    );
    assert_eq!(propagate(&mut f), 0);
}

// ── Use sites ───────────────────────────────────────────────────────────────

#[test]
fn every_use_has_a_site() {
    let f = loop_func();
    let info = UseDefInfo::build(&f);
    let site = |block_idx: u32, inst_idx: u32| UseLoc { block_idx, inst_idx };
    assert_eq!(info.uses_of(4).to_vec(), vec![site(2, 0), site(4, 0), site(5, 0)]);
    assert_eq!(info.uses_of(5).to_vec(), vec![site(1, TERMINATOR_INDEX)]);
    assert_eq!(info.uses_of(10).to_vec(), vec![site(5, TERMINATOR_INDEX)]);
    assert!(info.uses_of(1000).is_empty());
    for v in 0..11 {
        assert_eq!(info.uses_of(v).len(), info.use_count[v as usize] as usize);
        assert_eq!(info.is_dead(v), info.uses_of(v).is_empty());
        if v > 0 {
            let def = info.def_inst(v, &f).unwrap();
            assert_eq!(def.dest(), Some(Value(v)));
        }
    }
    // A parameter is defined by no instruction.
    assert!(info.def_inst(0, &f).is_none());
    assert!(info.uses_of(5)[0].is_terminator() && !info.uses_of(4)[0].is_terminator());
}

#[test]
fn phi_does_not_use_itself() {
    let f = func(
        vec![
            block(0, vec![], Terminator::Branch(BlockId(1))),
            block(1, vec![phi(0, vec![(num(1), 0), (val(0), 1)])], Terminator::Branch(BlockId(1))),
        ],
        1,
    );
    let info = UseDefInfo::build(&f);
    assert!(info.is_dead(0));
    assert!(info.uses_of(0).is_empty());
}
