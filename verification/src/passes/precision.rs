//! What propagation concludes of one instruction: no less than what the machine does with
//! the values it knows, and no more than is known of them.

use vstd::prelude::*;

use super::execution;
use super::execution::Machine;
use super::lattice;
use super::lattice::LatticeVal;
use super::sccp;
use super::sccp::Facts;
use crate::ir::{
    BasicBlock, BlockId, Instruction, IrBinOp, IrCmpOp, IrConst, IrType, IrUnaryOp, Operand,
    Terminator, Value,
};

verus! {

/// Nothing is known of an operation on what may be anything, and nothing yet of one on what
/// is not reached.
pub proof fn law_unknown_operands(
    v: LatticeVal,
    op: IrBinOp,
    cmp: IrCmpOp,
    unary: IrUnaryOp,
    ty: IrType,
    to: IrType,
)
    ensures
        lattice::binop_value(op, LatticeVal::Bottom, v, ty) is Bottom,
        lattice::binop_value(op, v, LatticeVal::Bottom, ty) is Bottom,
        lattice::comparison_value(cmp, LatticeVal::Bottom, v, ty) is Bottom,
        lattice::comparison_value(cmp, v, LatticeVal::Bottom, ty) is Bottom,
        lattice::unaryop_value(unary, LatticeVal::Bottom, ty) is Bottom,
        lattice::cast_value(LatticeVal::Bottom, ty, to) is Bottom,
        !(v is Bottom) ==> {
            &&& lattice::binop_value(op, LatticeVal::Top, v, ty) is Top
            &&& lattice::binop_value(op, v, LatticeVal::Top, ty) is Top
            &&& lattice::comparison_value(cmp, LatticeVal::Top, v, ty) is Top
            &&& lattice::comparison_value(cmp, v, LatticeVal::Top, ty) is Top
        },
        lattice::unaryop_value(unary, LatticeVal::Top, ty) is Top,
        lattice::cast_value(LatticeVal::Top, ty, to) is Top,
{
}

/// Operations on integers are not folded where an operand is no integer, and those in
/// floating point not where one is no such number.
pub proof fn law_other_constants_are_not_folded(
    l: IrConst,
    r: IrConst,
    op: IrBinOp,
    cmp: IrCmpOp,
    ty: IrType,
)
    requires
        if ty.floating() {
            l.integer() is Some || r.integer() is Some
        } else {
            l.integer() is None || r.integer() is None
        },
    ensures
        lattice::binop_value(op, LatticeVal::Constant(l), LatticeVal::Constant(r), ty) is Bottom,
        lattice::comparison_value(
            cmp,
            LatticeVal::Constant(l),
            LatticeVal::Constant(r),
            ty,
        ) is Bottom,
{
}

/// Knowing less of the operands never lets more be concluded.
pub proof fn law_evaluation_is_monotone(
    a: LatticeVal,
    b: LatticeVal,
    c: LatticeVal,
    d: LatticeVal,
    op: IrBinOp,
    cmp: IrCmpOp,
    unary: IrUnaryOp,
    ty: IrType,
    to: IrType,
)
    requires
        a.at_most(c),
        b.at_most(d),
    ensures
        lattice::binop_value(op, a, b, ty).at_most(lattice::binop_value(op, c, d, ty)),
        lattice::comparison_value(cmp, a, b, ty).at_most(
            lattice::comparison_value(cmp, c, d, ty),
        ),
        lattice::unaryop_value(unary, a, ty).at_most(lattice::unaryop_value(unary, c, ty)),
        lattice::cast_value(a, ty, to).at_most(lattice::cast_value(c, ty, to)),
{
}

/// The operand is known to be a constant, and the machine has it.
pub open spec fn known_operand(op: Operand, known: Seq<LatticeVal>, values: Map<u32, IrConst>) -> bool {
    &&& sccp::resolved(op, known) is Constant
    &&& execution::value_of(op, values) == sccp::resolved(op, known).constant()
}

/// Of an operation on known operands just what the machine writes is concluded: a constant
/// if it can write nothing else.
pub proof fn law_known_operands_are_enough(
    labels: Map<u32, u32>,
    inst: Instruction,
    b: u32,
    f: Facts,
    m: Machine,
    c: IrConst,
)
    requires
        match inst {
            Instruction::Copy { src, .. } => known_operand(src, f.lattice, m.values),
            Instruction::BinOp { lhs, rhs, .. } => known_operand(lhs, f.lattice, m.values)
                && known_operand(rhs, f.lattice, m.values),
            Instruction::Cmp { lhs, rhs, .. } => known_operand(lhs, f.lattice, m.values)
                && known_operand(rhs, f.lattice, m.values),
            Instruction::UnaryOp { src, .. } => known_operand(src, f.lattice, m.values),
            Instruction::Cast { src, .. } => known_operand(src, f.lattice, m.values),
            Instruction::Select { cond, true_val, false_val, .. } => {
                &&& known_operand(cond, f.lattice, m.values)
                &&& known_operand(
                    if execution::holds_true(execution::value_of(cond, m.values)->0) {
                        true_val
                    } else {
                        false_val
                    },
                    f.lattice,
                    m.values,
                )
            },
            _ => false,
        },
        forall|e: IrConst| #[trigger]
            execution::may_write(labels, inst, f.lattice, m, e) ==> e == c,
    ensures
        inst.defines() is Some,
        sccp::transfer(labels, inst, b, f) == Some(
            (inst.defines()->Some_0.0, LatticeVal::Constant(c)),
        ),
{
    let v = sccp::transfer(labels, inst, b, f)->Some_0.1;
    match inst {
        Instruction::Select { cond, .. } => {
            execution::law_conditions_are_decided_by_integers(
                execution::value_of(cond, m.values)->0,
            );
        },
        _ => {},
    }
    if let LatticeVal::Constant(e) = v {
        assert(execution::may_write(labels, inst, f.lattice, m, e));
    } else {
        // What is not folded may be anything.
        assert(execution::may_write(labels, inst, f.lattice, m, IrConst::I8(0)));
        assert(execution::may_write(labels, inst, f.lattice, m, IrConst::I8(1)));
    }
}

/// A choice is the operand that a known condition chooses, and the meet of both where the
/// condition may be anything. A copy is what it copies.
pub proof fn law_choices_and_copies(
    labels: Map<u32, u32>,
    inst: Instruction,
    b: u32,
    f: Facts,
    low: LatticeVal,
)
    ensures
        inst matches Instruction::Select { dest, cond, true_val, false_val, .. } ==> {
            let (d, v) = sccp::transfer(labels, inst, b, f)->0;
            let x = sccp::resolved(true_val, f.lattice);
            let y = sccp::resolved(false_val, f.lattice);
            &&& sccp::transfer(labels, inst, b, f) is Some && d == dest.0
            &&& match sccp::resolved(cond, f.lattice) {
                LatticeVal::Top => v is Top,
                LatticeVal::Constant(c) => v == if execution::holds_true(c) {
                    x
                } else {
                    y
                },
                LatticeVal::Bottom => {
                    &&& v.at_most(x) && v.at_most(y)
                    &&& low.at_most(x) && low.at_most(y) ==> low.at_most(v)
                },
            }
        },
        inst matches Instruction::Copy { dest, src } ==> sccp::transfer(labels, inst, b, f) == Some(
            (dest.0, sccp::resolved(src, f.lattice)),
        ),
{
    if let Instruction::Select { cond, true_val, false_val, .. } = inst {
        if let LatticeVal::Constant(c) = sccp::resolved(cond, f.lattice) {
            execution::law_conditions_are_decided_by_integers(c);
        }
        lattice::law_meet(
            sccp::resolved(true_val, f.lattice),
            sccp::resolved(false_val, f.lattice),
            low,
        );
    }
}

/// The incoming operand of a phi counts: it comes over an edge that can be taken, and is
/// not the phi itself.
pub open spec fn comes_over(
    labels: Map<u32, u32>,
    incoming: Seq<(Operand, BlockId)>,
    dest: u32,
    b: u32,
    f: Facts,
    k: int,
) -> bool {
    &&& f.edges.contains((labels[incoming[k].1.0], b))
    &&& incoming[k].0 != Operand::Value(Value(dest))
}

/// A phi is the meet of the operands that count: it is at most each of them, and whatever is
/// at most each of them is at most the phi.
pub proof fn law_phi_is_the_meet(
    labels: Map<u32, u32>,
    incoming: Seq<(Operand, BlockId)>,
    dest: u32,
    b: u32,
    f: Facts,
    n: nat,
    low: LatticeVal,
)
    requires
        n <= incoming.len(),
        forall|k: int| 0 <= k < n ==> labels.contains_key((#[trigger] incoming[k]).1.0),
    ensures
        forall|k: int|
            0 <= k < n && #[trigger] comes_over(labels, incoming, dest, b, f, k)
                ==> sccp::phi_value(labels, incoming, dest, b, f, n).at_most(
                sccp::resolved(incoming[k].0, f.lattice),
            ),
        (forall|k: int|
            0 <= k < n && #[trigger] comes_over(labels, incoming, dest, b, f, k) ==> low.at_most(
                sccp::resolved(incoming[k].0, f.lattice),
            )) ==> low.at_most(sccp::phi_value(labels, incoming, dest, b, f, n)),
    decreases n,
{
    if n > 0 {
        law_phi_is_the_meet(labels, incoming, dest, b, f, (n - 1) as nat, low);
        let before = sccp::phi_value(labels, incoming, dest, b, f, (n - 1) as nat);
        let last = sccp::resolved(incoming[n - 1].0, f.lattice);
        assert(labels.contains_key(incoming[n - 1].1.0));
        let now = sccp::phi_value(labels, incoming, dest, b, f, n);
        let counts = comes_over(labels, incoming, dest, b, f, n - 1);
        assert(now == if counts {
            before.met(last)
        } else {
            before
        });
        lattice::law_meet(before, last, low);
        if forall|k: int|
            0 <= k < n && #[trigger] comes_over(labels, incoming, dest, b, f, k) ==> low.at_most(
                sccp::resolved(incoming[k].0, f.lattice),
            ) {
            assert forall|k: int|
                0 <= k < n - 1 && #[trigger] comes_over(
                    labels,
                    incoming,
                    dest,
                    b,
                    f,
                    k,
                ) implies low.at_most(sccp::resolved(incoming[k].0, f.lattice)) by {}
            assert(low.at_most(before));
            assert(counts ==> low.at_most(last));
        }
        assert forall|k: int|
            0 <= k < n && #[trigger] comes_over(labels, incoming, dest, b, f, k) implies
            sccp::phi_value(labels, incoming, dest, b, f, n).at_most(
            sccp::resolved(incoming[k].0, f.lattice),
        ) by {
            let one = sccp::resolved(incoming[k].0, f.lattice);
            if k < n - 1 {
                lattice::law_meet(before.met(last), before, one);
            }
        }
    }
}

/// A terminator whose condition is a constant leads to one block only, and to none before
/// anything is known of it.
pub proof fn law_decided_terminators_lead_one_way(
    term: Terminator,
    known: Seq<LatticeVal>,
    values: Map<u32, IrConst>,
    target: BlockId,
)
    requires
        match term {
            Terminator::CondBranch { cond, .. } => known_operand(cond, known, values),
            Terminator::Switch { val, .. } => known_operand(val, known, values),
            Terminator::Branch(_) => true,
            _ => false,
        },
    ensures
        sccp::taken(term, known).contains(target) <==> execution::may_lead_to(
            term,
            values,
            target,
        ),
        sccp::rewritten_term(term, known) matches Terminator::Branch(t) ==> execution::may_lead_to(
            term,
            values,
            t,
        ),
        term is CondBranch ==> sccp::rewritten_term(term, known) is Branch,
{
    let all = sccp::taken(term, known);
    match term {
        Terminator::CondBranch { cond, .. } => {
            execution::law_conditions_are_decided_by_integers(
                execution::value_of(cond, values)->0,
            );
        },
        Terminator::Switch { val, cases, default, .. } => {
            execution::law_switches_are_decided_by_integers(
                execution::value_of(val, values)->0,
                cases@,
                default,
            );
        },
        _ => {},
    }
    assert(all.len() == 1);
    if execution::may_lead_to(term, values, target) {
        assert(all[0] == target);
    }
    if all.contains(target) {
        assert(all[0] == target);
    }
}

/// A block is found by its label, if no other has the same, and a label that no block has
/// leads nowhere.
pub proof fn law_blocks_are_found_by_label(blocks: Seq<BasicBlock>, b: int, label: u32)
    requires
        blocks.len() <= u32::MAX,
    ensures
        0 <= b < blocks.len() && (forall|k: int|
            0 <= k < blocks.len() && k != b ==> (#[trigger] blocks[k]).label != blocks[b].label)
            ==> sccp::index_map(blocks).contains_key(blocks[b].label.0) && sccp::index_map(
            blocks,
        )[blocks[b].label.0] == b,
        sccp::index_map(blocks).contains_key(label) ==> sccp::index_map(blocks)[label]
            < blocks.len() && blocks[sccp::index_map(blocks)[label] as int].label.0 == label,
        (forall|k: int| 0 <= k < blocks.len() ==> (#[trigger] blocks[k]).label.0 != label)
            ==> !sccp::index_map(blocks).contains_key(label),
{
    lemma_index(blocks, label, blocks.len());
    if 0 <= b < blocks.len() {
        lemma_index(blocks, blocks[b].label.0, blocks.len());
    }
}

proof fn lemma_index(blocks: Seq<BasicBlock>, label: u32, n: nat)
    requires
        n <= blocks.len() <= u32::MAX,
    ensures
        match sccp::index_of(blocks, label, n) {
            Some(k) => k < n && blocks[k as int].label.0 == label,
            None => forall|k: int| 0 <= k < n ==> (#[trigger] blocks[k]).label.0 != label,
        },
    decreases n,
{
    if n > 0 {
        lemma_index(blocks, label, (n - 1) as nat);
    }
}

} // verus!
