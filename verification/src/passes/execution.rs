//! Running a function of the intermediate representation, and what constant
//! propagation says of its runs: a value found constant has that value whenever it is
//! written, a block that was not reached is never entered, and the rewritten function
//! has the same runs.

use vstd::prelude::*;

use super::fixpoint;
use super::lattice;
use super::lattice::LatticeVal;
use super::sccp;
use super::sccp::Facts;
use super::use_def::UseDefInfo;
use crate::ir::{
    BasicBlock, BlockId, Instruction, IrConst, IrFunction, Operand, Terminator, Value,
};

verus! {

// ── Runs ────────────────────────────────────────────────────────────────────

/// A function at some point of a run.
pub struct Machine {
    /// The block that is executed.
    pub block: u32,
    /// The block that it was entered from.
    pub from: Option<u32>,
    /// The instruction that is next.
    pub pos: nat,
    /// The values written so far.
    pub values: Map<u32, IrConst>,
    /// Those written before the block was entered, which phis read.
    pub entry: Map<u32, IrConst>,
}

/// The value of an operand, if it was written.
pub open spec fn value_of(op: Operand, values: Map<u32, IrConst>) -> Option<IrConst> {
    match op {
        Operand::Const(c) => Some(c),
        Operand::Value(v) => if values.contains_key(v.0) {
            Some(values[v.0])
        } else {
            None
        },
    }
}

/// A condition with this value holds. An integer does if it is not zero, and a number in
/// floating point if it has a bit other than its sign. A long double always does.
pub open spec fn holds_true(c: IrConst) -> bool {
    match c {
        IrConst::F32(b) => b % 0x8000_0000 != 0,
        IrConst::F64(b) => b % 0x8000_0000_0000_0000 != 0,
        IrConst::LongDouble(_, _) => true,
        _ => c.integer() != Some(0int),
    }
}

/// A switch on `v` leads to the label of the first case for `v`, or by default where there
/// is none.
pub open spec fn picks(
    cases: Seq<(i64, BlockId)>,
    v: int,
    default: BlockId,
    target: BlockId,
) -> bool {
    if exists|k: int| 0 <= k < cases.len() && (#[trigger] cases[k]).0 == v {
        exists|k: int| #[trigger] is_first_case(cases, v, k) && cases[k].1 == target
    } else {
        target == default
    }
}

pub open spec fn is_first_case(cases: Seq<(i64, BlockId)>, v: int, k: int) -> bool {
    &&& 0 <= k < cases.len()
    &&& cases[k].0 == v
    &&& forall|j: int| 0 <= j < k ==> (#[trigger] cases[j]).0 != v
}

/// Branches on a constant are decided by the integer that it is: they are taken unless
/// that is zero. A zero in floating point, of either sign, counts as zero.
pub proof fn law_conditions_are_decided_by_integers(c: IrConst)
    ensures
        lattice::nonzero(c) == holds_true(c),
        c.integer() matches Some(v) ==> lattice::nonzero(c) == (v != 0),
        c matches IrConst::F32(b) ==> lattice::nonzero(c) == (b != 0 && b != 0x8000_0000),
        c matches IrConst::F64(b) ==> lattice::nonzero(c) == (b != 0 && b
            != 0x8000_0000_0000_0000),
{
}

/// A switch on a constant takes the first case that is the integer that it is.
pub proof fn law_switches_are_decided_by_integers(
    c: IrConst,
    cases: Seq<(i64, BlockId)>,
    default: BlockId,
)
    ensures
        ({
            let target = match c.as_i64() {
                Some(v) => sccp::case_from(cases, v, 0, default),
                None => default,
            };
            match c.integer() {
                Some(v) => forall|t: BlockId| #[trigger]
                    picks(cases, v, default, t) <==> t == target,
                None => target == default,
            }
        }),
{
    if let Some(v) = c.as_i64() {
        lemma_first_case(cases, v, 0, default);
    }
}

proof fn lemma_first_case(cases: Seq<(i64, BlockId)>, v: i64, k: int, default: BlockId)
    requires
        0 <= k,
        forall|j: int| 0 <= j < k && j < cases.len() ==> (#[trigger] cases[j]).0 != v,
    ensures
        forall|t: BlockId| #[trigger]
            picks(cases, v as int, default, t) <==> t == sccp::case_from(cases, v, k, default),
    decreases cases.len() - k,
{
    if k < cases.len() {
        if cases[k].0 == v {
            assert(is_first_case(cases, v as int, k));
            assert forall|t: BlockId| #[trigger]
                picks(cases, v as int, default, t) <==> t == cases[k].1 by {
                if picks(cases, v as int, default, t) {
                    let n = choose|n: int| #[trigger]
                        is_first_case(cases, v as int, n) && cases[n].1 == t;
                    assert(n == k);
                }
            }
        } else {
            lemma_first_case(cases, v, k + 1, default);
        }
    }
}

/// An operation whose folded result is `result` may give `c`. One that is not folded
/// may give anything.
pub open spec fn allows(result: Option<IrConst>, c: IrConst) -> bool {
    result is None || result == Some(c)
}

/// The `k`th incoming operand of a phi is that for the block that was left, and has
/// the value `c`.
pub open spec fn comes_in(
    labels: Map<u32, u32>,
    incoming: Seq<(Operand, BlockId)>,
    k: int,
    m: Machine,
    c: IrConst,
) -> bool {
    &&& 0 <= k < incoming.len()
    &&& labels.contains_key(incoming[k].1.0)
    &&& m.from == Some(labels[incoming[k].1.0])
    &&& value_of(incoming[k].0, m.entry) == Some(c)
}

/// The instruction may write `c`. Whether a value is constant is asked of the compiler:
/// of one that is constant by `known` it says so, of another it may say either.
pub open spec fn may_write(
    labels: Map<u32, u32>,
    inst: Instruction,
    known: Seq<LatticeVal>,
    m: Machine,
    c: IrConst,
) -> bool {
    match inst {
        Instruction::Copy { src, .. } => value_of(src, m.values) == Some(c),
        Instruction::BinOp { op, lhs, rhs, ty, .. } => match (
            value_of(lhs, m.values),
            value_of(rhs, m.values),
        ) {
            (Some(l), Some(r)) => allows(lattice::binop_const(op, l, r, ty), c),
            _ => false,
        },
        Instruction::UnaryOp { op, src, ty, .. } => match value_of(src, m.values) {
            Some(s) => if op is IsConstant {
                c == lattice::truth(true) || (c == lattice::truth(false) && !(sccp::resolved(
                    src,
                    known,
                ) is Constant))
            } else {
                allows(lattice::unaryop_const(op, s, ty), c)
            },
            None => false,
        },
        Instruction::Cmp { op, lhs, rhs, ty, .. } => match (
            value_of(lhs, m.values),
            value_of(rhs, m.values),
        ) {
            (Some(l), Some(r)) => allows(lattice::compared_const(op, l, r, ty), c),
            _ => false,
        },
        Instruction::Cast { src, from_ty, to_ty, .. } => match value_of(src, m.values) {
            Some(s) => allows(lattice::cast_const(s, from_ty, to_ty), c),
            None => false,
        },
        Instruction::Select { cond, true_val, false_val, .. } => match value_of(cond, m.values) {
            Some(k) => value_of(
                if holds_true(k) {
                    true_val
                } else {
                    false_val
                },
                m.values,
            ) == Some(c),
            None => false,
        },
        Instruction::Phi { incoming, .. } => exists|k: int|
            #[trigger] comes_in(labels, incoming@, k, m, c),
        _ => true,
    }
}

/// The terminator may lead to `target`.
pub open spec fn may_lead_to(
    term: Terminator,
    values: Map<u32, IrConst>,
    target: BlockId,
) -> bool {
    match term {
        Terminator::Branch(t) => target == t,
        Terminator::CondBranch { cond, true_label, false_label } => match value_of(cond, values) {
            Some(c) => target == if holds_true(c) {
                true_label
            } else {
                false_label
            },
            None => false,
        },
        Terminator::Switch { val, cases, default, .. } => match value_of(val, values) {
            Some(c) => match c.integer() {
                Some(v) => picks(cases@, v, default, target),
                None => target == default,
            },
            None => false,
        },
        Terminator::IndirectBranch { possible_targets, .. } => possible_targets@.contains(target),
        Terminator::Return(_) => false,
        Terminator::Unreachable => false,
    }
}

/// Executing an instruction takes `m` to `n`.
pub open spec fn executes(
    labels: Map<u32, u32>,
    inst: Instruction,
    known: Seq<LatticeVal>,
    m: Machine,
    n: Machine,
) -> bool {
    match inst.defines() {
        None => n == (Machine { pos: m.pos + 1, ..m }),
        Some(d) => exists|c: IrConst| #[trigger]
            may_write(labels, inst, known, m, c) && n == (Machine {
                pos: m.pos + 1,
                values: m.values.insert(d.0, c),
                ..m
            }),
    }
}

/// Executing a terminator takes `m` to `n`.
pub open spec fn jumps(
    labels: Map<u32, u32>,
    term: Terminator,
    m: Machine,
    n: Machine,
) -> bool {
    exists|target: BlockId| #[trigger]
        may_lead_to(term, m.values, target) && labels.contains_key(target.0) && n == (Machine {
            block: labels[target.0],
            from: Some(m.block),
            pos: 0,
            values: m.values,
            entry: m.values,
        })
}

/// One step takes `m` to `n`.
pub open spec fn moves(
    blocks: Seq<BasicBlock>,
    known: Seq<LatticeVal>,
    m: Machine,
    n: Machine,
) -> bool {
    let labels = sccp::index_map(blocks);
    let block = blocks[m.block as int];
    &&& m.block < blocks.len()
    &&& m.pos <= block.instructions@.len()
    &&& if m.pos < block.instructions@.len() {
        executes(labels, block.instructions@[m.pos as int], known, m, n)
    } else {
        jumps(labels, block.terminator, m, n)
    }
}

/// A run starts at the entry block, with nothing written.
pub open spec fn begins(m: Machine) -> bool {
    m == (Machine {
        block: 0,
        from: None,
        pos: 0,
        values: Map::empty(),
        entry: Map::empty(),
    })
}

/// `t` is a run, or the first part of one.
pub open spec fn is_run(
    blocks: Seq<BasicBlock>,
    known: Seq<LatticeVal>,
    t: Seq<Machine>,
) -> bool {
    &&& t.len() > 0
    &&& begins(t[0])
    &&& blocks.len() > 0
    &&& forall|i: int| 0 < i < t.len() ==> moves(blocks, known, t[i - 1], #[trigger] t[i])
}

// ── What is concluded holds of every run ────────────────────────────────────

/// A lattice value allows the constant.
pub open spec fn admits(v: LatticeVal, c: IrConst) -> bool {
    v is Bottom || v == LatticeVal::Constant(c)
}

/// What was written is what the lattice allows.
pub open spec fn all_admitted(known: Seq<LatticeVal>, values: Map<u32, IrConst>) -> bool {
    forall|v: u32| #[trigger] values.contains_key(v) && v < known.len() ==> admits(
        known[v as int],
        values[v],
    )
}

/// The machine is where the conclusions say that it can be.
pub open spec fn within(f: Facts, m: Machine) -> bool {
    &&& m.block < f.reached.len()
    &&& f.reached[m.block as int]
    &&& all_admitted(f.lattice, m.values)
    &&& all_admitted(f.lattice, m.entry)
    &&& m.from is Some ==> f.edges.contains((m.from->0, m.block))
}

proof fn lemma_operand_admitted(op: Operand, known: Seq<LatticeVal>, values: Map<u32, IrConst>)
    requires
        all_admitted(known, values),
        value_of(op, values) is Some,
    ensures
        admits(sccp::resolved(op, known), value_of(op, values)->0),
{
}

/// A phi is at most each operand that it counts.
proof fn lemma_phi_at_most(
    labels: Map<u32, u32>,
    incoming: Seq<(Operand, BlockId)>,
    dest: u32,
    b: u32,
    f: Facts,
    n: nat,
    k: int,
)
    requires
        0 <= k < n <= incoming.len(),
        labels.contains_key(incoming[k].1.0),
        f.edges.contains((labels[incoming[k].1.0], b)),
        incoming[k].0 != Operand::Value(crate::ir::Value(dest)),
    ensures
        sccp::phi_value(labels, incoming, dest, b, f, n).at_most(
            sccp::resolved(incoming[k].0, f.lattice),
        ),
    decreases n,
{
    if k < n - 1 {
        lemma_phi_at_most(labels, incoming, dest, b, f, (n - 1) as nat, k);
    }
}

/// A stable instruction writes what its destination allows.
proof fn lemma_written_admitted(
    labels: Map<u32, u32>,
    inst: Instruction,
    f: Facts,
    m: Machine,
    c: IrConst,
)
    requires
        within(f, m),
        fixpoint::stable_inst(labels, inst, m.block, f),
        inst.defines() is Some,
        may_write(labels, inst, f.lattice, m, c),
        inst.defines()->Some_0.0 < f.lattice.len(),
    ensures
        admits(f.lattice[inst.defines()->Some_0.0 as int], c),
{
    let d = inst.defines()->Some_0.0;
    let (e, v) = sccp::transfer(labels, inst, m.block, f)->Some_0;
    assert(sccp::transfer(labels, inst, m.block, f) is Some && e == d);
    let low = f.lattice[d as int];
    if low.met(v) != low {
        assert(sccp::evaluated(labels, inst, m.block, f).lattice[d as int] == low.met(v));
    }
    match inst {
        Instruction::Phi { incoming, .. } => {
            let k = choose|k: int| #[trigger] comes_in(labels, incoming@, k, m, c);
            let op = incoming@[k].0;
            lemma_operand_admitted(op, f.lattice, m.entry);
            if op != Operand::Value(crate::ir::Value(d)) {
                lemma_phi_at_most(labels, incoming@, d, m.block, f, incoming@.len(), k);
            }
        },
        Instruction::Copy { src, .. } => lemma_operand_admitted(src, f.lattice, m.values),
        Instruction::BinOp { lhs, rhs, .. } => {
            lemma_operand_admitted(lhs, f.lattice, m.values);
            lemma_operand_admitted(rhs, f.lattice, m.values);
        },
        Instruction::UnaryOp { src, .. } => lemma_operand_admitted(src, f.lattice, m.values),
        Instruction::Cmp { lhs, rhs, .. } => {
            lemma_operand_admitted(lhs, f.lattice, m.values);
            lemma_operand_admitted(rhs, f.lattice, m.values);
        },
        Instruction::Cast { src, .. } => lemma_operand_admitted(src, f.lattice, m.values),
        Instruction::Select { cond, true_val, false_val, .. } => {
            lemma_operand_admitted(cond, f.lattice, m.values);
            law_conditions_are_decided_by_integers(value_of(cond, m.values)->0);
            if holds_true(value_of(cond, m.values)->0) {
                lemma_operand_admitted(true_val, f.lattice, m.values);
            } else {
                lemma_operand_admitted(false_val, f.lattice, m.values);
            }
        },
        _ => {},
    }
}

pub proof fn lemma_case_among(cases: Seq<(i64, BlockId)>, v: i64, k: int, default: BlockId)
    requires
        0 <= k,
    ensures
        sccp::case_labels(cases).push(default).contains(sccp::case_from(cases, v, k, default)),
    decreases cases.len() - k,
{
    let all = sccp::case_labels(cases).push(default);
    if k >= cases.len() {
        assert(all[cases.len() as int] == default);
    } else if cases[k].0 == v {
        assert(all[k] == cases[k].1);
    } else {
        lemma_case_among(cases, v, k + 1, default);
    }
}

/// A terminator leads to a block that was taken to be possible.
#[verifier::spinoff_prover]
proof fn lemma_target_taken(
    term: Terminator,
    known: Seq<LatticeVal>,
    values: Map<u32, IrConst>,
    target: BlockId,
)
    requires
        all_admitted(known, values),
        may_lead_to(term, values, target),
    ensures
        sccp::taken(term, known).contains(target),
{
    let all = sccp::taken(term, known);
    match term {
        Terminator::Branch(t) => {
            assert(all.len() == 1 && all[0] == target);
            assert(all.contains(target));
        },
        Terminator::CondBranch { cond, true_label, false_label } => {
            lemma_operand_admitted(cond, known, values);
            law_conditions_are_decided_by_integers(value_of(cond, values)->0);
            assert(all[0] == target || all[1] == target);
            assert(all.contains(target));
        },
        Terminator::Switch { val, cases, default, .. } => {
            lemma_operand_admitted(val, known, values);
            let c = value_of(val, values)->0;
            law_switches_are_decided_by_integers(c, cases@, default);
            let t = match c.as_i64() {
                Some(v) => sccp::case_from(cases@, v, 0, default),
                None => default,
            };
            assert(target == t);
            if sccp::resolved(val, known) is Bottom {
                match c.as_i64() {
                    Some(v) => lemma_case_among(cases@, v, 0, default),
                    None => {
                        assert(all[cases@.len() as int] == default);
                    },
                }
                assert(all.contains(target));
            } else {
                assert(all[0] == target);
                assert(all.contains(target));
            }
        },
        Terminator::IndirectBranch { possible_targets, .. } => {
            assert(all.contains(target));
        },
        _ => {},
    }
}

proof fn lemma_move_stays_within(blocks: Seq<BasicBlock>, f: Facts, m: Machine, n: Machine)
    requires
        fixpoint::fixpoint(sccp::index_map(blocks), blocks, f),
        within(f, m),
        moves(blocks, f.lattice, m, n),
    ensures
        within(f, n),
{
    let labels = sccp::index_map(blocks);
    let block = blocks[m.block as int];
    if m.pos < block.instructions@.len() {
        let inst = block.instructions@[m.pos as int];
        assert(fixpoint::stable_inst(labels, inst, m.block, f));
        if let Some(d) = inst.defines() {
            let c = choose|c: IrConst| #[trigger]
                may_write(labels, inst, f.lattice, m, c) && n == (Machine {
                    pos: m.pos + 1,
                    values: m.values.insert(d.0, c),
                    ..m
                });
            if d.0 < f.lattice.len() {
                lemma_written_admitted(labels, inst, f, m, c);
            }
        }
    } else {
        let term = block.terminator;
        let target = choose|target: BlockId| #[trigger]
            may_lead_to(term, m.values, target) && labels.contains_key(target.0) && n == (Machine {
                block: labels[target.0],
                from: Some(m.block),
                pos: 0,
                values: m.values,
                entry: m.values,
            });
        lemma_target_taken(term, f.lattice, m.values, target);
        let all = sccp::taken(term, f.lattice);
        let k = choose|k: int| 0 <= k < all.len() && all[k] == target;
        assert(fixpoint::stable_term(labels, term, m.block, f));
        assert(f.edges.contains((m.block, labels[all[k].0])));
    }
}

/// In every run only blocks that were reached are entered, over edges that were found
/// executable, and a value that was found constant is that constant once it is
/// written.
pub proof fn law_runs_stay_within_conclusions(
    func: IrFunction,
    info: UseDefInfo,
    t: Seq<Machine>,
    i: int,
)
    requires
        info.describes(func),
        fixpoint::indexable(func.blocks@),
        is_run(func.blocks@, sccp::conclusions(func, info).lattice, t),
        0 <= i < t.len(),
    ensures
        within(sccp::conclusions(func, info), t[i]),
    decreases i,
{
    fixpoint::law_conclusions_are_a_fixpoint(func, info);
    if i > 0 {
        law_runs_stay_within_conclusions(func, info, t, i - 1);
        assert(moves(func.blocks@, sccp::conclusions(func, info).lattice, t[i - 1], t[i]));
        lemma_move_stays_within(func.blocks@, sccp::conclusions(func, info), t[i - 1], t[i]);
    }
}

// ── Rewriting keeps the runs ────────────────────────────────────────────────

/// All of `values` were written.
pub open spec fn all_written(used: Seq<u32>, values: Map<u32, IrConst>) -> bool {
    forall|v: u32| #[trigger] used.contains(v) ==> values.contains_key(v)
}

/// What the next step reads was written before: the operands of the instruction or of
/// the terminator, and of a phi the operand for the block that was left.
pub open spec fn reads_written(blocks: Seq<BasicBlock>, m: Machine) -> bool {
    let labels = sccp::index_map(blocks);
    let block = blocks[m.block as int];
    if m.pos < block.instructions@.len() {
        match block.instructions@[m.pos as int] {
            Instruction::Phi { incoming, .. } => forall|k: int|
                0 <= k < incoming@.len() && labels.contains_key((#[trigger] incoming@[k]).1.0)
                    && m.from == Some(labels[incoming@[k].1.0]) ==> value_of(
                    incoming@[k].0,
                    m.entry,
                ) is Some,
            inst => all_written(inst.used(), m.values),
        }
    } else {
        all_written(block.terminator.used(), m.values)
    }
}

/// A rewritten operand has the value that the operand has, if that was written.
proof fn lemma_rewritten_value(op: Operand, known: Seq<LatticeVal>, values: Map<u32, IrConst>)
    requires
        all_admitted(known, values),
    ensures
        value_of(op, values) is Some ==> value_of(sccp::rewritten_op(op, known), values)
            == value_of(op, values),
        sccp::resolved(sccp::rewritten_op(op, known), known) is Constant == (sccp::resolved(
            op,
            known,
        ) is Constant),
{
}

proof fn lemma_written_parts(a: Seq<u32>, b: Seq<u32>, values: Map<u32, IrConst>)
    requires
        all_written(a + b, values),
    ensures
        all_written(a, values),
        all_written(b, values),
{
    assert forall|v: u32| #[trigger] a.contains(v) implies values.contains_key(v) by {
        let k = choose|k: int| 0 <= k < a.len() && a[k] == v;
        assert((a + b)[k] == v);
        assert((a + b).contains(v));
    }
    assert forall|v: u32| #[trigger] b.contains(v) implies values.contains_key(v) by {
        let k = choose|k: int| 0 <= k < b.len() && b[k] == v;
        assert((a + b)[a.len() + k] == v);
        assert((a + b).contains(v));
    }
}

proof fn lemma_written_op(op: Operand, values: Map<u32, IrConst>)
    requires
        all_written(op.used(), values),
    ensures
        value_of(op, values) is Some,
{
    if let Operand::Value(v) = op {
        assert(op.used()[0] == v.0);
        assert(op.used().contains(v.0));
    }
}

/// A rewritten instruction may write the same.
proof fn lemma_rewritten_writes(
    labels: Map<u32, u32>,
    inst: Instruction,
    new: Instruction,
    f: Facts,
    m: Machine,
    c: IrConst,
    read: bool,
)
    requires
        within(f, m),
        sccp::inst_rewritten(inst, new, f.lattice),
        read && !(inst is Phi) ==> all_written(inst.used(), m.values),
        read && inst is Phi ==> forall|k: int|
            0 <= k < inst->incoming@.len() && labels.contains_key(
                (#[trigger] inst->incoming@[k]).1.0,
            ) && m.from == Some(labels[inst->incoming@[k].1.0]) ==> value_of(
                inst->incoming@[k].0,
                m.entry,
            ) is Some,
    ensures
        may_write(labels, inst, f.lattice, m, c) ==> may_write(labels, new, f.lattice, m, c),
        read && may_write(labels, new, f.lattice, m, c) ==> may_write(
            labels,
            inst,
            f.lattice,
            m,
            c,
        ),
        new.defines() == inst.defines(),
{
    let known = f.lattice;
    match inst {
        Instruction::Copy { src, .. } => {
            lemma_rewritten_value(src, known, m.values);
            if read {
                lemma_written_op(src, m.values);
            }
        },
        Instruction::BinOp { lhs, rhs, .. } => {
            lemma_rewritten_value(lhs, known, m.values);
            lemma_rewritten_value(rhs, known, m.values);
            if read {
                lemma_written_parts(lhs.used(), rhs.used(), m.values);
                lemma_written_op(lhs, m.values);
                lemma_written_op(rhs, m.values);
            }
        },
        Instruction::UnaryOp { src, .. } => {
            lemma_rewritten_value(src, known, m.values);
            if read {
                lemma_written_op(src, m.values);
            }
        },
        Instruction::Cmp { lhs, rhs, .. } => {
            lemma_rewritten_value(lhs, known, m.values);
            lemma_rewritten_value(rhs, known, m.values);
            if read {
                lemma_written_parts(lhs.used(), rhs.used(), m.values);
                lemma_written_op(lhs, m.values);
                lemma_written_op(rhs, m.values);
            }
        },
        Instruction::Cast { src, .. } => {
            lemma_rewritten_value(src, known, m.values);
            if read {
                lemma_written_op(src, m.values);
            }
        },
        Instruction::Select { cond, true_val, false_val, .. } => {
            lemma_rewritten_value(cond, known, m.values);
            lemma_rewritten_value(true_val, known, m.values);
            lemma_rewritten_value(false_val, known, m.values);
            if read {
                lemma_written_parts(cond.used() + true_val.used(), false_val.used(), m.values);
                lemma_written_parts(cond.used(), true_val.used(), m.values);
                lemma_written_op(cond, m.values);
                lemma_written_op(true_val, m.values);
                lemma_written_op(false_val, m.values);
            }
        },
        Instruction::Phi { incoming, .. } => {
            let other = new->incoming@;
            if may_write(labels, inst, known, m, c) {
                let k = choose|k: int| #[trigger] comes_in(labels, incoming@, k, m, c);
                lemma_rewritten_value(incoming@[k].0, known, m.entry);
                assert(comes_in(labels, other, k, m, c));
            }
            if read && may_write(labels, new, known, m, c) {
                let k = choose|k: int| #[trigger] comes_in(labels, other, k, m, c);
                lemma_rewritten_value(incoming@[k].0, known, m.entry);
                assert(comes_in(labels, incoming@, k, m, c));
            }
        },
        _ => {},
    }
}

/// A rewritten terminator may lead to the same blocks.
proof fn lemma_rewritten_leads(
    term: Terminator,
    known: Seq<LatticeVal>,
    values: Map<u32, IrConst>,
    target: BlockId,
    read: bool,
)
    requires
        all_admitted(known, values),
        read ==> all_written(term.used(), values),
    ensures
        may_lead_to(term, values, target) ==> may_lead_to(
            sccp::rewritten_term(term, known),
            values,
            target,
        ),
        read && may_lead_to(sccp::rewritten_term(term, known), values, target) ==> may_lead_to(
            term,
            values,
            target,
        ),
{
    match term {
        Terminator::CondBranch { cond, .. } => {
            if read {
                lemma_written_op(cond, values);
            }
            if value_of(cond, values) is Some {
                lemma_operand_admitted(cond, known, values);
                law_conditions_are_decided_by_integers(value_of(cond, values)->0);
            }
        },
        Terminator::Switch { val, cases, default, .. } => {
            if read {
                lemma_written_op(val, values);
            }
            if value_of(val, values) is Some {
                lemma_operand_admitted(val, known, values);
                law_switches_are_decided_by_integers(value_of(val, values)->0, cases@, default);
            }
        },
        _ => {},
    }
}

pub proof fn lemma_rewritten_labels(func: IrFunction, new: IrFunction, f: Facts, l: u32, n: nat)
    requires
        sccp::rewritten(func, new, f),
        n <= func.blocks@.len(),
    ensures
        sccp::index_of(new.blocks@, l, n) == sccp::index_of(func.blocks@, l, n),
    decreases n,
{
    if n > 0 {
        lemma_rewritten_labels(func, new, f, l, (n - 1) as nat);
        assert(new.blocks@[n - 1].label == func.blocks@[n - 1].label);
    }
}

/// A step of the function is one of the rewritten function, and the other way round
/// if what it reads was written.
proof fn lemma_rewritten_moves(
    func: IrFunction,
    new: IrFunction,
    f: Facts,
    m: Machine,
    n: Machine,
    read: bool,
)
    requires
        sccp::rewritten(func, new, f),
        within(f, m),
        f.reached.len() == func.blocks@.len(),
        read ==> reads_written(func.blocks@, m),
    ensures
        moves(func.blocks@, f.lattice, m, n) ==> moves(new.blocks@, f.lattice, m, n),
        read && moves(new.blocks@, f.lattice, m, n) ==> moves(func.blocks@, f.lattice, m, n),
{
    let labels = sccp::index_map(func.blocks@);
    assert(sccp::index_map(new.blocks@) =~= labels) by {
        assert forall|l: u32|
            sccp::index_of(new.blocks@, l, new.blocks@.len()) == sccp::index_of(
                func.blocks@,
                l,
                func.blocks@.len(),
            ) by {
            lemma_rewritten_labels(func, new, f, l, func.blocks@.len());
        }
    }
    let block = func.blocks@[m.block as int];
    let other = new.blocks@[m.block as int];
    assert(sccp::block_rewritten(block, other, f.lattice, true));
    if m.pos < block.instructions@.len() {
        let inst = block.instructions@[m.pos as int];
        let inst2 = other.instructions@[m.pos as int];
        assert(sccp::inst_rewritten(inst, inst2, f.lattice));
        assert forall|c: IrConst| true implies (#[trigger] may_write(
            labels,
            inst,
            f.lattice,
            m,
            c,
        ) ==> may_write(labels, inst2, f.lattice, m, c)) && (read && may_write(
            labels,
            inst2,
            f.lattice,
            m,
            c,
        ) ==> may_write(labels, inst, f.lattice, m, c)) by {
            lemma_rewritten_writes(labels, inst, inst2, f, m, c, read);
        }
        lemma_rewritten_writes(labels, inst, inst2, f, m, IrConst::Zero, read);
        if let Some(d) = inst.defines() {
            if executes(labels, inst, f.lattice, m, n) {
                let c = choose|c: IrConst| #[trigger]
                    may_write(labels, inst, f.lattice, m, c) && n == (Machine {
                        pos: m.pos + 1,
                        values: m.values.insert(d.0, c),
                        ..m
                    });
                assert(may_write(labels, inst2, f.lattice, m, c));
            }
            if read && executes(labels, inst2, f.lattice, m, n) {
                let c = choose|c: IrConst| #[trigger]
                    may_write(labels, inst2, f.lattice, m, c) && n == (Machine {
                        pos: m.pos + 1,
                        values: m.values.insert(d.0, c),
                        ..m
                    });
                assert(may_write(labels, inst, f.lattice, m, c));
            }
        }
    } else {
        let term = block.terminator;
        if jumps(labels, term, m, n) {
            let target = choose|target: BlockId| #[trigger]
                may_lead_to(term, m.values, target) && labels.contains_key(target.0) && n == (
                Machine {
                    block: labels[target.0],
                    from: Some(m.block),
                    pos: 0,
                    values: m.values,
                    entry: m.values,
                });
            lemma_rewritten_leads(term, f.lattice, m.values, target, read);
        }
        if read && jumps(labels, other.terminator, m, n) {
            let target = choose|target: BlockId| #[trigger]
                may_lead_to(other.terminator, m.values, target) && labels.contains_key(target.0)
                    && n == (Machine {
                    block: labels[target.0],
                    from: Some(m.block),
                    pos: 0,
                    values: m.values,
                    entry: m.values,
                });
            lemma_rewritten_leads(term, f.lattice, m.values, target, read);
        }
    }
}

/// Every run of a function is a run of the rewritten function.
pub proof fn law_rewriting_keeps_runs(
    func: IrFunction,
    new: IrFunction,
    info: UseDefInfo,
    t: Seq<Machine>,
)
    requires
        info.describes(func),
        fixpoint::indexable(func.blocks@),
        sccp::rewritten(func, new, sccp::conclusions(func, info)),
        is_run(func.blocks@, sccp::conclusions(func, info).lattice, t),
    ensures
        is_run(new.blocks@, sccp::conclusions(func, info).lattice, t),
{
    let f = sccp::conclusions(func, info);
    fixpoint::law_conclusions_are_a_fixpoint(func, info);
    assert forall|i: int| 0 < i < t.len() implies moves(
        new.blocks@,
        f.lattice,
        t[i - 1],
        #[trigger] t[i],
    ) by {
        law_runs_stay_within_conclusions(func, info, t, i - 1);
        lemma_rewritten_moves(func, new, f, t[i - 1], t[i], false);
    }
}

/// Every run of the rewritten function is a run of the function, as long as the
/// function does not read a value before it is written.
pub proof fn law_rewriting_adds_no_runs(
    func: IrFunction,
    new: IrFunction,
    info: UseDefInfo,
    t: Seq<Machine>,
)
    requires
        info.describes(func),
        fixpoint::indexable(func.blocks@),
        sccp::rewritten(func, new, sccp::conclusions(func, info)),
        is_run(new.blocks@, sccp::conclusions(func, info).lattice, t),
        forall|i: int| 0 <= i < t.len() ==> reads_written(func.blocks@, #[trigger] t[i]),
    ensures
        is_run(func.blocks@, sccp::conclusions(func, info).lattice, t),
{
    lemma_run_of_function(func, new, info, t, t.len());
    assert(t.take(t.len() as int) =~= t);
}

/// The instruction does not ask whether a value is constant.
pub open spec fn asks_not(inst: Instruction) -> bool {
    !(inst matches Instruction::UnaryOp { op, .. } && op is IsConstant)
}

/// No instruction asks whether a value is constant.
pub open spec fn asks_nothing(blocks: Seq<BasicBlock>) -> bool {
    forall|b: int, i: int|
        0 <= b < blocks.len() && 0 <= i < blocks[b].instructions@.len() ==> asks_not(
            #[trigger] blocks[b].instructions@[i],
        )
}

/// Where no instruction asks whether a value is constant, the runs do not depend on what
/// is known.
proof fn lemma_runs_need_no_answers(
    blocks: Seq<BasicBlock>,
    known: Seq<LatticeVal>,
    other: Seq<LatticeVal>,
    t: Seq<Machine>,
)
    requires
        asks_nothing(blocks),
        is_run(blocks, known, t),
    ensures
        is_run(blocks, other, t),
{
    assert forall|i: int| 0 < i < t.len() implies moves(blocks, other, t[i - 1], #[trigger] t[i]) by {
        let m = t[i - 1];
        let n = t[i];
        assert(moves(blocks, known, m, n));
        let labels = sccp::index_map(blocks);
        let block = blocks[m.block as int];
        if m.pos < block.instructions@.len() {
            let inst = block.instructions@[m.pos as int];
            assert(asks_not(inst));
            if let Some(d) = inst.defines() {
                let c = choose|c: IrConst| #[trigger]
                    may_write(labels, inst, known, m, c) && n == (Machine {
                        pos: m.pos + 1,
                        values: m.values.insert(d.0, c),
                        ..m
                    });
                assert(may_write(labels, inst, other, m, c));
            }
        }
    }
}

/// A rewritten function asks whether a value is constant where the function does.
pub proof fn lemma_rewritten_asks(func: IrFunction, new: IrFunction, f: Facts)
    requires
        sccp::rewritten(func, new, f),
        asks_nothing(func.blocks@),
    ensures
        asks_nothing(new.blocks@),
{
    assert forall|b: int, i: int|
        0 <= b < new.blocks@.len() && 0 <= i < new.blocks@[b].instructions@.len() implies asks_not(
        #[trigger] new.blocks@[b].instructions@[i],
    ) by {
        let block = func.blocks@[b];
        let other = new.blocks@[b];
        assert(sccp::block_rewritten(block, other, f.lattice, f.reached[b]));
        let inst = block.instructions@[i];
        assert(asks_not(inst));
        if f.reached[b] {
            assert(sccp::inst_rewritten(inst, other.instructions@[i], f.lattice));
        }
    }
}

/// What a terminator returns: nothing if it does not return, and else the returned value,
/// if there is one and it was written.
pub open spec fn returned(term: Terminator, values: Map<u32, IrConst>) -> Option<Option<IrConst>> {
    match term {
        Terminator::Return(Some(op)) => Some(value_of(op, values)),
        Terminator::Return(None) => Some(None),
        _ => None,
    }
}

/// Propagation keeps what a function does, if it reads no value before it is written and
/// does not ask whether a value is constant: the runs are the same, whatever is known, so
/// the same blocks are entered with the same values, and where the function returns, the
/// rewritten function returns the same value. A value that was replaced by a constant
/// has that constant in every run, wherever it was written.
pub proof fn law_propagation_keeps_behaviour(
    func: IrFunction,
    new: IrFunction,
    info: UseDefInfo,
    known: Seq<LatticeVal>,
    t: Seq<Machine>,
    i: int,
    v: u32,
)
    requires
        info.describes(func),
        fixpoint::indexable(func.blocks@),
        sccp::rewritten(func, new, sccp::conclusions(func, info)),
        asks_nothing(func.blocks@),
        forall|k: int| 0 <= k < t.len() ==> reads_written(func.blocks@, #[trigger] t[k]),
        0 <= i < t.len(),
    ensures
        is_run(func.blocks@, known, t) == is_run(new.blocks@, known, t),
        is_run(func.blocks@, known, t) ==> ({
            let m = t[i];
            let block = func.blocks@[m.block as int];
            let c = sccp::rewritten_op(
                Operand::Value(Value(v)),
                sccp::conclusions(func, info).lattice,
            );
            &&& m.block < func.blocks@.len()
            &&& m.pos == block.instructions@.len() ==> returned(
                new.blocks@[m.block as int].terminator,
                m.values,
            ) == returned(block.terminator, m.values)
            &&& m.values.contains_key(v) ==> value_of(c, m.values) == Some(m.values[v])
        }),
{
    let f = sccp::conclusions(func, info);
    lemma_rewritten_asks(func, new, f);
    if is_run(func.blocks@, known, t) {
        lemma_runs_need_no_answers(func.blocks@, known, f.lattice, t);
        law_rewriting_keeps_runs(func, new, info, t);
        lemma_runs_need_no_answers(new.blocks@, f.lattice, known, t);
        law_runs_stay_within_conclusions(func, info, t, i);
        fixpoint::law_conclusions_are_a_fixpoint(func, info);
        let m = t[i];
        assert(sccp::block_rewritten(
            func.blocks@[m.block as int],
            new.blocks@[m.block as int],
            f.lattice,
            f.reached[m.block as int],
        ));
        lemma_rewritten_value(Operand::Value(Value(v)), f.lattice, m.values);
        let term = func.blocks@[m.block as int].terminator;
        if m.pos == func.blocks@[m.block as int].instructions@.len() {
            assert(reads_written(func.blocks@, m));
            if let Terminator::Return(Some(op)) = term {
                lemma_written_op(op, m.values);
                lemma_rewritten_value(op, f.lattice, m.values);
            }
        }
    }
    if is_run(new.blocks@, known, t) {
        lemma_runs_need_no_answers(new.blocks@, known, f.lattice, t);
        law_rewriting_adds_no_runs(func, new, info, t);
        lemma_runs_need_no_answers(func.blocks@, f.lattice, known, t);
    }
}

proof fn lemma_run_of_function(
    func: IrFunction,
    new: IrFunction,
    info: UseDefInfo,
    t: Seq<Machine>,
    n: nat,
)
    requires
        info.describes(func),
        fixpoint::indexable(func.blocks@),
        sccp::rewritten(func, new, sccp::conclusions(func, info)),
        is_run(new.blocks@, sccp::conclusions(func, info).lattice, t),
        forall|i: int| 0 <= i < t.len() ==> reads_written(func.blocks@, #[trigger] t[i]),
        0 < n <= t.len(),
    ensures
        is_run(func.blocks@, sccp::conclusions(func, info).lattice, t.take(n as int)),
    decreases n,
{
    let f = sccp::conclusions(func, info);
    if n > 1 {
        lemma_run_of_function(func, new, info, t, (n - 1) as nat);
        let before = t.take(n - 1);
        let now = t.take(n as int);
        fixpoint::law_conclusions_are_a_fixpoint(func, info);
        law_runs_stay_within_conclusions(func, info, before, n - 2);
        assert(moves(new.blocks@, f.lattice, t[n - 2], t[n - 1]));
        lemma_rewritten_moves(func, new, f, t[n - 2], t[n - 1], true);
        assert forall|i: int| 0 < i < now.len() implies moves(
            func.blocks@,
            f.lattice,
            now[i - 1],
            #[trigger] now[i],
        ) by {
            if i < n - 1 {
                assert(before[i] == now[i] && before[i - 1] == now[i - 1]);
            }
        }
    }
}

} // verus!
