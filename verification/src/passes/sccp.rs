//! Sparse Conditional Constant Propagation (SCCP).
//!
//! Implements the Wegman-Zadeck algorithm: propagates constants through the SSA
//! graph across block boundaries via phi nodes, and folds the branches that they
//! decide. Only control-flow edges that can be taken are considered.
//!
//! Uses the use sites of `UseDefInfo` for worklist-driven propagation.

use std::collections::HashMap;
use std::collections::HashSet;

use vstd::prelude::*;

use super::lattice;
use super::lattice::{
    const_is_nonzero, eval_binop, eval_cast, eval_cmp, eval_unaryop, LatticeVal,
};
use super::use_def;
use super::use_def::{UseDefInfo, UseLoc};
use crate::ir::{BasicBlock, BlockId, Instruction, IrFunction, Operand, Terminator, Value};

verus! {

broadcast use vstd::std_specs::hash::group_hash_axioms;

// ── What is known ───────────────────────────────────────────────────────────

/// What the propagation has found out so far.
#[verifier::ext_equal]
pub struct Facts {
    /// Lattice value for each SSA value.
    pub lattice: Seq<LatticeVal>,
    /// Whether each block was found executable.
    pub reached: Seq<bool>,
    /// The executable control-flow edges, between block indices.
    pub edges: Set<(u32, u32)>,
    /// Blocks to process.
    pub cfg: Seq<u32>,
    /// Values whose lattice value changed.
    pub ssa: Seq<u32>,
}

/// The index of the last of the first `n` blocks with a label.
pub open spec fn index_of(blocks: Seq<BasicBlock>, label: u32, n: nat) -> Option<u32>
    decreases n,
{
    if n == 0 {
        None
    } else if blocks[n - 1].label.0 == label {
        Some((n - 1) as u32)
    } else {
        index_of(blocks, label, (n - 1) as nat)
    }
}

/// The index of each block by its label.
pub open spec fn index_map(blocks: Seq<BasicBlock>) -> Map<u32, u32> {
    Map::new(
        |l: u32| index_of(blocks, l, blocks.len()) is Some,
        |l: u32| index_of(blocks, l, blocks.len())->0,
    )
}

/// The lattice value of an operand. A value that is not known of may be anything.
pub open spec fn resolved(op: Operand, known: Seq<LatticeVal>) -> LatticeVal {
    match op {
        Operand::Const(c) => LatticeVal::Constant(c),
        Operand::Value(v) => if v.0 < known.len() {
            known[v.0 as int]
        } else {
            LatticeVal::Bottom
        },
    }
}

/// The meet of the first `n` incoming operands of the phi `dest` in block `b`, as
/// far as their edges are executable. The phi itself does not count, and an
/// operand from a block that does not exist may be anything.
pub open spec fn phi_value(
    labels: Map<u32, u32>,
    incoming: Seq<(Operand, BlockId)>,
    dest: u32,
    b: u32,
    f: Facts,
    n: nat,
) -> LatticeVal
    decreases n,
{
    if n == 0 {
        LatticeVal::Top
    } else {
        let before = phi_value(labels, incoming, dest, b, f, (n - 1) as nat);
        let (op, from) = incoming[n - 1];
        if !labels.contains_key(from.0) {
            LatticeVal::Bottom
        } else if f.edges.contains((labels[from.0], b)) && op != Operand::Value(Value(dest)) {
            before.met(resolved(op, f.lattice))
        } else {
            before
        }
    }
}

/// The value that an instruction of block `b` gives to its destination.
pub open spec fn transfer(labels: Map<u32, u32>, inst: Instruction, b: u32, f: Facts) -> Option<
    (u32, LatticeVal),
> {
    let bottom = LatticeVal::Bottom;
    match inst {
        Instruction::Phi { dest, incoming, .. } => Some(
            (dest.0, phi_value(labels, incoming@, dest.0, b, f, incoming@.len())),
        ),
        Instruction::Copy { dest, src } => Some((dest.0, resolved(src, f.lattice))),
        Instruction::BinOp { dest, op, lhs, rhs, ty } => Some(
            (
                dest.0,
                lattice::binop_value(op, resolved(lhs, f.lattice), resolved(rhs, f.lattice), ty),
            ),
        ),
        Instruction::UnaryOp { dest, op, src, ty } => Some(
            (dest.0, lattice::unaryop_value(op, resolved(src, f.lattice), ty)),
        ),
        Instruction::Cmp { dest, op, lhs, rhs, ty } => Some(
            (
                dest.0,
                lattice::comparison_value(
                    op,
                    resolved(lhs, f.lattice),
                    resolved(rhs, f.lattice),
                    ty,
                ),
            ),
        ),
        Instruction::Cast { dest, src, from_ty, to_ty } => Some(
            (dest.0, lattice::cast_value(resolved(src, f.lattice), from_ty, to_ty)),
        ),
        Instruction::Select { dest, cond, true_val, false_val, .. } => Some(
            (
                dest.0,
                match resolved(cond, f.lattice) {
                    LatticeVal::Top => LatticeVal::Top,
                    LatticeVal::Constant(c) => if lattice::nonzero(c) {
                        resolved(true_val, f.lattice)
                    } else {
                        resolved(false_val, f.lattice)
                    },
                    LatticeVal::Bottom => resolved(true_val, f.lattice).met(
                        resolved(false_val, f.lattice),
                    ),
                },
            ),
        ),
        Instruction::Load { dest, .. } => Some((dest.0, bottom)),
        Instruction::Alloca { dest, .. } => Some((dest.0, bottom)),
        Instruction::DynAlloca { dest, .. } => Some((dest.0, bottom)),
        Instruction::GlobalAddr { dest, .. } => Some((dest.0, bottom)),
        Instruction::GetElementPtr { dest, .. } => Some((dest.0, bottom)),
        Instruction::AtomicRmw { dest, .. } => Some((dest.0, bottom)),
        Instruction::AtomicCmpxchg { dest, .. } => Some((dest.0, bottom)),
        Instruction::AtomicLoad { dest, .. } => Some((dest.0, bottom)),
        Instruction::VaArg { dest, .. } => Some((dest.0, bottom)),
        Instruction::LabelAddr { dest, .. } => Some((dest.0, bottom)),
        Instruction::GetReturnF64Second { dest } => Some((dest.0, bottom)),
        Instruction::GetReturnF32Second { dest } => Some((dest.0, bottom)),
        Instruction::GetReturnF128Second { dest } => Some((dest.0, bottom)),
        Instruction::StackSave { dest } => Some((dest.0, bottom)),
        Instruction::Memcpy { dest, .. } => Some((dest.0, bottom)),
        Instruction::ParamRef { dest, .. } => Some((dest.0, bottom)),
        Instruction::Call { info, .. } => match info.dest {
            Some(dest) => Some((dest.0, bottom)),
            None => None,
        },
        Instruction::CallIndirect { info, .. } => match info.dest {
            Some(dest) => Some((dest.0, bottom)),
            None => None,
        },
        Instruction::Intrinsic { dest, .. } => match dest {
            Some(dest) => Some((dest.0, bottom)),
            None => None,
        },
        _ => None,
    }
}

/// The facts after a value was found to be at most `v`.
pub open spec fn updated(f: Facts, id: u32, v: LatticeVal) -> Facts {
    if id < f.lattice.len() {
        let m = f.lattice[id as int].met(v);
        if m == f.lattice[id as int] {
            f
        } else {
            Facts { lattice: f.lattice.update(id as int, m), ssa: f.ssa.push(id), ..f }
        }
    } else {
        f
    }
}

/// An update meets the value with what is known of it. The value is queued once, if that
/// changes anything. All else stays as it is, and everything does for a value that there
/// is no entry for.
pub proof fn law_update_meets_and_queues(f: Facts, id: u32, v: LatticeVal)
    ensures
        id >= f.lattice.len() ==> updated(f, id, v) == f,
        id < f.lattice.len() ==> ({
            let g = updated(f, id, v);
            &&& g.lattice[id as int] == f.lattice[id as int].met(v)
            &&& g.lattice.len() == f.lattice.len()
            &&& forall|k: int|
                0 <= k < f.lattice.len() && k != id ==> #[trigger] g.lattice[k] == f.lattice[k]
            &&& g.ssa == if f.lattice[id as int].met(v) == f.lattice[id as int] {
                f.ssa
            } else {
                f.ssa.push(id)
            }
            &&& g.reached == f.reached
            &&& g.edges == f.edges
            &&& g.cfg == f.cfg
        }),
{
    if id < f.lattice.len() {
        assert(f.lattice.update(id as int, f.lattice[id as int]) =~= f.lattice);
    }
}

/// The facts after an instruction of block `b` was evaluated.
pub open spec fn evaluated(labels: Map<u32, u32>, inst: Instruction, b: u32, f: Facts) -> Facts {
    match transfer(labels, inst, b, f) {
        Some((id, v)) => updated(f, id, v),
        None => f,
    }
}

/// The label of the first case from the `k`th on with the value `v`, or `default`.
pub open spec fn case_from(cases: Seq<(i64, BlockId)>, v: i64, k: int, default: BlockId) -> BlockId
    decreases cases.len() - k,
{
    if k < 0 || k >= cases.len() {
        default
    } else if cases[k].0 == v {
        cases[k].1
    } else {
        case_from(cases, v, k + 1, default)
    }
}

/// The labels of some cases.
pub open spec fn case_labels(cases: Seq<(i64, BlockId)>) -> Seq<BlockId> {
    Seq::new(cases.len(), |k: int| cases[k].1)
}

/// The blocks that a terminator may lead to.
pub open spec fn taken(term: Terminator, known: Seq<LatticeVal>) -> Seq<BlockId> {
    match term {
        Terminator::Branch(target) => seq![target],
        Terminator::CondBranch { cond, true_label, false_label } => match resolved(cond, known) {
            LatticeVal::Top => Seq::empty(),
            LatticeVal::Constant(c) => if lattice::nonzero(c) {
                seq![true_label]
            } else {
                seq![false_label]
            },
            LatticeVal::Bottom => seq![true_label, false_label],
        },
        Terminator::Switch { val, cases, default, .. } => match resolved(val, known) {
            LatticeVal::Top => Seq::empty(),
            LatticeVal::Constant(c) => match c.as_i64() {
                Some(v) => seq![case_from(cases@, v, 0, default)],
                None => seq![default],
            },
            LatticeVal::Bottom => case_labels(cases@).push(default),
        },
        Terminator::IndirectBranch { possible_targets, .. } => possible_targets@,
        Terminator::Return(_) => Seq::empty(),
        Terminator::Unreachable => Seq::empty(),
    }
}

/// The facts after an edge was found executable.
pub open spec fn marked(f: Facts, from: u32, to: u32) -> Facts {
    if f.edges.contains((from, to)) {
        f
    } else {
        Facts { edges: f.edges.insert((from, to)), cfg: f.cfg.push(to), ..f }
    }
}

/// The facts after the edges from block `b` to the first `n` of `targets` were found
/// executable, as far as those blocks exist.
pub open spec fn marked_all(
    labels: Map<u32, u32>,
    f: Facts,
    b: u32,
    targets: Seq<BlockId>,
    n: nat,
) -> Facts
    decreases n,
{
    if n == 0 {
        f
    } else {
        let g = marked_all(labels, f, b, targets, (n - 1) as nat);
        if labels.contains_key(targets[n - 1].0) {
            marked(g, b, labels[targets[n - 1].0])
        } else {
            g
        }
    }
}

/// The facts after the terminator of block `b` was evaluated.
pub open spec fn branched(labels: Map<u32, u32>, term: Terminator, b: u32, f: Facts) -> Facts {
    let targets = taken(term, f.lattice);
    marked_all(labels, f, b, targets, targets.len())
}

/// The facts after the first `n` instructions of block `b`, or only the phis among
/// them, were evaluated.
pub open spec fn evaluated_all(
    labels: Map<u32, u32>,
    insts: Seq<Instruction>,
    b: u32,
    f: Facts,
    phis_only: bool,
    n: nat,
) -> Facts
    decreases n,
{
    if n == 0 {
        f
    } else {
        let g = evaluated_all(labels, insts, b, f, phis_only, (n - 1) as nat);
        if phis_only && !(insts[n - 1] is Phi) {
            g
        } else {
            evaluated(labels, insts[n - 1], b, g)
        }
    }
}

/// The facts after a block was visited: all of it, or its phis and its terminator.
pub open spec fn visited(
    labels: Map<u32, u32>,
    block: BasicBlock,
    b: u32,
    f: Facts,
    phis_only: bool,
) -> Facts {
    let insts = block.instructions@;
    branched(
        labels,
        block.terminator,
        b,
        evaluated_all(labels, insts, b, f, phis_only, insts.len()),
    )
}

/// The facts after block `b` was taken from the worklist.
pub open spec fn entered(
    labels: Map<u32, u32>,
    blocks: Seq<BasicBlock>,
    b: u32,
    f: Facts,
) -> Facts {
    if b >= blocks.len() {
        f
    } else if f.reached[b as int] {
        visited(labels, blocks[b as int], b, f, true)
    } else {
        visited(
            labels,
            blocks[b as int],
            b,
            Facts { reached: f.reached.update(b as int, true), ..f },
            false,
        )
    }
}

/// The facts after a use of a changed value was evaluated.
pub open spec fn reevaluated(
    labels: Map<u32, u32>,
    blocks: Seq<BasicBlock>,
    loc: UseLoc,
    f: Facts,
) -> Facts {
    let b = loc.block_idx as int;
    if b >= blocks.len() || !f.reached[b] {
        f
    } else if loc.inst_idx == use_def::TERMINATOR_INDEX {
        branched(labels, blocks[b].terminator, loc.block_idx, f)
    } else if loc.inst_idx < blocks[b].instructions@.len() {
        evaluated(labels, blocks[b].instructions@[loc.inst_idx as int], loc.block_idx, f)
    } else {
        f
    }
}

/// The facts after the first `n` of some uses were evaluated.
pub open spec fn reevaluated_all(
    labels: Map<u32, u32>,
    blocks: Seq<BasicBlock>,
    locs: Seq<UseLoc>,
    f: Facts,
    n: nat,
) -> Facts
    decreases n,
{
    if n == 0 {
        f
    } else {
        reevaluated(
            labels,
            blocks,
            locs[n - 1],
            reevaluated_all(labels, blocks, locs, f, (n - 1) as nat),
        )
    }
}

/// The facts after a block was taken from the worklist and visited.
pub open spec fn cfg_step(labels: Map<u32, u32>, blocks: Seq<BasicBlock>, f: Facts) -> Facts {
    entered(labels, blocks, f.cfg.last(), Facts { cfg: f.cfg.drop_last(), ..f })
}

/// The facts after a value was taken from the worklist and its uses evaluated.
pub open spec fn ssa_step(
    labels: Map<u32, u32>,
    blocks: Seq<BasicBlock>,
    info: UseDefInfo,
    f: Facts,
) -> Facts {
    let locs = info.sites(f.ssa.last());
    reevaluated_all(labels, blocks, locs, Facts { ssa: f.ssa.drop_last(), ..f }, locs.len())
}

/// The facts after one step of the propagation, and whether it goes on with values.
/// Both worklists are emptied in turn, blocks first.
pub open spec fn step(
    labels: Map<u32, u32>,
    blocks: Seq<BasicBlock>,
    info: UseDefInfo,
    f: Facts,
    values: bool,
) -> (Facts, bool) {
    if f.ssa.len() > 0 && (values || f.cfg.len() == 0) {
        (ssa_step(labels, blocks, info, f), true)
    } else {
        (cfg_step(labels, blocks, f), false)
    }
}

/// There is nothing left to do.
pub open spec fn settled(f: Facts) -> bool {
    f.cfg.len() == 0 && f.ssa.len() == 0
}

/// Each label stands for one of `n` blocks.
pub open spec fn labels_fit(labels: Map<u32, u32>, n: nat) -> bool {
    forall|l: u32| #[trigger] labels.contains_key(l) ==> labels[l] < n
}

// ── Termination ─────────────────────────────────────────────────────────────

/// How far down the first `n` values can still move.
pub open spec fn heights(known: Seq<LatticeVal>, n: nat) -> nat
    decreases n,
{
    if n == 0 {
        0
    } else {
        heights(known, (n - 1) as nat) + known[n - 1].height()
    }
}

/// Number of edges from block `i` to the first `n` blocks that were not found
/// executable.
pub open spec fn unmarked_from(edges: Set<(u32, u32)>, i: u32, n: nat) -> nat
    decreases n,
{
    if n == 0 {
        0
    } else {
        unmarked_from(edges, i, (n - 1) as nat) + if edges.contains((i, (n - 1) as u32)) {
            0nat
        } else {
            1nat
        }
    }
}

/// Number of edges from the first `m` blocks to the first `n` blocks that were not
/// found executable.
pub open spec fn unmarked(edges: Set<(u32, u32)>, m: nat, n: nat) -> nat
    decreases m,
{
    if m == 0 {
        0
    } else {
        unmarked(edges, (m - 1) as nat, n) + unmarked_from(edges, (m - 1) as u32, n)
    }
}

/// How much there can be left to do, in a function of `n` blocks.
pub open spec fn work(f: Facts, n: nat) -> nat {
    heights(f.lattice, f.lattice.len()) + unmarked(f.edges, n, n) + f.cfg.len() + f.ssa.len()
}

proof fn lemma_heights_update(known: Seq<LatticeVal>, i: int, v: LatticeVal, n: nat)
    requires
        n <= known.len(),
        0 <= i < known.len(),
    ensures
        heights(known.update(i, v), n) == heights(known, n) + if i < n {
            v.height() - known[i].height()
        } else {
            0
        },
    decreases n,
{
    if n > 0 {
        lemma_heights_update(known, i, v, (n - 1) as nat);
    }
}

proof fn lemma_unmarked_from_insert(edges: Set<(u32, u32)>, e: (u32, u32), i: u32, n: nat)
    requires
        !edges.contains(e),
        n <= u32::MAX + 1,
    ensures
        unmarked_from(edges.insert(e), i, n) + (if e.0 == i && e.1 < n {
            1nat
        } else {
            0nat
        }) == unmarked_from(edges, i, n),
    decreases n,
{
    if n > 0 {
        lemma_unmarked_from_insert(edges, e, i, (n - 1) as nat);
    }
}

proof fn lemma_unmarked_insert(edges: Set<(u32, u32)>, e: (u32, u32), m: nat, n: nat)
    requires
        !edges.contains(e),
        m <= u32::MAX + 1,
        n <= u32::MAX + 1,
    ensures
        unmarked(edges.insert(e), m, n) + (if e.0 < m && e.1 < n {
            1nat
        } else {
            0nat
        }) == unmarked(edges, m, n),
    decreases m,
{
    if m > 0 {
        lemma_unmarked_insert(edges, e, (m - 1) as nat, n);
        lemma_unmarked_from_insert(edges, e, (m - 1) as u32, n);
    }
}

/// The facts fit a function of `n` blocks.
pub open spec fn facts_fit(f: Facts, n: nat) -> bool {
    f.reached.len() == n && n <= u32::MAX
}

/// From `f` to `g` no value moved up, no block or edge was lost, the number of
/// values and blocks is the same, and there is no more to do.
pub open spec fn advances(f: Facts, g: Facts, n: nat) -> bool {
    &&& g.lattice.len() == f.lattice.len()
    &&& g.reached.len() == f.reached.len()
    &&& forall|i: int| 0 <= i < f.lattice.len() ==> (#[trigger] g.lattice[i]).at_most(f.lattice[i])
    &&& forall|i: int| 0 <= i < f.reached.len() && f.reached[i] ==> #[trigger] g.reached[i]
    &&& f.edges.subset_of(g.edges)
    &&& work(g, n) <= work(f, n)
}

proof fn lemma_advances_trans(f: Facts, g: Facts, h: Facts, n: nat)
    requires
        advances(f, g, n),
        advances(g, h, n),
    ensures
        advances(f, h, n),
{
    assert forall|i: int| 0 <= i < f.lattice.len() implies (#[trigger] h.lattice[i]).at_most(
        f.lattice[i],
    ) by {
        assert(g.lattice[i].at_most(f.lattice[i]));
        assert(h.lattice[i].at_most(g.lattice[i]));
    }
    assert forall|i: int| 0 <= i < f.reached.len() && f.reached[i] implies #[trigger] h.reached[i] by {
        assert(g.reached[i]);
    }
}

proof fn lemma_updated(f: Facts, id: u32, v: LatticeVal, n: nat)
    ensures
        advances(f, updated(f, id, v), n),
        updated(f, id, v).reached == f.reached,
{
    if id < f.lattice.len() {
        let m = f.lattice[id as int].met(v);
        lemma_heights_update(f.lattice, id as int, m, f.lattice.len());
    }
}

proof fn lemma_evaluated(labels: Map<u32, u32>, inst: Instruction, b: u32, f: Facts, n: nat)
    ensures
        advances(f, evaluated(labels, inst, b, f), n),
        evaluated(labels, inst, b, f).reached == f.reached,
{
    if let Some((id, v)) = transfer(labels, inst, b, f) {
        lemma_updated(f, id, v, n);
    }
}

proof fn lemma_marked(f: Facts, from: u32, to: u32, n: nat)
    requires
        from < n,
        to < n,
        n <= u32::MAX,
    ensures
        advances(f, marked(f, from, to), n),
        marked(f, from, to).reached == f.reached,
        marked(f, from, to).lattice == f.lattice,
{
    if !f.edges.contains((from, to)) {
        lemma_unmarked_insert(f.edges, (from, to), n, n);
    }
}

proof fn lemma_marked_all(
    labels: Map<u32, u32>,
    f: Facts,
    b: u32,
    targets: Seq<BlockId>,
    k: nat,
    n: nat,
)
    requires
        b < n <= u32::MAX,
        labels_fit(labels, n),
    ensures
        advances(f, marked_all(labels, f, b, targets, k), n),
        marked_all(labels, f, b, targets, k).reached == f.reached,
        marked_all(labels, f, b, targets, k).lattice == f.lattice,
    decreases k,
{
    if k > 0 {
        lemma_marked_all(labels, f, b, targets, (k - 1) as nat, n);
        let g = marked_all(labels, f, b, targets, (k - 1) as nat);
        let l = targets[k - 1].0;
        if labels.contains_key(l) {
            lemma_marked(g, b, labels[l], n);
            lemma_advances_trans(f, g, marked(g, b, labels[l]), n);
        }
    }
}

proof fn lemma_branched(labels: Map<u32, u32>, term: Terminator, b: u32, f: Facts, n: nat)
    requires
        b < n <= u32::MAX,
        labels_fit(labels, n),
    ensures
        advances(f, branched(labels, term, b, f), n),
        branched(labels, term, b, f).reached == f.reached,
{
    let targets = taken(term, f.lattice);
    lemma_marked_all(labels, f, b, targets, targets.len(), n);
}

proof fn lemma_evaluated_all(
    labels: Map<u32, u32>,
    insts: Seq<Instruction>,
    b: u32,
    f: Facts,
    phis_only: bool,
    k: nat,
    n: nat,
)
    ensures
        advances(f, evaluated_all(labels, insts, b, f, phis_only, k), n),
        evaluated_all(labels, insts, b, f, phis_only, k).reached == f.reached,
    decreases k,
{
    if k > 0 {
        lemma_evaluated_all(labels, insts, b, f, phis_only, (k - 1) as nat, n);
        let g = evaluated_all(labels, insts, b, f, phis_only, (k - 1) as nat);
        lemma_evaluated(labels, insts[k - 1], b, g, n);
        lemma_advances_trans(f, g, evaluated(labels, insts[k - 1], b, g), n);
    }
}

proof fn lemma_entered(labels: Map<u32, u32>, blocks: Seq<BasicBlock>, b: u32, f: Facts)
    requires
        facts_fit(f, blocks.len()),
        labels_fit(labels, blocks.len()),
    ensures
        advances(f, entered(labels, blocks, b, f), blocks.len()),
{
    let n = blocks.len();
    if b < n {
        let block = blocks[b as int];
        let phis_only = f.reached[b as int];
        let g = if phis_only {
            f
        } else {
            Facts { reached: f.reached.update(b as int, true), ..f }
        };
        assert(advances(f, g, n));
        let insts = block.instructions@;
        let h = evaluated_all(labels, insts, b, g, phis_only, insts.len());
        lemma_evaluated_all(labels, insts, b, g, phis_only, insts.len(), n);
        lemma_branched(labels, block.terminator, b, h, n);
        lemma_advances_trans(f, g, h, n);
        lemma_advances_trans(f, h, branched(labels, block.terminator, b, h), n);
    }
}

proof fn lemma_reevaluated_all(
    labels: Map<u32, u32>,
    blocks: Seq<BasicBlock>,
    locs: Seq<UseLoc>,
    f: Facts,
    k: nat,
)
    requires
        facts_fit(f, blocks.len()),
        labels_fit(labels, blocks.len()),
    ensures
        advances(f, reevaluated_all(labels, blocks, locs, f, k), blocks.len()),
    decreases k,
{
    let n = blocks.len();
    if k > 0 {
        lemma_reevaluated_all(labels, blocks, locs, f, (k - 1) as nat);
        let g = reevaluated_all(labels, blocks, locs, f, (k - 1) as nat);
        let loc = locs[k - 1];
        let b = loc.block_idx as int;
        if b < n && g.reached[b] {
            lemma_branched(labels, blocks[b].terminator, loc.block_idx, g, n);
            lemma_evaluated(
                labels,
                blocks[b].instructions@[loc.inst_idx as int],
                loc.block_idx,
                g,
                n,
            );
        }
        lemma_advances_trans(f, g, reevaluated(labels, blocks, loc, g), n);
    }
}

/// Each step leaves less to do, moves no value up and loses no block or edge.
pub proof fn law_step_makes_progress(
    labels: Map<u32, u32>,
    blocks: Seq<BasicBlock>,
    info: UseDefInfo,
    f: Facts,
    values: bool,
)
    requires
        facts_fit(f, blocks.len()),
        labels_fit(labels, blocks.len()),
        !settled(f),
    ensures
        advances(f, step(labels, blocks, info, f, values).0, blocks.len()),
        work(step(labels, blocks, info, f, values).0, blocks.len()) < work(f, blocks.len()),
{
    let n = blocks.len();
    if f.ssa.len() > 0 && (values || f.cfg.len() == 0) {
        let g = Facts { ssa: f.ssa.drop_last(), ..f };
        let locs = info.sites(f.ssa.last());
        lemma_reevaluated_all(labels, blocks, locs, g, locs.len());
        assert(advances(f, g, n));
        lemma_advances_trans(f, g, ssa_step(labels, blocks, info, f), n);
    } else {
        let g = Facts { cfg: f.cfg.drop_last(), ..f };
        lemma_entered(labels, blocks, f.cfg.last(), g);
        assert(advances(f, g, n));
        lemma_advances_trans(f, g, cfg_step(labels, blocks, f), n);
    }
}

/// The facts when there is nothing left to do.
pub open spec fn solved(
    labels: Map<u32, u32>,
    blocks: Seq<BasicBlock>,
    info: UseDefInfo,
    f: Facts,
    values: bool,
) -> Facts
    decreases work(f, blocks.len()),
        when labels_fit(labels, blocks.len()) && facts_fit(f, blocks.len())
{
    if settled(f) {
        f
    } else {
        let (g, next) = step(labels, blocks, info, f, values);
        proof {
            law_step_makes_progress(labels, blocks, info, f, values);
        }
        solved(labels, blocks, info, g, next)
    }
}

// ── The start ───────────────────────────────────────────────────────────────

/// One of the first `n` instructions gives `v` the value of a parameter.
pub open spec fn param_in_insts(insts: Seq<Instruction>, n: nat, v: u32) -> bool
    decreases n,
{
    n > 0 && (param_in_insts(insts, (n - 1) as nat, v) || match insts[n - 1] {
        Instruction::ParamRef { dest, .. } => dest.0 == v,
        _ => false,
    })
}

/// An instruction of the first `n` blocks gives `v` the value of a parameter.
pub open spec fn param_in_blocks(blocks: Seq<BasicBlock>, n: nat, v: u32) -> bool
    decreases n,
{
    n > 0 && (param_in_blocks(blocks, (n - 1) as nat, v) || param_in_insts(
        blocks[n - 1].instructions@,
        blocks[n - 1].instructions@.len(),
        v,
    ))
}

/// Can nothing be known of `v`: is it a parameter, or used without a definition?
pub open spec fn unknowable(func: IrFunction, info: UseDefInfo, v: u32) -> bool {
    param_in_blocks(func.blocks@, func.blocks@.len(), v) || (info.use_count@[v as int] > 0
        && info.def_loc@[v as int].code() == use_def::NONE_SENTINEL)
}

/// What is known at the start: only the entry block is to be processed.
pub open spec fn initial(func: IrFunction, info: UseDefInfo) -> Facts {
    Facts {
        lattice: Seq::new(
            (func.max_value() + 1) as nat,
            |v: int|
                if unknowable(func, info, v as u32) {
                    LatticeVal::Bottom
                } else {
                    LatticeVal::Top
                },
        ),
        reached: Seq::new(func.blocks@.len(), |b: int| false),
        edges: Set::empty(),
        cfg: seq![0u32],
        ssa: Seq::empty(),
    }
}

/// What is known in the end.
pub open spec fn conclusions(func: IrFunction, info: UseDefInfo) -> Facts {
    solved(index_map(func.blocks@), func.blocks@, info, initial(func, info), false)
}

// ── The state ───────────────────────────────────────────────────────────────

/// A set of control-flow edges.
pub struct EdgeSet {
    codes: HashSet<u64>,
}

pub open spec fn edge_code(e: (u32, u32)) -> u64 {
    (e.0 * 0x1_0000_0000 + e.1) as u64
}

impl View for EdgeSet {
    type V = Set<(u32, u32)>;

    closed spec fn view(&self) -> Set<(u32, u32)> {
        Set::new(|e: (u32, u32)| self.codes@.contains(edge_code(e)))
    }
}

fn encode_edge(from: u32, to: u32) -> (r: u64)
    ensures
        r == edge_code((from, to)),
{
    from as u64 * 0x1_0000_0000 + to as u64
}

impl EdgeSet {
    fn new() -> (r: EdgeSet)
        ensures
            r@ == Set::<(u32, u32)>::empty(),
    {
        let r = EdgeSet { codes: HashSet::new() };
        assert(r@ =~= Set::empty());
        r
    }

    fn contains(&self, from: u32, to: u32) -> (r: bool)
        ensures
            r == self@.contains((from, to)),
    {
        self.codes.contains(&encode_edge(from, to))
    }

    /// Adds an edge, and says whether it is new.
    fn insert(&mut self, from: u32, to: u32) -> (r: bool)
        ensures
            final(self)@ == old(self)@.insert((from, to)),
            r == !old(self)@.contains((from, to)),
    {
        let r = self.codes.insert(encode_edge(from, to));
        assert forall|e: (u32, u32)|
            #[trigger] self@.contains(e) == old(self)@.insert((from, to)).contains(e) by {
            if edge_code(e) == edge_code((from, to)) {
                assert(e == (from, to));
            }
        }
        assert(self@ =~= old(self)@.insert((from, to)));
        r
    }
}

/// Block indices by label.
pub struct LabelIndex {
    indices: HashMap<u32, u32>,
}

impl View for LabelIndex {
    type V = Map<u32, u32>;

    closed spec fn view(&self) -> Map<u32, u32> {
        self.indices@
    }
}

proof fn lemma_index_of(blocks: Seq<BasicBlock>, label: u32, n: nat)
    requires
        n <= blocks.len() <= u32::MAX,
    ensures
        match index_of(blocks, label, n) {
            Some(i) => i < n && blocks[i as int].label.0 == label,
            None => true,
        },
    decreases n,
{
    if n > 0 {
        lemma_index_of(blocks, label, (n - 1) as nat);
    }
}

/// Each label stands for one of the blocks.
pub proof fn lemma_index_map_fits(blocks: Seq<BasicBlock>)
    requires
        blocks.len() <= u32::MAX,
    ensures
        labels_fit(index_map(blocks), blocks.len()),
{
    assert forall|l: u32| #[trigger] index_map(blocks).contains_key(l) implies index_map(blocks)[l]
        < blocks.len() by {
        lemma_index_of(blocks, l, blocks.len());
    }
}

impl LabelIndex {
    fn build(blocks: &Vec<BasicBlock>) -> (r: LabelIndex)
        requires
            blocks@.len() <= u32::MAX,
        ensures
            r@ == index_map(blocks@),
            labels_fit(r@, blocks@.len()),
    {
        let mut indices: HashMap<u32, u32> = HashMap::new();
        let mut i: usize = 0;
        while i < blocks.len()
            invariant
                i <= blocks@.len() <= u32::MAX,
                forall|l: u32|
                    #![trigger indices@.contains_key(l)]
                    match index_of(blocks@, l, i as nat) {
                        Some(k) => indices@.contains_key(l) && indices@[l] == k,
                        None => !indices@.contains_key(l),
                    },
            decreases blocks@.len() - i,
        {
            indices.insert(blocks[i].label.0, i as u32);
            i += 1;
        }
        let r = LabelIndex { indices };
        proof {
            assert(r@ =~= index_map(blocks@));
            lemma_index_map_fits(blocks@);
        }
        r
    }

    fn get(&self, label: BlockId) -> (r: Option<u32>)
        ensures
            match r {
                Some(i) => self@.contains_key(label.0) && self@[label.0] == i,
                None => !self@.contains_key(label.0),
            },
    {
        match self.indices.get(&label.0) {
            Some(i) => Some(*i),
            None => None,
        }
    }
}

/// SCCP algorithm state.
pub struct SccpState {
    /// Lattice value for each SSA value, indexed by Value.0.
    lattice: Vec<LatticeVal>,
    /// Whether each block has been marked executable.
    block_executable: Vec<bool>,
    /// Set of executable CFG edges (from_block_idx, to_block_idx).
    executable_edges: EdgeSet,
    /// Worklist of block indices to process.
    cfg_worklist: Vec<u32>,
    /// Worklist of value IDs whose lattice changed.
    ssa_worklist: Vec<u32>,
    /// Map from BlockId to block position index.
    label_to_idx: LabelIndex,
}

/// What has been found out so far. The label index, which never changes, stands beside it
/// as `labels`.
impl View for SccpState {
    type V = Facts;

    closed spec fn view(&self) -> Facts {
        Facts {
            lattice: self.lattice@,
            reached: self.block_executable@,
            edges: self.executable_edges@,
            cfg: self.cfg_worklist@,
            ssa: self.ssa_worklist@,
        }
    }
}

impl SccpState {
    /// Block indices by label.
    pub closed spec fn labels(&self) -> Map<u32, u32> {
        self.label_to_idx@
    }
}

// ── Evaluation ──────────────────────────────────────────────────────────────

/// Resolve an operand to its lattice value.
fn resolve_lattice(op: &Operand, state: &SccpState) -> (r: LatticeVal)
    ensures
        r == resolved(*op, state@.lattice),
{
    match op {
        Operand::Const(c) => LatticeVal::Constant(*c),
        Operand::Value(v) => {
            let id = v.0 as usize;
            if id < state.lattice.len() {
                state.lattice[id]
            } else {
                LatticeVal::Bottom
            }
        },
    }
}

/// Update a value's lattice (monotone: only moves downward). If changed,
/// enqueue value on SSA worklist.
fn update_lattice(value_id: u32, new_val: LatticeVal, state: &mut SccpState)
    ensures
        final(state)@ == updated(old(state)@, value_id, new_val),
        final(state).labels() == old(state).labels(),
{
    let id = value_id as usize;
    if id >= state.lattice.len() {
        return;
    }
    let before = state.lattice[id];
    let merged = before.meet(new_val);
    if merged != before {
        state.lattice[id] = merged;
        state.ssa_worklist.push(value_id);
    }
}

proof fn lemma_phi_stays_bottom(
    labels: Map<u32, u32>,
    incoming: Seq<(Operand, BlockId)>,
    dest: u32,
    b: u32,
    f: Facts,
    k: nat,
    n: nat,
)
    requires
        k <= n,
        phi_value(labels, incoming, dest, b, f, k) is Bottom,
    ensures
        phi_value(labels, incoming, dest, b, f, n) is Bottom,
    decreases n,
{
    if k < n {
        lemma_phi_stays_bottom(labels, incoming, dest, b, f, k, (n - 1) as nat);
    }
}

/// Meet of incoming values from executable edges only.
fn evaluate_phi(
    dest: Value,
    incoming: &Vec<(Operand, BlockId)>,
    block_idx: u32,
    state: &SccpState,
) -> (r: LatticeVal)
    ensures
        r == phi_value(
            state.labels(),
            incoming@,
            dest.0,
            block_idx,
            state@,
            incoming@.len(),
        ),
{
    let mut result = LatticeVal::Top;
    let mut k: usize = 0;
    while k < incoming.len()
        invariant
            k <= incoming@.len(),
            result == phi_value(state.labels(), incoming@, dest.0, block_idx, state@, k as nat),
        decreases incoming@.len() - k,
    {
        let (op, from_label) = &incoming[k];
        match state.label_to_idx.get(*from_label) {
            Some(from_idx) => {
                let is_self = match op {
                    Operand::Value(v) => v.0 == dest.0,
                    Operand::Const(_) => false,
                };
                if state.executable_edges.contains(from_idx, block_idx) && !is_self {
                    result = result.meet(resolve_lattice(op, state));
                }
            },
            None => {
                result = LatticeVal::Bottom;
            },
        }
        k += 1;
        if result.is_bottom() {
            proof {
                lemma_phi_stays_bottom(
                    state.labels(),
                    incoming@,
                    dest.0,
                    block_idx,
                    state@,
                    k as nat,
                    incoming@.len(),
                );
            }
            return result;
        }
    }
    result
}

/// Evaluate a single instruction and update its destination's lattice value.
/// `block_idx` is the index of the block containing this instruction.
fn evaluate_instruction(inst: &Instruction, block_idx: u32, state: &mut SccpState)
    ensures
        final(state)@ == evaluated(old(state).labels(), *inst, block_idx, old(state)@),
        final(state).labels() == old(state).labels(),
{
    match inst {
        Instruction::Phi { dest, incoming, .. } => {
            let result = evaluate_phi(*dest, incoming, block_idx, state);
            update_lattice(dest.0, result, state);
        },
        Instruction::Copy { dest, src } => {
            let result = resolve_lattice(src, state);
            update_lattice(dest.0, result, state);
        },
        Instruction::BinOp { dest, op, lhs, rhs, ty } => {
            let lv = resolve_lattice(lhs, state);
            let rv = resolve_lattice(rhs, state);
            update_lattice(dest.0, eval_binop(*op, lv, rv, *ty), state);
        },
        Instruction::UnaryOp { dest, op, src, ty } => {
            let sv = resolve_lattice(src, state);
            update_lattice(dest.0, eval_unaryop(*op, sv, *ty), state);
        },
        Instruction::Cmp { dest, op, lhs, rhs, ty } => {
            let lv = resolve_lattice(lhs, state);
            let rv = resolve_lattice(rhs, state);
            update_lattice(dest.0, eval_cmp(*op, lv, rv, *ty), state);
        },
        Instruction::Cast { dest, src, from_ty, to_ty } => {
            let sv = resolve_lattice(src, state);
            update_lattice(dest.0, eval_cast(sv, *from_ty, *to_ty), state);
        },
        Instruction::Select { dest, cond, true_val, false_val, .. } => {
            let result = match resolve_lattice(cond, state) {
                LatticeVal::Top => LatticeVal::Top,
                LatticeVal::Constant(c) => if const_is_nonzero(&c) {
                    resolve_lattice(true_val, state)
                } else {
                    resolve_lattice(false_val, state)
                },
                // Both arms contribute.
                LatticeVal::Bottom => resolve_lattice(true_val, state).meet(
                    resolve_lattice(false_val, state),
                ),
            };
            update_lattice(dest.0, result, state);
        },
        // Conservative: these always produce Bottom.
        Instruction::Load { dest, .. } | Instruction::Alloca { dest, .. } | Instruction::DynAlloca {
            dest,
            ..
        } | Instruction::GlobalAddr { dest, .. } | Instruction::GetElementPtr { dest, .. }
        | Instruction::AtomicRmw { dest, .. } | Instruction::AtomicCmpxchg { dest, .. }
        | Instruction::AtomicLoad { dest, .. } | Instruction::VaArg { dest, .. }
        | Instruction::LabelAddr { dest, .. } | Instruction::GetReturnF64Second { dest }
        | Instruction::GetReturnF32Second { dest } | Instruction::GetReturnF128Second { dest }
        | Instruction::StackSave { dest } | Instruction::Memcpy { dest, .. }
        | Instruction::ParamRef { dest, .. } => {
            update_lattice(dest.0, LatticeVal::Bottom, state);
        },
        Instruction::Call { info, .. } | Instruction::CallIndirect { info, .. } => {
            if let Some(dest) = info.dest {
                update_lattice(dest.0, LatticeVal::Bottom, state);
            }
        },
        Instruction::Intrinsic { dest, .. } => {
            if let Some(dest) = dest {
                update_lattice(dest.0, LatticeVal::Bottom, state);
            }
        },
        // Instructions with no destination value — nothing to propagate.
        _ => {},
    }
}

/// Mark a CFG edge executable. If the edge is new, its target is to be visited,
/// or visited again: a new incoming edge may change phi lattice values.
fn mark_edge_executable(from: u32, to: u32, state: &mut SccpState)
    ensures
        final(state)@ == marked(old(state)@, from, to),
        final(state).labels() == old(state).labels(),
{
    if !state.executable_edges.insert(from, to) {
        assert(state@.edges =~= old(state)@.edges);
        return;
    }
    state.cfg_worklist.push(to);
}

/// Marks the edges from a block to some labels executable.
fn mark_edges(block_idx: u32, targets: &Vec<BlockId>, state: &mut SccpState)
    ensures
        final(state)@ == marked_all(
            old(state).labels(),
            old(state)@,
            block_idx,
            targets@,
            targets@.len(),
        ),
        final(state).labels() == old(state).labels(),
{
    let mut k: usize = 0;
    while k < targets.len()
        invariant
            k <= targets@.len(),
            state.labels() == old(state).labels(),
            state@ == marked_all(
                old(state).labels(),
                old(state)@,
                block_idx,
                targets@,
                k as nat,
            ),
        decreases targets@.len() - k,
    {
        if let Some(to_idx) = state.label_to_idx.get(targets[k]) {
            mark_edge_executable(block_idx, to_idx, state);
        }
        k += 1;
    }
}

fn find_case(cases: &Vec<(i64, BlockId)>, v: i64, default: BlockId) -> (r: BlockId)
    ensures
        r == case_from(cases@, v, 0, default),
{
    let mut k: usize = 0;
    while k < cases.len()
        invariant
            k <= cases@.len(),
            case_from(cases@, v, 0, default) == case_from(cases@, v, k as int, default),
        decreases cases@.len() - k,
    {
        if cases[k].0 == v {
            return cases[k].1;
        }
        k += 1;
    }
    default
}

/// The labels that a terminator may lead to.
fn taken_labels(term: &Terminator, state: &SccpState) -> (r: Vec<BlockId>)
    ensures
        r@ == taken(*term, state@.lattice),
{
    let mut out: Vec<BlockId> = Vec::new();
    match term {
        Terminator::Branch(target) => {
            out.push(*target);
        },
        Terminator::CondBranch { cond, true_label, false_label } => {
            match resolve_lattice(cond, state) {
                // Optimistic: neither edge yet.
                LatticeVal::Top => {},
                LatticeVal::Constant(c) => {
                    if const_is_nonzero(&c) {
                        out.push(*true_label);
                    } else {
                        out.push(*false_label);
                    }
                },
                LatticeVal::Bottom => {
                    out.push(*true_label);
                    out.push(*false_label);
                },
            }
        },
        Terminator::Switch { val, cases, default, .. } => {
            match resolve_lattice(val, state) {
                // Optimistic: no edge yet.
                LatticeVal::Top => {},
                LatticeVal::Constant(c) => {
                    // Only the matching case.
                    match c.to_i64() {
                        Some(v) => {
                            out.push(find_case(cases, v, *default));
                        },
                        None => {
                            out.push(*default);
                        },
                    }
                },
                LatticeVal::Bottom => {
                    let mut k: usize = 0;
                    while k < cases.len()
                        invariant
                            k <= cases@.len(),
                            out@ == case_labels(cases@).take(k as int),
                        decreases cases@.len() - k,
                    {
                        out.push(cases[k].1);
                        k += 1;
                    }
                    out.push(*default);
                },
            }
        },
        Terminator::IndirectBranch { possible_targets, .. } => {
            // Conservative: all targets may be taken.
            let mut k: usize = 0;
            while k < possible_targets.len()
                invariant
                    k <= possible_targets@.len(),
                    out@ == possible_targets@.take(k as int),
                decreases possible_targets@.len() - k,
            {
                out.push(possible_targets[k]);
                k += 1;
            }
        },
        Terminator::Return(_) | Terminator::Unreachable => {},
    }
    assert(out@ =~= taken(*term, state@.lattice));
    out
}

/// Evaluate a terminator and mark CFG edges executable.
fn evaluate_terminator(term: &Terminator, block_idx: u32, state: &mut SccpState)
    ensures
        final(state)@ == branched(old(state).labels(), *term, block_idx, old(state)@),
        final(state).labels() == old(state).labels(),
{
    let targets = taken_labels(term, state);
    mark_edges(block_idx, &targets, state);
}

fn evaluate_instructions(
    insts: &Vec<Instruction>,
    block_idx: u32,
    phis_only: bool,
    state: &mut SccpState,
)
    ensures
        final(state)@ == evaluated_all(
            old(state).labels(),
            insts@,
            block_idx,
            old(state)@,
            phis_only,
            insts@.len(),
        ),
        final(state).labels() == old(state).labels(),
{
    let mut i: usize = 0;
    while i < insts.len()
        invariant
            i <= insts@.len(),
            state.labels() == old(state).labels(),
            state@ == evaluated_all(
                old(state).labels(),
                insts@,
                block_idx,
                old(state)@,
                phis_only,
                i as nat,
            ),
        decreases insts@.len() - i,
    {
        if !phis_only || matches!(insts[i], Instruction::Phi { .. }) {
            evaluate_instruction(&insts[i], block_idx, state);
        }
        i += 1;
    }
}

/// Evaluate all instructions and the terminator in a block.
fn visit_block(block: &BasicBlock, block_idx: u32, state: &mut SccpState)
    ensures
        final(state)@ == visited(old(state).labels(), *block, block_idx, old(state)@, false),
        final(state).labels() == old(state).labels(),
{
    evaluate_instructions(&block.instructions, block_idx, false, state);
    evaluate_terminator(&block.terminator, block_idx, state);
}

/// Re-evaluate only phi nodes in a block (called when a new edge becomes executable),
/// and the terminator since it may depend on phi results.
fn visit_phis(block: &BasicBlock, block_idx: u32, state: &mut SccpState)
    ensures
        final(state)@ == visited(old(state).labels(), *block, block_idx, old(state)@, true),
        final(state).labels() == old(state).labels(),
{
    evaluate_instructions(&block.instructions, block_idx, true, state);
    evaluate_terminator(&block.terminator, block_idx, state);
}

/// Takes a block from the worklist and visits it.
fn process_block(blocks: &Vec<BasicBlock>, state: &mut SccpState)
    requires
        old(state)@.cfg.len() > 0,
        old(state)@.reached.len() == blocks@.len(),
    ensures
        final(state)@ == cfg_step(old(state).labels(), blocks@, old(state)@),
        final(state).labels() == old(state).labels(),
{
    let block_idx = match state.cfg_worklist.pop() {
        Some(b) => b,
        None => {
            return;
        },
    };
    let ghost popped = state@;
    assert(popped == (Facts { cfg: old(state)@.cfg.drop_last(), ..old(state)@ }));
    let bi = block_idx as usize;
    if bi >= blocks.len() {
        return;
    }
    if !state.block_executable[bi] {
        state.block_executable[bi] = true;
        assert(state@ == (Facts { reached: popped.reached.update(bi as int, true), ..popped }));
        visit_block(&blocks[bi], block_idx, state);
    } else {
        visit_phis(&blocks[bi], block_idx, state);
    }
}

/// Takes a value from the worklist and evaluates its uses in executable blocks.
fn process_value(blocks: &Vec<BasicBlock>, usedef: &UseDefInfo, state: &mut SccpState)
    requires
        old(state)@.ssa.len() > 0,
        facts_fit(old(state)@, blocks@.len()),
        labels_fit(old(state).labels(), blocks@.len()),
        usedef.wf(),
    ensures
        final(state)@ == ssa_step(old(state).labels(), blocks@, *usedef, old(state)@),
        final(state).labels() == old(state).labels(),
{
    let value_id = match state.ssa_worklist.pop() {
        Some(v) => v,
        None => {
            return;
        },
    };
    let ghost popped = state@;
    assert(popped == (Facts { ssa: old(state)@.ssa.drop_last(), ..old(state)@ }));
    let locs = usedef.uses_of(value_id);
    let mut k: usize = 0;
    while k < locs.len()
        invariant
            k <= locs@.len(),
            facts_fit(popped, blocks@.len()),
            labels_fit(state.labels(), blocks@.len()),
            state.labels() == old(state).labels(),
            state@ == reevaluated_all(state.labels(), blocks@, locs@, popped, k as nat),
        decreases locs@.len() - k,
    {
        proof {
            lemma_reevaluated_all(state.labels(), blocks@, locs@, popped, k as nat);
        }
        let loc = locs[k];
        let bi = loc.block_idx as usize;
        if bi < blocks.len() && state.block_executable[bi] {
            if loc.is_terminator() {
                evaluate_terminator(&blocks[bi].terminator, loc.block_idx, state);
            } else {
                let ii = loc.inst_idx as usize;
                if ii < blocks[bi].instructions.len() {
                    evaluate_instruction(&blocks[bi].instructions[ii], loc.block_idx, state);
                }
            }
        }
        k += 1;
    }
}

// ── Rewriting ───────────────────────────────────────────────────────────────

/// An operand with the constant in place of a value that is known to be one.
pub open spec fn rewritten_op(op: Operand, known: Seq<LatticeVal>) -> Operand {
    match op {
        Operand::Value(v) => match resolved(op, known) {
            LatticeVal::Constant(c) => Operand::Const(c),
            _ => op,
        },
        Operand::Const(_) => op,
    }
}

/// 1 if an operand is rewritten, else 0.
pub open spec fn op_changes(op: Operand, known: Seq<LatticeVal>) -> nat {
    if rewritten_op(op, known) == op {
        0
    } else {
        1
    }
}

/// The incoming operands of a phi, rewritten.
pub open spec fn rewritten_incoming(
    incoming: Seq<(Operand, BlockId)>,
    known: Seq<LatticeVal>,
) -> Seq<(Operand, BlockId)> {
    Seq::new(incoming.len(), |k: int| (rewritten_op(incoming[k].0, known), incoming[k].1))
}

/// Number of the first `n` incoming operands of a phi that are rewritten.
pub open spec fn incoming_changes(
    incoming: Seq<(Operand, BlockId)>,
    known: Seq<LatticeVal>,
    n: nat,
) -> nat
    decreases n,
{
    if n == 0 {
        0
    } else {
        incoming_changes(incoming, known, (n - 1) as nat) + op_changes(incoming[n - 1].0, known)
    }
}

/// `new` is `inst` with its operands rewritten. Operations on constants, copies and
/// phis are; loads, stores, calls and the like are not.
pub open spec fn inst_rewritten(
    inst: Instruction,
    new: Instruction,
    known: Seq<LatticeVal>,
) -> bool {
    match inst {
        Instruction::BinOp { dest, op, lhs, rhs, ty } => new == (Instruction::BinOp {
            dest,
            op,
            lhs: rewritten_op(lhs, known),
            rhs: rewritten_op(rhs, known),
            ty,
        }),
        Instruction::UnaryOp { dest, op, src, ty } => new == (Instruction::UnaryOp {
            dest,
            op,
            src: rewritten_op(src, known),
            ty,
        }),
        Instruction::Cmp { dest, op, lhs, rhs, ty } => new == (Instruction::Cmp {
            dest,
            op,
            lhs: rewritten_op(lhs, known),
            rhs: rewritten_op(rhs, known),
            ty,
        }),
        Instruction::Cast { dest, src, from_ty, to_ty } => new == (Instruction::Cast {
            dest,
            src: rewritten_op(src, known),
            from_ty,
            to_ty,
        }),
        Instruction::Copy { dest, src } => new == (Instruction::Copy {
            dest,
            src: rewritten_op(src, known),
        }),
        Instruction::Select { dest, cond, true_val, false_val, ty } => new == (
        Instruction::Select {
            dest,
            cond: rewritten_op(cond, known),
            true_val: rewritten_op(true_val, known),
            false_val: rewritten_op(false_val, known),
            ty,
        }),
        Instruction::Phi { dest, incoming, ty } => match new {
            Instruction::Phi { dest: d, incoming: i, ty: t } => d == dest && t == ty && i@
                == rewritten_incoming(incoming@, known),
            _ => false,
        },
        _ => new == inst,
    }
}

/// Number of operands of an instruction that are rewritten.
pub open spec fn inst_changes(inst: Instruction, known: Seq<LatticeVal>) -> nat {
    match inst {
        Instruction::BinOp { lhs, rhs, .. } => op_changes(lhs, known) + op_changes(rhs, known),
        Instruction::UnaryOp { src, .. } => op_changes(src, known),
        Instruction::Cmp { lhs, rhs, .. } => op_changes(lhs, known) + op_changes(rhs, known),
        Instruction::Cast { src, .. } => op_changes(src, known),
        Instruction::Copy { src, .. } => op_changes(src, known),
        Instruction::Select { cond, true_val, false_val, .. } => op_changes(cond, known)
            + op_changes(true_val, known) + op_changes(false_val, known),
        Instruction::Phi { incoming, .. } => incoming_changes(
            incoming@,
            known,
            incoming@.len(),
        ),
        _ => 0,
    }
}

/// Where a terminator with a known condition leads.
pub open spec fn decided(term: Terminator, known: Seq<LatticeVal>) -> Option<BlockId> {
    match term {
        Terminator::CondBranch { cond, true_label, false_label } => match resolved(
            cond,
            known,
        ).constant() {
            Some(c) => Some(
                if lattice::nonzero(c) {
                    true_label
                } else {
                    false_label
                },
            ),
            None => None,
        },
        Terminator::Switch { val, cases, default, .. } => match resolved(val, known).constant() {
            Some(c) => match c.as_i64() {
                Some(v) => Some(case_from(cases@, v, 0, default)),
                None => None,
            },
            None => None,
        },
        _ => None,
    }
}

/// A terminator with a plain branch in place of one with a known condition, and with a
/// constant in place of a returned value that is known.
pub open spec fn rewritten_term(term: Terminator, known: Seq<LatticeVal>) -> Terminator {
    match decided(term, known) {
        Some(target) => Terminator::Branch(target),
        None => match term {
            Terminator::Return(Some(op)) => Terminator::Return(Some(rewritten_op(op, known))),
            _ => term,
        },
    }
}

/// Number of changes in a terminator.
pub open spec fn term_changes(term: Terminator, known: Seq<LatticeVal>) -> nat {
    if decided(term, known) is Some {
        1
    } else {
        match term {
            Terminator::Return(Some(op)) => op_changes(op, known),
            _ => 0,
        }
    }
}

/// Number of changes in the first `n` instructions of a block.
pub open spec fn insts_changes(insts: Seq<Instruction>, known: Seq<LatticeVal>, n: nat) -> nat
    decreases n,
{
    if n == 0 {
        0
    } else {
        insts_changes(insts, known, (n - 1) as nat) + inst_changes(insts[n - 1], known)
    }
}

/// Number of changes in a block.
pub open spec fn block_changes(block: BasicBlock, known: Seq<LatticeVal>) -> nat {
    insts_changes(block.instructions@, known, block.instructions@.len()) + term_changes(
        block.terminator,
        known,
    )
}

/// Number of changes in the first `n` blocks: in one that was not reached it is only the
/// terminator that may change.
pub open spec fn changes_in(blocks: Seq<BasicBlock>, f: Facts, n: nat) -> nat
    decreases n,
{
    if n == 0 {
        0
    } else {
        changes_in(blocks, f, (n - 1) as nat) + if f.reached[n - 1] {
            block_changes(blocks[n - 1], f.lattice)
        } else if blocks[n - 1].terminator is Unreachable {
            0
        } else {
            1
        }
    }
}

/// `new` is `block` with its operands and its terminator rewritten if it was reached, and
/// marked as unreachable if it was not.
pub open spec fn block_rewritten(
    block: BasicBlock,
    new: BasicBlock,
    known: Seq<LatticeVal>,
    reached: bool,
) -> bool {
    &&& new.label == block.label
    &&& new.source_spans == block.source_spans
    &&& if reached {
        &&& new.instructions@.len() == block.instructions@.len()
        &&& forall|i: int|
            0 <= i < block.instructions@.len() ==> inst_rewritten(
                block.instructions@[i],
                #[trigger] new.instructions@[i],
                known,
            )
        &&& new.terminator == rewritten_term(block.terminator, known)
    } else {
        &&& new.instructions == block.instructions
        &&& new.terminator == Terminator::Unreachable
    }
}

/// `new` is `func` with the blocks that were reached rewritten, and the others marked.
pub open spec fn rewritten(func: IrFunction, new: IrFunction, f: Facts) -> bool {
    &&& new.name == func.name
    &&& new.return_type == func.return_type
    &&& new.params == func.params
    &&& new.is_variadic == func.is_variadic
    &&& new.next_value_id == func.next_value_id
    &&& new.blocks@.len() == func.blocks@.len()
    &&& forall|b: int|
        0 <= b < func.blocks@.len() ==> block_rewritten(
            func.blocks@[b],
            #[trigger] new.blocks@[b],
            f.lattice,
            f.reached[b],
        )
}

/// `a` and `b` are the same instruction.
pub open spec fn same_inst(a: Instruction, b: Instruction) -> bool {
    a == b || match (a, b) {
        (
            Instruction::Phi { dest, incoming, ty },
            Instruction::Phi { dest: d, incoming: i, ty: t },
        ) => d == dest && t == ty && i@ == incoming@,
        _ => false,
    }
}

proof fn lemma_incoming_unchanged(
    incoming: Seq<(Operand, BlockId)>,
    known: Seq<LatticeVal>,
    n: nat,
    k: int,
)
    requires
        0 <= k < n <= incoming.len(),
        incoming_changes(incoming, known, n) == 0,
    ensures
        rewritten_op(incoming[k].0, known) == incoming[k].0,
    decreases n,
{
    if k < n - 1 {
        lemma_incoming_unchanged(incoming, known, (n - 1) as nat, k);
    }
}

proof fn lemma_inst_unchanged(inst: Instruction, new: Instruction, known: Seq<LatticeVal>)
    requires
        inst_rewritten(inst, new, known),
        inst_changes(inst, known) == 0,
    ensures
        same_inst(inst, new),
{
    if let Instruction::Phi { incoming, .. } = inst {
        let all = incoming@;
        assert forall|k: int| 0 <= k < all.len() implies rewritten_incoming(all, known)[k]
            == all[k] by {
            lemma_incoming_unchanged(all, known, all.len(), k);
        }
        assert(rewritten_incoming(all, known) =~= all);
    }
}

proof fn lemma_insts_unchanged(insts: Seq<Instruction>, known: Seq<LatticeVal>, n: nat, k: int)
    requires
        0 <= k < n <= insts.len(),
        insts_changes(insts, known, n) == 0,
    ensures
        inst_changes(insts[k], known) == 0,
    decreases n,
{
    if k < n - 1 {
        lemma_insts_unchanged(insts, known, (n - 1) as nat, k);
    }
}

proof fn lemma_block_unchanged(blocks: Seq<BasicBlock>, f: Facts, n: nat, b: int)
    requires
        0 <= b < n <= blocks.len(),
        changes_in(blocks, f, n) == 0,
    ensures
        f.reached[b] ==> block_changes(blocks[b], f.lattice) == 0,
        !f.reached[b] ==> blocks[b].terminator is Unreachable,
    decreases n,
{
    if b < n - 1 {
        lemma_block_unchanged(blocks, f, (n - 1) as nat, b);
    }
}

/// If the number of changes is zero, no block has changed.
pub proof fn law_no_changes_means_unchanged(func: IrFunction, new: IrFunction, f: Facts, b: int)
    requires
        rewritten(func, new, f),
        changes_in(func.blocks@, f, func.blocks@.len()) == 0,
        0 <= b < func.blocks@.len(),
    ensures
        new.blocks@[b].label == func.blocks@[b].label,
        new.blocks@[b].terminator == func.blocks@[b].terminator,
        new.blocks@[b].instructions@.len() == func.blocks@[b].instructions@.len(),
        forall|i: int|
            0 <= i < func.blocks@[b].instructions@.len() ==> same_inst(
                func.blocks@[b].instructions@[i],
                #[trigger] new.blocks@[b].instructions@[i],
            ),
{
    let block = func.blocks@[b];
    let other = new.blocks@[b];
    assert(block_rewritten(block, other, f.lattice, f.reached[b]));
    lemma_block_unchanged(func.blocks@, f, func.blocks@.len(), b);
    if f.reached[b] {
        let insts = block.instructions@;
        assert forall|i: int| 0 <= i < insts.len() implies same_inst(
            insts[i],
            #[trigger] other.instructions@[i],
        ) by {
            lemma_insts_unchanged(insts, f.lattice, insts.len(), i);
            lemma_inst_unchanged(insts[i], other.instructions@[i], f.lattice);
        }
    }
}

proof fn lemma_incoming_settled(
    incoming: Seq<(Operand, BlockId)>,
    known: Seq<LatticeVal>,
    n: nat,
)
    requires
        n <= incoming.len(),
    ensures
        incoming_changes(rewritten_incoming(incoming, known), known, n) == 0,
    decreases n,
{
    if n > 0 {
        lemma_incoming_settled(incoming, known, (n - 1) as nat);
    }
}

proof fn lemma_insts_settled(
    insts: Seq<Instruction>,
    new: Seq<Instruction>,
    known: Seq<LatticeVal>,
    n: nat,
)
    requires
        n <= insts.len() == new.len(),
        forall|i: int| 0 <= i < insts.len() ==> inst_rewritten(insts[i], #[trigger] new[i], known),
    ensures
        insts_changes(new, known, n) == 0,
    decreases n,
{
    if n > 0 {
        lemma_insts_settled(insts, new, known, (n - 1) as nat);
        assert(inst_rewritten(insts[n - 1], new[n - 1], known));
        if let Instruction::Phi { incoming, .. } = insts[n - 1] {
            lemma_incoming_settled(incoming@, known, incoming@.len());
        }
    }
}

/// Rewriting leaves nothing to rewrite: with the same facts there are no changes in
/// the rewritten function.
pub proof fn law_rewriting_is_complete(func: IrFunction, new: IrFunction, f: Facts, n: nat)
    requires
        rewritten(func, new, f),
        n <= func.blocks@.len(),
    ensures
        changes_in(new.blocks@, f, n) == 0,
    decreases n,
{
    if n > 0 {
        law_rewriting_is_complete(func, new, f, (n - 1) as nat);
        let block = func.blocks@[n - 1];
        let other = new.blocks@[n - 1];
        assert(block_rewritten(block, other, f.lattice, f.reached[n - 1]));
        if f.reached[n - 1] {
            lemma_insts_settled(
                block.instructions@,
                other.instructions@,
                f.lattice,
                block.instructions@.len(),
            );
        }
    }
}

// ── What a run changes ──────────────────────────────────────────────────────

/// 1 if a value was turned into a constant, else 0.
pub open spec fn turned(a: Operand, b: Operand) -> nat {
    if a is Value && b is Const {
        1
    } else {
        0
    }
}

/// Number of the first `n` incoming operands of a phi that were turned.
pub open spec fn incoming_turned(
    a: Seq<(Operand, BlockId)>,
    b: Seq<(Operand, BlockId)>,
    n: nat,
) -> nat
    decreases n,
{
    if n == 0 {
        0
    } else {
        incoming_turned(a, b, (n - 1) as nat) + turned(a[n - 1].0, b[n - 1].0)
    }
}

/// Number of operands of `a` that are values, and constants in `b`.
pub open spec fn inst_turned(a: Instruction, b: Instruction) -> nat {
    match (a, b) {
        (
            Instruction::BinOp { lhs, rhs, .. },
            Instruction::BinOp { lhs: l, rhs: r, .. },
        ) => turned(lhs, l) + turned(rhs, r),
        (Instruction::UnaryOp { src, .. }, Instruction::UnaryOp { src: s, .. }) => turned(src, s),
        (Instruction::Cmp { lhs, rhs, .. }, Instruction::Cmp { lhs: l, rhs: r, .. }) => turned(
            lhs,
            l,
        ) + turned(rhs, r),
        (Instruction::Cast { src, .. }, Instruction::Cast { src: s, .. }) => turned(src, s),
        (Instruction::Copy { src, .. }, Instruction::Copy { src: s, .. }) => turned(src, s),
        (
            Instruction::Select { cond, true_val, false_val, .. },
            Instruction::Select { cond: c, true_val: t, false_val: f, .. },
        ) => turned(cond, c) + turned(true_val, t) + turned(false_val, f),
        (
            Instruction::Phi { incoming, .. },
            Instruction::Phi { incoming: i, .. },
        ) => incoming_turned(incoming@, i@, incoming@.len()),
        _ => 0,
    }
}

/// Number of operands that were turned in the first `n` instructions.
pub open spec fn insts_turned(a: Seq<Instruction>, b: Seq<Instruction>, n: nat) -> nat
    decreases n,
{
    if n == 0 {
        0
    } else {
        insts_turned(a, b, (n - 1) as nat) + inst_turned(a[n - 1], b[n - 1])
    }
}

/// Number of operands of the first `n` blocks of `a` that are values, and constants in
/// `b`, and of terminators that differ; a returned value that is a constant in `b` counts
/// once.
pub open spec fn changed_between(a: Seq<BasicBlock>, b: Seq<BasicBlock>, n: nat) -> nat
    decreases n,
{
    if n == 0 {
        0
    } else {
        let x = a[n - 1];
        let y = b[n - 1];
        changed_between(a, b, (n - 1) as nat) + insts_turned(
            x.instructions@,
            y.instructions@,
            x.instructions@.len(),
        ) + if x.terminator == y.terminator {
            0nat
        } else {
            1nat
        }
    }
}

/// `a` and `b` differ in their operands at most: destination, operation and types are
/// the same.
pub open spec fn same_but_operands(a: Instruction, b: Instruction) -> bool {
    match (a, b) {
        (
            Instruction::BinOp { dest, op, ty, .. },
            Instruction::BinOp { dest: d, op: o, ty: t, .. },
        ) => d == dest && o == op && t == ty,
        (
            Instruction::UnaryOp { dest, op, ty, .. },
            Instruction::UnaryOp { dest: d, op: o, ty: t, .. },
        ) => d == dest && o == op && t == ty,
        (
            Instruction::Cmp { dest, op, ty, .. },
            Instruction::Cmp { dest: d, op: o, ty: t, .. },
        ) => d == dest && o == op && t == ty,
        (
            Instruction::Cast { dest, from_ty, to_ty, .. },
            Instruction::Cast { dest: d, from_ty: f, to_ty: t, .. },
        ) => d == dest && f == from_ty && t == to_ty,
        (Instruction::Copy { dest, .. }, Instruction::Copy { dest: d, .. }) => d == dest,
        (
            Instruction::Select { dest, ty, .. },
            Instruction::Select { dest: d, ty: t, .. },
        ) => d == dest && t == ty,
        (
            Instruction::Phi { dest, incoming, ty },
            Instruction::Phi { dest: d, incoming: i, ty: t },
        ) => d == dest && t == ty && i@.len() == incoming@.len() && (forall|k: int|
            0 <= k < incoming@.len() ==> (#[trigger] i@[k]).1 == incoming@[k].1),
        _ => a == b,
    }
}

/// Each block of `b` has the instructions of that of `a`, at their places, with other
/// operands at most.
pub open spec fn same_layout(a: IrFunction, b: IrFunction) -> bool {
    &&& a.blocks@.len() == b.blocks@.len()
    &&& forall|k: int|
        0 <= k < a.blocks@.len() ==> (#[trigger] b.blocks@[k]).label == a.blocks@[k].label
            && b.blocks@[k].instructions@.len() == a.blocks@[k].instructions@.len() && forall|
            i: int,
        |
            0 <= i < a.blocks@[k].instructions@.len() ==> same_but_operands(
                a.blocks@[k].instructions@[i],
                #[trigger] b.blocks@[k].instructions@[i],
            )
}

/// Each block of `b` is the same as that of `a`.
pub open spec fn same_code(a: IrFunction, b: IrFunction) -> bool {
    &&& a.blocks@.len() == b.blocks@.len()
    &&& forall|k: int|
        0 <= k < a.blocks@.len() ==> (#[trigger] b.blocks@[k]).label == a.blocks@[k].label
            && b.blocks@[k].terminator == a.blocks@[k].terminator
            && b.blocks@[k].instructions@.len() == a.blocks@[k].instructions@.len() && forall|
            i: int,
        |
            0 <= i < a.blocks@[k].instructions@.len() ==> same_inst(
                a.blocks@[k].instructions@[i],
                #[trigger] b.blocks@[k].instructions@[i],
            )
}

proof fn lemma_incoming_turned(
    a: Seq<(Operand, BlockId)>,
    known: Seq<LatticeVal>,
    n: nat,
)
    requires
        n <= a.len(),
    ensures
        incoming_turned(a, rewritten_incoming(a, known), n) == incoming_changes(a, known, n),
        incoming_turned(a, a, n) == 0,
    decreases n,
{
    if n > 0 {
        lemma_incoming_turned(a, known, (n - 1) as nat);
    }
}

proof fn lemma_inst_turned(inst: Instruction, new: Instruction, known: Seq<LatticeVal>)
    ensures
        inst_rewritten(inst, new, known) ==> inst_turned(inst, new) == inst_changes(inst, known)
            && same_but_operands(inst, new),
        inst_turned(inst, inst) == 0,
        same_but_operands(inst, inst),
{
    if let Instruction::Phi { incoming, .. } = inst {
        lemma_incoming_turned(incoming@, known, incoming@.len());
    }
}

proof fn lemma_insts_turned(
    a: Seq<Instruction>,
    b: Seq<Instruction>,
    known: Seq<LatticeVal>,
    n: nat,
)
    requires
        n <= a.len() == b.len(),
    ensures
        (forall|i: int| 0 <= i < a.len() ==> inst_rewritten(a[i], #[trigger] b[i], known))
            ==> insts_turned(a, b, n) == insts_changes(a, known, n),
        insts_turned(a, a, n) == 0,
    decreases n,
{
    if n > 0 {
        lemma_insts_turned(a, b, known, (n - 1) as nat);
        lemma_inst_turned(a[n - 1], b[n - 1], known);
    }
}

proof fn lemma_changed_between(func: IrFunction, new: IrFunction, f: Facts, n: nat)
    requires
        rewritten(func, new, f),
        n <= func.blocks@.len(),
    ensures
        changed_between(func.blocks@, new.blocks@, n) == changes_in(func.blocks@, f, n),
    decreases n,
{
    if n > 0 {
        lemma_changed_between(func, new, f, (n - 1) as nat);
        let x = func.blocks@[n - 1];
        let y = new.blocks@[n - 1];
        assert(block_rewritten(x, y, f.lattice, f.reached[n - 1]));
        lemma_insts_turned(
            x.instructions@,
            y.instructions@,
            f.lattice,
            x.instructions@.len(),
        );
    }
}

/// The number of changes is the number of operands that were turned from values into
/// constants, and of terminators that changed, a returned value among them; if it is zero, the code is the same. In any
/// case no instruction changes its destination, its operation, its types or its place.
pub proof fn law_changes_are_counted(func: IrFunction, new: IrFunction, f: Facts)
    requires
        rewritten(func, new, f),
    ensures
        changes_in(func.blocks@, f, func.blocks@.len()) == changed_between(
            func.blocks@,
            new.blocks@,
            func.blocks@.len(),
        ),
        changes_in(func.blocks@, f, func.blocks@.len()) == 0 ==> same_code(func, new),
        same_layout(func, new),
        func.blocks@.len() == 0 ==> changes_in(func.blocks@, f, func.blocks@.len()) == 0,
{
    lemma_changed_between(func, new, f, func.blocks@.len());
    if changes_in(func.blocks@, f, func.blocks@.len()) == 0 {
        assert forall|k: int| 0 <= k < func.blocks@.len() implies (#[trigger] new.blocks@[k]).label
            == func.blocks@[k].label && new.blocks@[k].terminator == func.blocks@[k].terminator
            && new.blocks@[k].instructions@.len() == func.blocks@[k].instructions@.len() && forall|
            i: int,
        |
            0 <= i < func.blocks@[k].instructions@.len() ==> same_inst(
                func.blocks@[k].instructions@[i],
                #[trigger] new.blocks@[k].instructions@[i],
            ) by {
            law_no_changes_means_unchanged(func, new, f, k);
        }
    }
    assert forall|k: int| 0 <= k < func.blocks@.len() implies (#[trigger] new.blocks@[k]).label
        == func.blocks@[k].label && new.blocks@[k].instructions@.len()
        == func.blocks@[k].instructions@.len() && forall|i: int|
        0 <= i < func.blocks@[k].instructions@.len() ==> same_but_operands(
            func.blocks@[k].instructions@[i],
            #[trigger] new.blocks@[k].instructions@[i],
        ) by {
        assert(block_rewritten(func.blocks@[k], new.blocks@[k], f.lattice, f.reached[k]));
        assert forall|i: int|
            0 <= i < func.blocks@[k].instructions@.len() implies same_but_operands(
            func.blocks@[k].instructions@[i],
            #[trigger] new.blocks@[k].instructions@[i],
        ) by {
            lemma_inst_turned(
                func.blocks@[k].instructions@[i],
                new.blocks@[k].instructions@[i],
                f.lattice,
            );
        }
    }
}

/// Try to replace a Value operand with its constant lattice value.
/// Returns 1 if replaced, 0 otherwise.
fn rewrite_operand(op: &mut Operand, state: &SccpState) -> (r: usize)
    ensures
        *final(op) == rewritten_op(*old(op), state@.lattice),
        r == op_changes(*old(op), state@.lattice),
{
    if let Operand::Value(v) = *op {
        let id = v.0 as usize;
        if id < state.lattice.len() {
            if let LatticeVal::Constant(c) = state.lattice[id] {
                *op = Operand::Const(c);
                return 1;
            }
        }
    }
    0
}

/// The most operands that can be rewritten in an instruction.
pub open spec fn inst_room(inst: Instruction) -> nat {
    match inst {
        Instruction::Phi { incoming, .. } => incoming@.len(),
        _ => 3,
    }
}

/// The most changes that there can be in the first `n` instructions of a block.
pub open spec fn insts_room(insts: Seq<Instruction>, n: nat) -> nat
    decreases n,
{
    if n == 0 {
        0
    } else {
        insts_room(insts, (n - 1) as nat) + inst_room(insts[n - 1])
    }
}

/// The most changes that there can be in the first `n` blocks.
pub open spec fn changes_room(blocks: Seq<BasicBlock>, n: nat) -> nat
    decreases n,
{
    if n == 0 {
        0
    } else {
        let insts = blocks[n - 1].instructions@;
        changes_room(blocks, (n - 1) as nat) + insts_room(insts, insts.len()) + 1
    }
}

proof fn lemma_incoming_room(incoming: Seq<(Operand, BlockId)>, known: Seq<LatticeVal>, n: nat)
    ensures
        incoming_changes(incoming, known, n) <= n,
    decreases n,
{
    if n > 0 {
        lemma_incoming_room(incoming, known, (n - 1) as nat);
    }
}

proof fn lemma_inst_room(inst: Instruction, known: Seq<LatticeVal>)
    ensures
        inst_changes(inst, known) <= inst_room(inst),
{
    if let Instruction::Phi { incoming, .. } = inst {
        lemma_incoming_room(incoming@, known, incoming@.len());
    }
}

proof fn lemma_insts_room(insts: Seq<Instruction>, known: Seq<LatticeVal>, n: nat)
    ensures
        insts_changes(insts, known, n) <= insts_room(insts, n),
    decreases n,
{
    if n > 0 {
        lemma_insts_room(insts, known, (n - 1) as nat);
        lemma_inst_room(insts[n - 1], known);
    }
}

proof fn lemma_changes_room(blocks: Seq<BasicBlock>, f: Facts, n: nat)
    ensures
        changes_in(blocks, f, n) <= changes_room(blocks, n),
    decreases n,
{
    if n > 0 {
        lemma_changes_room(blocks, f, (n - 1) as nat);
        let insts = blocks[n - 1].instructions@;
        lemma_insts_room(insts, f.lattice, insts.len());
    }
}

proof fn lemma_insts_changes_grow(
    insts: Seq<Instruction>,
    known: Seq<LatticeVal>,
    k: nat,
    n: nat,
)
    requires
        k <= n,
    ensures
        insts_changes(insts, known, k) <= insts_changes(insts, known, n),
    decreases n,
{
    if k < n {
        lemma_insts_changes_grow(insts, known, k, (n - 1) as nat);
    }
}

proof fn lemma_changes_grow(blocks: Seq<BasicBlock>, f: Facts, k: nat, n: nat)
    requires
        k <= n,
    ensures
        changes_in(blocks, f, k) <= changes_in(blocks, f, n),
    decreases n,
{
    if k < n {
        lemma_changes_grow(blocks, f, k, (n - 1) as nat);
    }
}

/// Rewrites the incoming operands of a phi.
fn rewrite_incoming(incoming: &mut Vec<(Operand, BlockId)>, state: &SccpState) -> (r: usize)
    ensures
        final(incoming)@ == rewritten_incoming(old(incoming)@, state@.lattice),
        r == incoming_changes(old(incoming)@, state@.lattice, old(incoming)@.len()),
{
    let mut changes: usize = 0;
    let mut k: usize = 0;
    let n = incoming.len();
    while k < n
        invariant
            k <= n == incoming@.len() == old(incoming)@.len(),
            changes == incoming_changes(old(incoming)@, state@.lattice, k as nat),
            forall|j: int|
                0 <= j < k ==> #[trigger] incoming@[j] == rewritten_incoming(
                    old(incoming)@,
                    state@.lattice,
                )[j],
            forall|j: int| k <= j < n ==> #[trigger] incoming@[j] == old(incoming)@[j],
        decreases n - k,
    {
        proof {
            lemma_incoming_room(old(incoming)@, state@.lattice, k as nat);
        }
        let (op, from) = incoming[k];
        let mut op = op;
        changes = changes + rewrite_operand(&mut op, state);
        incoming[k] = (op, from);
        k += 1;
    }
    assert(incoming@ =~= rewritten_incoming(old(incoming)@, state@.lattice));
    changes
}

/// An instruction with its operands rewritten, and the number of those changed.
fn with_operands_rewritten(inst: Instruction, state: &SccpState) -> (r: (Instruction, usize))
    ensures
        inst_rewritten(inst, r.0, state@.lattice),
        r.1 == inst_changes(inst, state@.lattice),
{
    match inst {
        Instruction::BinOp { dest, op, mut lhs, mut rhs, ty } => {
            let n = rewrite_operand(&mut lhs, state) + rewrite_operand(&mut rhs, state);
            (Instruction::BinOp { dest, op, lhs, rhs, ty }, n)
        },
        Instruction::UnaryOp { dest, op, mut src, ty } => {
            let n = rewrite_operand(&mut src, state);
            (Instruction::UnaryOp { dest, op, src, ty }, n)
        },
        Instruction::Cmp { dest, op, mut lhs, mut rhs, ty } => {
            let n = rewrite_operand(&mut lhs, state) + rewrite_operand(&mut rhs, state);
            (Instruction::Cmp { dest, op, lhs, rhs, ty }, n)
        },
        Instruction::Cast { dest, mut src, from_ty, to_ty } => {
            let n = rewrite_operand(&mut src, state);
            (Instruction::Cast { dest, src, from_ty, to_ty }, n)
        },
        Instruction::Copy { dest, mut src } => {
            let n = rewrite_operand(&mut src, state);
            (Instruction::Copy { dest, src }, n)
        },
        Instruction::Select { dest, mut cond, mut true_val, mut false_val, ty } => {
            let n = rewrite_operand(&mut cond, state) + rewrite_operand(&mut true_val, state)
                + rewrite_operand(&mut false_val, state);
            (Instruction::Select { dest, cond, true_val, false_val, ty }, n)
        },
        Instruction::Phi { dest, mut incoming, ty } => {
            let n = rewrite_incoming(&mut incoming, state);
            (Instruction::Phi { dest, incoming, ty }, n)
        },
        // Other instructions (loads, stores, calls, etc.) are left alone.
        _ => (inst, 0),
    }
}

/// Rewrite operands in an instruction: replace Value operands with Const where
/// the lattice says they're constant. Returns number of operands changed.
fn rewrite_instruction_operands(inst: &mut Instruction, state: &SccpState) -> (r: usize)
    ensures
        inst_rewritten(*old(inst), *final(inst), state@.lattice),
        r == inst_changes(*old(inst), state@.lattice),
{
    let mut owned = Instruction::Fence;
    std::mem::swap(inst, &mut owned);
    let (new, n) = with_operands_rewritten(owned, state);
    *inst = new;
    n
}

/// Where a terminator with a known condition leads.
fn find_decided(term: &Terminator, state: &SccpState) -> (r: Option<BlockId>)
    ensures
        r == decided(*term, state@.lattice),
{
    match term {
        Terminator::CondBranch { cond, true_label, false_label } => {
            let known = resolve_lattice(cond, state);
            match known.as_const() {
                Some(c) => {
                    if const_is_nonzero(&c) {
                        Some(*true_label)
                    } else {
                        Some(*false_label)
                    }
                },
                None => None,
            }
        },
        Terminator::Switch { val, cases, default, .. } => {
            let known = resolve_lattice(val, state);
            match known.as_const() {
                Some(c) => {
                    match c.to_i64() {
                        Some(v) => Some(find_case(cases, v, *default)),
                        None => None,
                    }
                },
                None => None,
            }
        },
        _ => None,
    }
}

/// Rewrite a terminator based on lattice values. Fold CondBranch with known
/// condition to unconditional Branch; fold Switch with known value; replace a
/// returned value that is known.
fn rewrite_terminator(term: &mut Terminator, state: &SccpState) -> (r: usize)
    ensures
        *final(term) == rewritten_term(*old(term), state@.lattice),
        r == term_changes(*old(term), state@.lattice),
{
    match find_decided(term, state) {
        Some(target) => {
            *term = Terminator::Branch(target);
            1
        },
        None => {
            let returned = match term {
                Terminator::Return(Some(op)) => Some(*op),
                _ => None,
            };
            match returned {
                Some(mut op) => {
                    let n = rewrite_operand(&mut op, state);
                    *term = Terminator::Return(Some(op));
                    n
                },
                None => 0,
            }
        },
    }
}

/// Marks a block that was not reached as unreachable. Returns 1 if it was not marked
/// before, 0 otherwise.
fn mark_unreachable(block: &mut BasicBlock) -> (r: usize)
    ensures
        final(block).label == old(block).label,
        final(block).source_spans == old(block).source_spans,
        final(block).instructions == old(block).instructions,
        final(block).terminator == Terminator::Unreachable,
        r == if old(block).terminator is Unreachable {
            0usize
        } else {
            1usize
        },
{
    let marked = matches!(block.terminator, Terminator::Unreachable);
    block.terminator = Terminator::Unreachable;
    if marked {
        0
    } else {
        1
    }
}

/// Rewrites a block that was reached.
fn rewrite_block(block: &mut BasicBlock, state: &SccpState) -> (r: usize)
    requires
        block_changes(*old(block), state@.lattice) <= usize::MAX,
    ensures
        block_rewritten(*old(block), *final(block), state@.lattice, true),
        r == block_changes(*old(block), state@.lattice),
{
    let mut changes: usize = 0;
    let n = block.instructions.len();
    let mut i: usize = 0;
    let ghost insts = block.instructions@;
    let ghost known = state@.lattice;
    while i < n
        invariant
            known == state@.lattice,
            insts == old(block).instructions@,
            i <= n == block.instructions@.len() == insts.len(),
            block.label == old(block).label,
            block.source_spans == old(block).source_spans,
            block.terminator == old(block).terminator,
            block_changes(*old(block), known) <= usize::MAX,
            changes == insts_changes(insts, known, i as nat),
            forall|j: int|
                0 <= j < i ==> inst_rewritten(
                    insts[j],
                    #[trigger] block.instructions@[j],
                    known,
                ),
            forall|j: int| i <= j < n ==> #[trigger] block.instructions@[j] == insts[j],
        decreases n - i,
    {
        proof {
            lemma_insts_changes_grow(insts, known, (i + 1) as nat, insts.len());
        }
        changes = changes + rewrite_instruction_operands(&mut block.instructions[i], state);
        i += 1;
    }
    changes + rewrite_terminator(&mut block.terminator, state)
}

/// Apply SCCP results: replace operands with constants and fold branches in the
/// blocks that were reached, mark unreachable blocks. Returns the number of changes.
fn rewrite(func: &mut IrFunction, state: &SccpState) -> (r: usize)
    requires
        state@.reached.len() == old(func).blocks@.len(),
        changes_room(old(func).blocks@, old(func).blocks@.len()) <= usize::MAX,
    ensures
        rewritten(*old(func), *final(func), state@),
        r == changes_in(old(func).blocks@, state@, old(func).blocks@.len()),
{
    let mut changes: usize = 0;
    let n = func.blocks.len();
    let mut b: usize = 0;
    let ghost blocks = func.blocks@;
    let ghost f = state@;
    proof {
        lemma_changes_room(blocks, f, blocks.len());
    }
    while b < n
        invariant
            f == state@,
            f.reached.len() == n,
            blocks == old(func).blocks@,
            b <= n == func.blocks@.len() == blocks.len(),
            func.name == old(func).name,
            func.return_type == old(func).return_type,
            func.params == old(func).params,
            func.is_variadic == old(func).is_variadic,
            func.next_value_id == old(func).next_value_id,
            changes_in(blocks, f, n as nat) <= usize::MAX,
            changes == changes_in(blocks, f, b as nat),
            forall|j: int|
                0 <= j < b ==> block_rewritten(
                    blocks[j],
                    #[trigger] func.blocks@[j],
                    f.lattice,
                    f.reached[j],
                ),
            forall|j: int| b <= j < n ==> #[trigger] func.blocks@[j] == blocks[j],
        decreases n - b,
    {
        proof {
            lemma_changes_grow(blocks, f, (b + 1) as nat, n as nat);
        }
        if state.block_executable[b] {
            changes = changes + rewrite_block(&mut func.blocks[b], state);
        } else {
            changes = changes + mark_unreachable(&mut func.blocks[b]);
        }
        b += 1;
    }
    changes
}

// ── The pass ────────────────────────────────────────────────────────────────

fn mark_params(func: &IrFunction, lattice: &mut Vec<LatticeVal>)
    requires
        forall|v: int| 0 <= v < old(lattice)@.len() ==> (#[trigger] old(lattice)@[v]) is Top,
    ensures
        final(lattice)@.len() == old(lattice)@.len(),
        forall|v: u32|
            v < final(lattice)@.len() ==> #[trigger] final(lattice)@[v as int]
                == if param_in_blocks(func.blocks@, func.blocks@.len(), v) {
                LatticeVal::Bottom
            } else {
                LatticeVal::Top
            },
{
    let n = lattice.len();
    let mut b: usize = 0;
    while b < func.blocks.len()
        invariant
            b <= func.blocks@.len(),
            n == lattice@.len() == old(lattice)@.len(),
            forall|v: u32|
                v < n ==> #[trigger] lattice@[v as int] == if param_in_blocks(
                    func.blocks@,
                    b as nat,
                    v,
                ) {
                    LatticeVal::Bottom
                } else {
                    LatticeVal::Top
                },
        decreases func.blocks@.len() - b,
    {
        let insts = &func.blocks[b].instructions;
        let mut i: usize = 0;
        while i < insts.len()
            invariant
                b < func.blocks@.len(),
                insts@ == func.blocks@[b as int].instructions@,
                i <= insts@.len(),
                n == lattice@.len() == old(lattice)@.len(),
                forall|v: u32|
                    v < n ==> #[trigger] lattice@[v as int] == if param_in_blocks(
                        func.blocks@,
                        b as nat,
                        v,
                    ) || param_in_insts(insts@, i as nat, v) {
                        LatticeVal::Bottom
                    } else {
                        LatticeVal::Top
                    },
            decreases insts@.len() - i,
        {
            if let Instruction::ParamRef { dest, .. } = &insts[i] {
                let id = dest.0 as usize;
                if id < n {
                    lattice[id] = LatticeVal::Bottom;
                }
            }
            i += 1;
        }
        b += 1;
    }
}

fn mark_undefined(usedef: &UseDefInfo, lattice: &mut Vec<LatticeVal>)
    requires
        old(lattice)@.len() <= usedef.use_count@.len(),
        old(lattice)@.len() <= usedef.def_loc@.len(),
    ensures
        final(lattice)@.len() == old(lattice)@.len(),
        forall|v: int|
            0 <= v < final(lattice)@.len() ==> #[trigger] final(lattice)@[v]
                == if usedef.use_count@[v] > 0 && usedef.def_loc@[v].code()
                == use_def::NONE_SENTINEL {
                LatticeVal::Bottom
            } else {
                old(lattice)@[v]
            },
{
    let n = lattice.len();
    let mut i: usize = 0;
    while i < n
        invariant
            i <= n == lattice@.len() == old(lattice)@.len(),
            n <= usedef.use_count@.len(),
            n <= usedef.def_loc@.len(),
            forall|v: int|
                0 <= v < i ==> #[trigger] lattice@[v] == if usedef.use_count@[v] > 0
                    && usedef.def_loc@[v].code() == use_def::NONE_SENTINEL {
                    LatticeVal::Bottom
                } else {
                    old(lattice)@[v]
                },
            forall|v: int| i <= v < n ==> #[trigger] lattice@[v] == old(lattice)@[v],
        decreases n - i,
    {
        if usedef.use_count[i] > 0 && usedef.def_loc[i].is_none() {
            lattice[i] = LatticeVal::Bottom;
        }
        i += 1;
    }
}

/// The state at the start.
fn start(func: &IrFunction, usedef: &UseDefInfo) -> (r: SccpState)
    requires
        func.blocks@.len() <= u32::MAX,
        func.max_value() < usize::MAX,
        usedef.use_count@.len() > func.max_value(),
        usedef.def_loc@.len() > func.max_value(),
    ensures
        r@ == initial(*func, *usedef),
        r.labels() == index_map(func.blocks@),
        labels_fit(r.labels(), func.blocks@.len()),
{
    let num_blocks = func.blocks.len();
    let num_values = func.max_value_id() as usize + 1;
    let mut lattice: Vec<LatticeVal> = Vec::new();
    while lattice.len() < num_values
        invariant
            lattice@.len() <= num_values,
            forall|v: int| 0 <= v < lattice@.len() ==> (#[trigger] lattice@[v]) is Top,
        decreases num_values - lattice@.len(),
    {
        lattice.push(LatticeVal::Top);
    }
    // Nothing is known of parameter values.
    mark_params(func, &mut lattice);
    // Values that are used but have no definition must be Bottom. Leaving them as Top
    // would make their users look unreachable.
    mark_undefined(usedef, &mut lattice);
    let mut block_executable: Vec<bool> = Vec::new();
    while block_executable.len() < num_blocks
        invariant
            block_executable@.len() <= num_blocks,
            forall|b: int| 0 <= b < block_executable@.len() ==> !(#[trigger] block_executable@[b]),
        decreases num_blocks - block_executable@.len(),
    {
        block_executable.push(false);
    }
    let mut cfg_worklist: Vec<u32> = Vec::new();
    // Seed: entry block is executable.
    cfg_worklist.push(0);
    let r = SccpState {
        lattice,
        block_executable,
        executable_edges: EdgeSet::new(),
        cfg_worklist,
        ssa_worklist: Vec::new(),
        label_to_idx: LabelIndex::build(&func.blocks),
    };
    proof {
        let i = initial(*func, *usedef);
        assert forall|v: int| 0 <= v < num_values implies r@.lattice[v] == i.lattice[v] by {
            assert(r.lattice@[(v as u32) as int] == r.lattice@[v]);
        }
        assert(r@.lattice =~= i.lattice);
        assert(r@.reached =~= i.reached);
        assert(r@.cfg =~= i.cfg);
        assert(r@.ssa =~= i.ssa);
    }
    r
}

/// Processes both worklists until they are empty.
fn propagate(blocks: &Vec<BasicBlock>, usedef: &UseDefInfo, state: &mut SccpState)
    requires
        facts_fit(old(state)@, blocks@.len()),
        labels_fit(old(state).labels(), blocks@.len()),
        usedef.wf(),
    ensures
        final(state)@ == solved(old(state).labels(), blocks@, *usedef, old(state)@, false),
        final(state)@.reached.len() == blocks@.len(),
{
    let mut values = false;
    while state.cfg_worklist.len() > 0 || state.ssa_worklist.len() > 0
        invariant
            facts_fit(state@, blocks@.len()),
            labels_fit(state.labels(), blocks@.len()),
            state.labels() == old(state).labels(),
            usedef.wf(),
            solved(old(state).labels(), blocks@, *usedef, old(state)@, false) == solved(
                state.labels(),
                blocks@,
                *usedef,
                state@,
                values,
            ),
        decreases work(state@, blocks@.len()),
    {
        proof {
            law_step_makes_progress(state.labels(), blocks@, *usedef, state@, values);
        }
        if state.ssa_worklist.len() > 0 && (values || state.cfg_worklist.len() == 0) {
            process_value(blocks, usedef, state);
            values = true;
        } else {
            process_block(blocks, state);
            values = false;
        }
    }
}

/// Entry point: run SCCP on a function with pre-built use-def info.
/// Returns the number of IR changes made.
pub fn run_sccp_with_usedef(func: &mut IrFunction, usedef: &UseDefInfo) -> (r: usize)
    requires
        usedef.wf(),
        usedef.use_count@.len() > old(func).max_value(),
        old(func).blocks@.len() <= u32::MAX,
        old(func).max_value() < usize::MAX,
        changes_room(old(func).blocks@, old(func).blocks@.len()) <= usize::MAX,
    ensures
        rewritten(*old(func), *final(func), conclusions(*old(func), *usedef)),
        r == changes_in(
            old(func).blocks@,
            conclusions(*old(func), *usedef),
            old(func).blocks@.len(),
        ),
        r == changed_between(old(func).blocks@, final(func).blocks@, old(func).blocks@.len()),
        r == 0 ==> same_code(*old(func), *final(func)),
        same_layout(*old(func), *final(func)),
{
    let ghost before = *func;
    let r = if func.blocks.len() == 0 {
        0
    } else {
        let mut state = start(func, usedef);
        propagate(&func.blocks, usedef, &mut state);
        rewrite(func, &state)
    };
    proof {
        law_changes_are_counted(before, *func, conclusions(before, *usedef));
    }
    r
}

} // verus!
