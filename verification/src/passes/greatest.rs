//! Constant propagation finds out the most that can be known: no fixpoint knows more.
//! So running it once more on its own result changes nothing.

use vstd::prelude::*;

use super::execution;
use super::fixpoint;
use super::lattice::LatticeVal;
use super::sccp;
use super::sccp::Facts;
use super::use_def;
use super::use_def::{UseDefInfo, UseLoc};
use crate::ir;
use crate::ir::{BasicBlock, BlockId, Instruction, IrFunction, Operand, Terminator, Value};

verus! {

// ── Evaluation is monotone ──────────────────────────────────────────────────

/// `f` claims at least what `g` does: each value is at most in `g` what it is in `f`,
/// and `g` has every block and edge that `f` has. What `f` still has to visit was
/// reached in `g`.
pub open spec fn claims_more(f: Facts, g: Facts) -> bool {
    &&& f.lattice.len() == g.lattice.len()
    &&& f.reached.len() == g.reached.len()
    &&& forall|v: int| 0 <= v < f.lattice.len() ==> (#[trigger] g.lattice[v]).at_most(f.lattice[v])
    &&& forall|b: int| 0 <= b < f.reached.len() && f.reached[b] ==> #[trigger] g.reached[b]
    &&& f.edges.subset_of(g.edges)
    &&& forall|k: int|
        0 <= k < f.cfg.len() && (#[trigger] f.cfg[k]) < g.reached.len() ==> g.reached[f.cfg[k] as int]
}

/// Every operand, rewritten by `known`, is at most in `g` what it is in `f`.
spec fn lower(known: Seq<LatticeVal>, f: Facts, g: Facts) -> bool {
    forall|op: Operand|
        #![trigger sccp::resolved(op, f.lattice)]
        sccp::resolved(sccp::rewritten_op(op, known), g.lattice).at_most(
            sccp::resolved(op, f.lattice),
        )
}

proof fn lemma_phi_lower(
    labels: Map<u32, u32>,
    incoming: Seq<(Operand, BlockId)>,
    dest: u32,
    b: u32,
    known: Seq<LatticeVal>,
    f: Facts,
    g: Facts,
    n: nat,
)
    requires
        n <= incoming.len(),
        lower(known, f, g),
        f.edges.subset_of(g.edges),
    ensures
        sccp::phi_value(labels, sccp::rewritten_incoming(incoming, known), dest, b, g, n).at_most(
            sccp::phi_value(labels, incoming, dest, b, f, n),
        ),
    decreases n,
{
    if n > 0 {
        lemma_phi_lower(labels, incoming, dest, b, known, f, g, (n - 1) as nat);
        let (op, from) = incoming[n - 1];
        assert(sccp::rewritten_incoming(incoming, known)[n - 1] == (
            sccp::rewritten_op(op, known),
            from,
        ));
        assert(sccp::resolved(sccp::rewritten_op(op, known), g.lattice).at_most(
            sccp::resolved(op, f.lattice),
        ));
    }
}

/// The rewritten instruction gives its destination at most, by what `g` knows, what the
/// instruction gives it by what `f` knows.
proof fn lemma_transfer_lower(
    labels: Map<u32, u32>,
    inst: Instruction,
    new: Instruction,
    b: u32,
    known: Seq<LatticeVal>,
    f: Facts,
    g: Facts,
)
    requires
        sccp::inst_rewritten(inst, new, known),
        lower(known, f, g),
        f.edges.subset_of(g.edges),
    ensures
        match sccp::transfer(labels, inst, b, f) {
            Some((id, v)) => sccp::transfer(labels, new, b, g) matches Some((i, w)) && i == id
                && w.at_most(v),
            None => sccp::transfer(labels, new, b, g) is None,
        },
{
    match inst {
        Instruction::Phi { dest, incoming, .. } => {
            lemma_phi_lower(labels, incoming@, dest.0, b, known, f, g, incoming@.len());
        },
        Instruction::Copy { src, .. } => {
            assert(sccp::resolved(src, f.lattice) == sccp::resolved(src, f.lattice));
        },
        Instruction::BinOp { lhs, rhs, .. } => {
            let l = sccp::resolved(lhs, f.lattice);
            let r = sccp::resolved(rhs, f.lattice);
        },
        Instruction::Cmp { lhs, rhs, .. } => {
            let l = sccp::resolved(lhs, f.lattice);
            let r = sccp::resolved(rhs, f.lattice);
        },
        Instruction::UnaryOp { src, .. } => {
            let s = sccp::resolved(src, f.lattice);
        },
        Instruction::Cast { src, .. } => {
            let s = sccp::resolved(src, f.lattice);
        },
        Instruction::Select { cond, true_val, false_val, .. } => {
            let c = sccp::resolved(cond, f.lattice);
            let t = sccp::resolved(true_val, f.lattice);
            let e = sccp::resolved(false_val, f.lattice);
        },
        _ => {},
    }
}

/// An instruction is its own rewriting where nothing is known.
proof fn lemma_rewritten_by_nothing(inst: Instruction)
    ensures
        sccp::inst_rewritten(inst, inst, Seq::empty()),
{
    if let Instruction::Phi { incoming, .. } = inst {
        assert(sccp::rewritten_incoming(incoming@, Seq::empty()) =~= incoming@);
    }
}

/// A terminator may take by what `g` knows every way that it may take by what `f` knows.
proof fn lemma_taken_more(term: Terminator, f: Facts, g: Facts, k: int)
    requires
        lower(Seq::empty(), f, g),
        0 <= k < sccp::taken(term, f.lattice).len(),
    ensures
        sccp::taken(term, g.lattice).contains(sccp::taken(term, f.lattice)[k]),
{
    let all = sccp::taken(term, g.lattice);
    match term {
        Terminator::CondBranch { cond, .. } => {
            let c = sccp::resolved(cond, f.lattice);
            assert(sccp::rewritten_op(cond, Seq::empty()) == cond);
            if sccp::resolved(cond, g.lattice) is Bottom {
                assert(all[0] == sccp::taken(term, f.lattice)[k] || all[1] == sccp::taken(
                    term,
                    f.lattice,
                )[k]);
            } else {
                assert(all[k] == sccp::taken(term, f.lattice)[k]);
            }
        },
        Terminator::Switch { val, cases, default, .. } => {
            let c = sccp::resolved(val, f.lattice);
            assert(sccp::rewritten_op(val, Seq::empty()) == val);
            if sccp::resolved(val, g.lattice) is Bottom && c is Constant {
                match c->Constant_0.as_i64() {
                    Some(v) => execution::lemma_case_among(cases@, v, 0, default),
                    None => {
                        assert(all[cases@.len() as int] == default);
                    },
                }
            } else {
                assert(all[k] == sccp::taken(term, f.lattice)[k]);
            }
        },
        _ => {
            assert(all[k] == sccp::taken(term, f.lattice)[k]);
        },
    }
}

proof fn lemma_claims_lower(f: Facts, g: Facts)
    requires
        claims_more(f, g),
    ensures
        lower(Seq::empty(), f, g),
{
    assert forall|op: Operand|
        #![trigger sccp::resolved(op, f.lattice)]
        sccp::resolved(sccp::rewritten_op(op, Seq::empty()), g.lattice).at_most(
            sccp::resolved(op, f.lattice),
        ) by {
        if let Operand::Value(v) = op {
            if v.0 < f.lattice.len() {
                assert(g.lattice[v.0 as int].at_most(f.lattice[v.0 as int]));
            }
        }
    }
}

// ── Each step keeps to what a fixpoint knows ────────────────────────────────

proof fn lemma_evaluated(labels: Map<u32, u32>, inst: Instruction, b: u32, f: Facts, g: Facts)
    requires
        claims_more(f, g),
        fixpoint::stable_inst(labels, inst, b, g),
    ensures
        claims_more(sccp::evaluated(labels, inst, b, f), g),
{
    lemma_claims_lower(f, g);
    lemma_rewritten_by_nothing(inst);
    lemma_transfer_lower(labels, inst, inst, b, Seq::empty(), f, g);
    if let Some((id, v)) = sccp::transfer(labels, inst, b, f) {
        let w = sccp::transfer(labels, inst, b, g)->Some_0.1;
        if id < f.lattice.len() {
            assert(g.lattice[id as int].at_most(w)) by {
                if g.lattice[id as int].met(w) != g.lattice[id as int] {
                    assert(sccp::evaluated(labels, inst, b, g).lattice[id as int]
                        != g.lattice[id as int]);
                }
            }
            assert(g.lattice[id as int].at_most(f.lattice[id as int]));
        }
    }
}

proof fn lemma_evaluated_all(
    labels: Map<u32, u32>,
    insts: Seq<Instruction>,
    b: u32,
    f: Facts,
    g: Facts,
    phis_only: bool,
    n: nat,
)
    requires
        n <= insts.len(),
        claims_more(f, g),
        forall|i: int|
            0 <= i < insts.len() ==> fixpoint::stable_inst(labels, #[trigger] insts[i], b, g),
    ensures
        claims_more(sccp::evaluated_all(labels, insts, b, f, phis_only, n), g),
    decreases n,
{
    if n > 0 {
        lemma_evaluated_all(labels, insts, b, f, g, phis_only, (n - 1) as nat);
        let h = sccp::evaluated_all(labels, insts, b, f, phis_only, (n - 1) as nat);
        lemma_evaluated(labels, insts[n - 1], b, h, g);
    }
}

proof fn lemma_marked_all(
    labels: Map<u32, u32>,
    blocks: Seq<BasicBlock>,
    f: Facts,
    g: Facts,
    b: u32,
    targets: Seq<BlockId>,
    n: nat,
)
    requires
        n <= targets.len(),
        claims_more(f, g),
        fixpoint::fixpoint(labels, blocks, g),
        forall|k: int|
            0 <= k < targets.len() && labels.contains_key((#[trigger] targets[k]).0)
                ==> g.edges.contains((b, labels[targets[k].0])),
    ensures
        claims_more(sccp::marked_all(labels, f, b, targets, n), g),
    decreases n,
{
    if n > 0 {
        lemma_marked_all(labels, blocks, f, g, b, targets, (n - 1) as nat);
        let h = sccp::marked_all(labels, f, b, targets, (n - 1) as nat);
        let l = targets[n - 1].0;
        if labels.contains_key(l) {
            assert(g.edges.contains((b, labels[l])));
            let next = sccp::marked(h, b, labels[l]);
            assert forall|k: int|
                0 <= k < next.cfg.len() && (#[trigger] next.cfg[k])
                    < g.reached.len() implies g.reached[next.cfg[k] as int] by {
                if k < h.cfg.len() {
                    assert(next.cfg[k] == h.cfg[k]);
                }
            }
            assert(next.edges.subset_of(g.edges));
        }
    }
}

proof fn lemma_branched(
    labels: Map<u32, u32>,
    blocks: Seq<BasicBlock>,
    b: int,
    f: Facts,
    g: Facts,
)
    requires
        claims_more(f, g),
        fixpoint::fixpoint(labels, blocks, g),
        0 <= b < blocks.len() <= u32::MAX,
        g.reached[b],
    ensures
        claims_more(sccp::branched(labels, blocks[b].terminator, b as u32, f), g),
{
    let term = blocks[b].terminator;
    let targets = sccp::taken(term, f.lattice);
    let all = sccp::taken(term, g.lattice);
    lemma_claims_lower(f, g);
    assert(fixpoint::stable_term(labels, term, b as u32, g));
    assert forall|k: int|
        0 <= k < targets.len() && labels.contains_key((#[trigger] targets[k]).0) implies g.edges.contains(
        (b as u32, labels[targets[k].0]),
    ) by {
        lemma_taken_more(term, f, g, k);
        let j = choose|j: int| 0 <= j < all.len() && all[j] == targets[k];
        assert(all[j] == targets[k]);
    }
    lemma_marked_all(labels, blocks, f, g, b as u32, targets, targets.len());
}

proof fn lemma_stable_insts(labels: Map<u32, u32>, blocks: Seq<BasicBlock>, b: int, g: Facts)
    requires
        fixpoint::fixpoint(labels, blocks, g),
        0 <= b < blocks.len() <= u32::MAX,
        g.reached[b],
    ensures
        forall|i: int|
            0 <= i < blocks[b].instructions@.len() ==> fixpoint::stable_inst(
                labels,
                #[trigger] blocks[b].instructions@[i],
                b as u32,
                g,
            ),
{
}

proof fn lemma_cfg_step(labels: Map<u32, u32>, blocks: Seq<BasicBlock>, f: Facts, g: Facts)
    requires
        claims_more(f, g),
        fixpoint::fixpoint(labels, blocks, g),
        blocks.len() <= u32::MAX,
        f.cfg.len() > 0,
    ensures
        claims_more(sccp::cfg_step(labels, blocks, f), g),
{
    let b = f.cfg.last();
    assert(f.cfg[f.cfg.len() - 1] == b);
    let h = Facts { cfg: f.cfg.drop_last(), ..f };
    assert forall|k: int| 0 <= k < h.cfg.len() && (#[trigger] h.cfg[k]) < g.reached.len() implies g.reached[
        h.cfg[k] as int
    ] by {
        assert(h.cfg[k] == f.cfg[k]);
    }
    assert(claims_more(h, g));
    if b < blocks.len() {
        assert(g.reached[b as int]);
        let insts = blocks[b as int].instructions@;
        lemma_stable_insts(labels, blocks, b as int, g);
        if h.reached[b as int] {
            lemma_evaluated_all(labels, insts, b, h, g, true, insts.len());
            lemma_branched(
                labels,
                blocks,
                b as int,
                sccp::evaluated_all(labels, insts, b, h, true, insts.len()),
                g,
            );
        } else {
            let x = Facts { reached: h.reached.update(b as int, true), ..h };
            assert(claims_more(x, g));
            lemma_evaluated_all(labels, insts, b, x, g, false, insts.len());
            lemma_branched(
                labels,
                blocks,
                b as int,
                sccp::evaluated_all(labels, insts, b, x, false, insts.len()),
                g,
            );
        }
    }
}

proof fn lemma_reevaluated_all(
    labels: Map<u32, u32>,
    blocks: Seq<BasicBlock>,
    locs: Seq<UseLoc>,
    f: Facts,
    g: Facts,
    n: nat,
)
    requires
        n <= locs.len(),
        claims_more(f, g),
        fixpoint::fixpoint(labels, blocks, g),
        blocks.len() <= u32::MAX,
    ensures
        claims_more(sccp::reevaluated_all(labels, blocks, locs, f, n), g),
    decreases n,
{
    if n > 0 {
        lemma_reevaluated_all(labels, blocks, locs, f, g, (n - 1) as nat);
        let h = sccp::reevaluated_all(labels, blocks, locs, f, (n - 1) as nat);
        let loc = locs[n - 1];
        let b = loc.block_idx as int;
        if b < blocks.len() && h.reached[b] {
            assert(g.reached[b]);
            if loc.inst_idx == use_def::TERMINATOR_INDEX {
                lemma_branched(labels, blocks, b, h, g);
            } else if loc.inst_idx < blocks[b].instructions@.len() {
                lemma_stable_insts(labels, blocks, b, g);
                let inst = blocks[b].instructions@[loc.inst_idx as int];
                lemma_evaluated(labels, inst, loc.block_idx, h, g);
            }
        }
    }
}

proof fn lemma_solved(
    labels: Map<u32, u32>,
    blocks: Seq<BasicBlock>,
    info: UseDefInfo,
    f: Facts,
    g: Facts,
    values: bool,
)
    requires
        claims_more(f, g),
        fixpoint::fixpoint(labels, blocks, g),
        sccp::labels_fit(labels, blocks.len()),
        sccp::facts_fit(f, blocks.len()),
    ensures
        claims_more(sccp::solved(labels, blocks, info, f, values), g),
    decreases sccp::work(f, blocks.len()),
{
    if !sccp::settled(f) {
        sccp::law_step_makes_progress(labels, blocks, info, f, values);
        let (h, next) = sccp::step(labels, blocks, info, f, values);
        if f.ssa.len() > 0 && (values || f.cfg.len() == 0) {
            let locs = info.sites(f.ssa.last());
            let x = Facts { ssa: f.ssa.drop_last(), ..f };
            assert(claims_more(x, g));
            lemma_reevaluated_all(labels, blocks, locs, x, g, locs.len());
        } else {
            lemma_cfg_step(labels, blocks, f, g);
        }
        lemma_solved(labels, blocks, info, h, g, next);
    }
}

/// Constant propagation finds out the most that can be known: whatever fixpoint there is
/// that takes nothing for known of the parameters and of what is used without a
/// definition, it knows no more of any value, and reaches every block that was reached.
pub proof fn law_conclusions_are_the_greatest_fixpoint(
    func: IrFunction,
    info: UseDefInfo,
    g: Facts,
)
    requires
        func.blocks@.len() <= u32::MAX,
        fixpoint::fixpoint(sccp::index_map(func.blocks@), func.blocks@, g),
        g.lattice.len() == func.max_value() + 1,
        forall|v: u32|
            v <= func.max_value() && #[trigger] sccp::unknowable(func, info, v)
                ==> g.lattice[v as int] is Bottom,
    ensures
        claims_more(sccp::conclusions(func, info), g),
{
    let labels = sccp::index_map(func.blocks@);
    let f = sccp::initial(func, info);
    sccp::lemma_index_map_fits(func.blocks@);
    assert forall|v: int| 0 <= v < f.lattice.len() implies (#[trigger] g.lattice[v]).at_most(
        f.lattice[v],
    ) by {
        assert(sccp::unknowable(func, info, v as u32) ==> g.lattice[v] is Bottom);
    }
    assert(claims_more(f, g));
    lemma_solved(labels, func.blocks@, info, f, g, false);
}

// ── What rewriting leaves ───────────────────────────────────────────────────

/// The sequences together hold what each of them holds.
proof fn lemma_parts(a: Seq<u32>, b: Seq<u32>, v: u32)
    ensures
        (a + b).contains(v) == (a.contains(v) || b.contains(v)),
{
    let all = a + b;
    if a.contains(v) {
        let k = choose|k: int| 0 <= k < a.len() && a[k] == v;
        assert(all[k] == v);
    }
    if b.contains(v) {
        let k = choose|k: int| 0 <= k < b.len() && b[k] == v;
        assert(all[a.len() + k] == v);
    }
    if all.contains(v) {
        let k = choose|k: int| 0 <= k < all.len() && all[k] == v;
        if k < a.len() {
            assert(a[k] == v);
        } else {
            assert(b[k - a.len()] == v);
        }
    }
}

proof fn lemma_op_used(op: Operand, known: Seq<LatticeVal>, v: u32)
    ensures
        sccp::rewritten_op(op, known).used().contains(v) ==> op.used().contains(v),
{
}

proof fn lemma_phi_used(
    incoming: Seq<(Operand, BlockId)>,
    dest: u32,
    known: Seq<LatticeVal>,
    n: nat,
    v: u32,
)
    requires
        n <= incoming.len(),
    ensures
        use_def::phi_used(sccp::rewritten_incoming(incoming, known), dest, n).contains(v)
            ==> use_def::phi_used(incoming, dest, n).contains(v),
    decreases n,
{
    if n > 0 {
        lemma_phi_used(incoming, dest, known, (n - 1) as nat, v);
        let a = use_def::phi_used(incoming, dest, (n - 1) as nat);
        let new = sccp::rewritten_incoming(incoming, known);
        let b = use_def::phi_used(new, dest, (n - 1) as nat);
        if let Operand::Value(x) = incoming[n - 1].0 {
            lemma_parts(a, seq![x.0], v);
            lemma_parts(b, seq![x.0], v);
            assert(a.push(x.0) =~= a + seq![x.0]);
            assert(b.push(x.0) =~= b + seq![x.0]);
            assert(seq![x.0].contains(v) == (x.0 == v)) by {
                assert(seq![x.0][0] == x.0);
            }
        }
    }
}

proof fn lemma_inst_used(inst: Instruction, new: Instruction, known: Seq<LatticeVal>, v: u32)
    requires
        sccp::inst_rewritten(inst, new, known),
    ensures
        use_def::counted(new).contains(v) ==> use_def::counted(inst).contains(v),
        new.defines() == inst.defines(),
        inst is ParamRef == new is ParamRef,
        inst is ParamRef ==> new == inst,
{
    match inst {
        Instruction::BinOp { lhs, rhs, .. } => {
            lemma_pair_used(lhs, rhs, known, v);
        },
        Instruction::Cmp { lhs, rhs, .. } => {
            lemma_pair_used(lhs, rhs, known, v);
        },
        Instruction::UnaryOp { src, .. } => {
            lemma_op_used(src, known, v);
        },
        Instruction::Cast { src, .. } => {
            lemma_op_used(src, known, v);
        },
        Instruction::Copy { src, .. } => {
            lemma_op_used(src, known, v);
        },
        Instruction::Select { cond, true_val, false_val, .. } => {
            lemma_pair_used(cond, true_val, known, v);
            lemma_op_used(false_val, known, v);
            lemma_parts(cond.used() + true_val.used(), false_val.used(), v);
            let c = sccp::rewritten_op(cond, known);
            let t = sccp::rewritten_op(true_val, known);
            let e = sccp::rewritten_op(false_val, known);
            lemma_parts(c.used() + t.used(), e.used(), v);
        },
        Instruction::Phi { dest, incoming, .. } => {
            lemma_phi_used(incoming@, dest.0, known, incoming@.len(), v);
        },
        _ => {},
    }
}

proof fn lemma_pair_used(a: Operand, b: Operand, known: Seq<LatticeVal>, v: u32)
    ensures
        ({
            let x = a.used() + b.used();
            let y = sccp::rewritten_op(a, known).used() + sccp::rewritten_op(b, known).used();
            y.contains(v) ==> x.contains(v)
        }),
{
    lemma_op_used(a, known, v);
    lemma_op_used(b, known, v);
    lemma_parts(a.used(), b.used(), v);
    lemma_parts(sccp::rewritten_op(a, known).used(), sccp::rewritten_op(b, known).used(), v);
}

/// One of the uses is of `v`.
spec fn has_use(uses: Seq<(u32, UseLoc)>, v: u32) -> bool {
    exists|k: int| 0 <= k < uses.len() && (#[trigger] uses[k]).0 == v
}

proof fn lemma_use_parts(a: Seq<(u32, UseLoc)>, b: Seq<(u32, UseLoc)>, v: u32)
    ensures
        has_use(a + b, v) == (has_use(a, v) || has_use(b, v)),
{
    let all = a + b;
    if has_use(a, v) {
        let k = choose|k: int| 0 <= k < a.len() && (#[trigger] a[k]).0 == v;
        assert(all[k].0 == v);
    }
    if has_use(b, v) {
        let k = choose|k: int| 0 <= k < b.len() && (#[trigger] b[k]).0 == v;
        assert(all[a.len() + k].0 == v);
    }
    if has_use(all, v) {
        let k = choose|k: int| 0 <= k < all.len() && (#[trigger] all[k]).0 == v;
        if k < a.len() {
            assert(a[k].0 == v);
        } else {
            assert(b[k - a.len()].0 == v);
        }
    }
}

proof fn lemma_use_at(values: Seq<u32>, loc: UseLoc, v: u32)
    ensures
        has_use(use_def::at_loc(values, loc), v) == values.contains(v),
{
    let all = use_def::at_loc(values, loc);
    if values.contains(v) {
        let k = choose|k: int| 0 <= k < values.len() && values[k] == v;
        assert(all[k].0 == v);
    }
    if has_use(all, v) {
        let k = choose|k: int| 0 <= k < all.len() && (#[trigger] all[k]).0 == v;
        assert(values[k] == v);
    }
}

proof fn lemma_has_places(uses: Seq<(u32, UseLoc)>, v: u32, n: nat)
    requires
        n <= uses.len(),
    ensures
        use_def::places(uses, v, n).len() > 0 ==> has_use(uses, v),
        has_use(uses.take(n as int), v) ==> use_def::places(uses, v, n).len() > 0,
    decreases n,
{
    if n > 0 {
        lemma_has_places(uses, v, (n - 1) as nat);
        if uses[n - 1].0 == v {
            assert(uses[n - 1].0 == v);
        } else if has_use(uses.take(n as int), v) {
            let all = uses.take(n as int);
            let k = choose|k: int| 0 <= k < all.len() && (#[trigger] all[k]).0 == v;
            assert(uses.take(n - 1)[k].0 == v);
        }
    }
}

proof fn lemma_insts_used(
    insts: Seq<Instruction>,
    new: Seq<Instruction>,
    known: Seq<LatticeVal>,
    block: u32,
    n: nat,
    v: u32,
)
    requires
        n <= insts.len() == new.len(),
        forall|i: int|
            0 <= i < insts.len() ==> sccp::inst_rewritten(insts[i], #[trigger] new[i], known)
                || new[i] == insts[i],
    ensures
        has_use(use_def::uses_in_insts(new, block, n), v) ==> has_use(
            use_def::uses_in_insts(insts, block, n),
            v,
        ),
        ir::max_defined(new, n) == ir::max_defined(insts, n),
        sccp::param_in_insts(new, n, v) == sccp::param_in_insts(insts, n, v),
        forall|before: u64|
            use_def::def_in_insts(new, block, n, v, before) == #[trigger] use_def::def_in_insts(
                insts,
                block,
                n,
                v,
                before,
            ),
    decreases n,
{
    if n > 0 {
        lemma_insts_used(insts, new, known, block, (n - 1) as nat, v);
        let i = n - 1;
        assert(sccp::inst_rewritten(insts[i], new[i], known) || new[i] == insts[i]);
        if sccp::inst_rewritten(insts[i], new[i], known) {
            lemma_inst_used(insts[i], new[i], known, v);
        }
        let loc = UseLoc { block_idx: block, inst_idx: (n - 1) as u32 };
        lemma_use_at(use_def::counted(insts[i]), loc, v);
        lemma_use_at(use_def::counted(new[i]), loc, v);
        lemma_use_parts(
            use_def::uses_in_insts(insts, block, (n - 1) as nat),
            use_def::at_loc(use_def::counted(insts[i]), loc),
            v,
        );
        lemma_use_parts(
            use_def::uses_in_insts(new, block, (n - 1) as nat),
            use_def::at_loc(use_def::counted(new[i]), loc),
            v,
        );
        assert forall|before: u64|
            use_def::def_in_insts(new, block, n, v, before) == #[trigger] use_def::def_in_insts(
                insts,
                block,
                n,
                v,
                before,
            ) by {
            assert(use_def::def_in_insts(new, block, (n - 1) as nat, v, before)
                == use_def::def_in_insts(insts, block, (n - 1) as nat, v, before));
        }
    }
}

proof fn lemma_blocks_used(func: IrFunction, new: IrFunction, f: Facts, n: nat, v: u32)
    requires
        sccp::rewritten(func, new, f),
        n <= func.blocks@.len(),
    ensures
        has_use(use_def::uses_in_blocks(new.blocks@, n), v) ==> has_use(
            use_def::uses_in_blocks(func.blocks@, n),
            v,
        ),
        ir::max_in_blocks(new.blocks@, n) == ir::max_in_blocks(func.blocks@, n),
        sccp::param_in_blocks(new.blocks@, n, v) == sccp::param_in_blocks(func.blocks@, n, v),
        use_def::def_in_blocks(new.blocks@, n, v) == use_def::def_in_blocks(func.blocks@, n, v),
    decreases n,
{
    if n > 0 {
        lemma_blocks_used(func, new, f, (n - 1) as nat, v);
        let x = func.blocks@[n - 1];
        let y = new.blocks@[n - 1];
        let b = (n - 1) as u32;
        assert(sccp::block_rewritten(x, y, f.lattice, f.reached[n - 1]));
        let xs = x.instructions@;
        let ys = y.instructions@;
        lemma_insts_used(xs, ys, f.lattice, b, xs.len(), v);
        let loc = UseLoc { block_idx: b, inst_idx: use_def::TERMINATOR_INDEX };
        lemma_use_at(x.terminator.used(), loc, v);
        lemma_use_at(y.terminator.used(), loc, v);
        lemma_use_parts(
            use_def::uses_in_blocks(func.blocks@, (n - 1) as nat),
            use_def::uses_in_insts(xs, b, xs.len()),
            v,
        );
        lemma_use_parts(
            use_def::uses_in_blocks(func.blocks@, (n - 1) as nat) + use_def::uses_in_insts(
                xs,
                b,
                xs.len(),
            ),
            use_def::at_loc(x.terminator.used(), loc),
            v,
        );
        lemma_use_parts(
            use_def::uses_in_blocks(new.blocks@, (n - 1) as nat),
            use_def::uses_in_insts(ys, b, ys.len()),
            v,
        );
        lemma_use_parts(
            use_def::uses_in_blocks(new.blocks@, (n - 1) as nat) + use_def::uses_in_insts(
                ys,
                b,
                ys.len(),
            ),
            use_def::at_loc(y.terminator.used(), loc),
            v,
        );
        lemma_term_used(x.terminator, f.lattice, v);
        let before = use_def::def_in_blocks(func.blocks@, (n - 1) as nat, v);
        assert(use_def::def_in_insts(ys, b, ys.len(), v, before) == use_def::def_in_insts(
            xs,
            b,
            xs.len(),
            v,
            before,
        ));
    }
}

proof fn lemma_term_used(term: Terminator, known: Seq<LatticeVal>, v: u32)
    ensures
        sccp::rewritten_term(term, known).used().contains(v) ==> term.used().contains(v),
{
    if let Terminator::Return(Some(op)) = term {
        lemma_op_used(op, known, v);
    }
}

/// The function uses or defines the value.
pub open spec fn mentioned(info: UseDefInfo, v: u32) -> bool {
    info.use_count@[v as int] > 0 || info.def_loc@[v as int].code() != use_def::NONE_SENTINEL
}

/// The same values can be known of the rewritten function as of the function, as far as it
/// still mentions them.
proof fn lemma_same_unknowable(
    func: IrFunction,
    new: IrFunction,
    info: UseDefInfo,
    again: UseDefInfo,
    f: Facts,
    v: u32,
)
    requires
        sccp::rewritten(func, new, f),
        info.describes(func),
        again.describes(new),
        v <= func.max_value(),
    ensures
        new.max_value() == func.max_value(),
        sccp::unknowable(new, again, v) ==> sccp::unknowable(func, info, v),
        mentioned(again, v) && sccp::unknowable(func, info, v) ==> sccp::unknowable(
            new,
            again,
            v,
        ),
{
    let n = func.blocks@.len();
    lemma_blocks_used(func, new, f, n, v);
    let a = use_def::all_uses(func);
    let b = use_def::all_uses(new);
    lemma_has_places(a, v, a.len());
    lemma_has_places(b, v, b.len());
    assert(a.take(a.len() as int) =~= a);
    assert(b.take(b.len() as int) =~= b);
    assert(info.use_count@[v as int] == use_def::places_of(func, v).len());
    assert(again.use_count@[v as int] == use_def::places_of(new, v).len());
    assert(info.def_loc@[v as int].code() == use_def::def_in_blocks(func.blocks@, n, v));
    assert(again.def_loc@[v as int].code() == use_def::def_in_blocks(new.blocks@, n, v));
}

proof fn lemma_same_labels(func: IrFunction, new: IrFunction, f: Facts)
    requires
        sccp::rewritten(func, new, f),
    ensures
        sccp::index_map(new.blocks@) == sccp::index_map(func.blocks@),
{
    let a = sccp::index_map(func.blocks@);
    let b = sccp::index_map(new.blocks@);
    assert forall|l: u32| #[trigger] a.contains_key(l) == b.contains_key(l) by {
        execution::lemma_rewritten_labels(func, new, f, l, func.blocks@.len());
    }
    assert forall|l: u32| #[trigger] a.contains_key(l) implies a[l] == b[l] by {
        execution::lemma_rewritten_labels(func, new, f, l, func.blocks@.len());
    }
    assert(a.dom() =~= b.dom());
    assert(a =~= b);
}

// ── The facts of the one are a fixpoint of the other ────────────────────────

proof fn lemma_phi_kept(
    labels: Map<u32, u32>,
    incoming: Seq<(Operand, BlockId)>,
    dest: u32,
    b: u32,
    f: Facts,
    n: nat,
)
    requires
        n <= incoming.len(),
        dest < f.lattice.len(),
        f.lattice[dest as int].at_most(
            sccp::phi_value(labels, incoming, dest, b, f, incoming.len()),
        ),
        f.lattice[dest as int].at_most(sccp::phi_value(labels, incoming, dest, b, f, n)),
    ensures
        f.lattice[dest as int].at_most(
            sccp::phi_value(
                labels,
                sccp::rewritten_incoming(incoming, f.lattice),
                dest,
                b,
                f,
                n,
            ),
        ),
    decreases n,
{
    if n > 0 {
        let (op, from) = incoming[n - 1];
        assert(sccp::rewritten_incoming(incoming, f.lattice)[n - 1] == (
            sccp::rewritten_op(op, f.lattice),
            from,
        ));
        if labels.contains_key(from.0) {
            lemma_phi_kept(labels, incoming, dest, b, f, (n - 1) as nat);
        }
    }
}

/// What is known of the function is a fixpoint of the rewritten function.
proof fn lemma_fixpoint_of_new(func: IrFunction, new: IrFunction, f: Facts)
    requires
        sccp::rewritten(func, new, f),
        fixpoint::fixpoint(sccp::index_map(func.blocks@), func.blocks@, f),
        func.blocks@.len() <= u32::MAX,
    ensures
        fixpoint::fixpoint(sccp::index_map(func.blocks@), new.blocks@, f),
{
    let labels = sccp::index_map(func.blocks@);
    assert forall|b: int, i: int|
        #![trigger new.blocks@[b].instructions@[i]]
        0 <= b < new.blocks@.len() && f.reached[b] && 0 <= i
            < new.blocks@[b].instructions@.len() implies fixpoint::stable_inst(
        labels,
        new.blocks@[b].instructions@[i],
        b as u32,
        f,
    ) by {
        assert(sccp::block_rewritten(func.blocks@[b], new.blocks@[b], f.lattice, f.reached[b]));
        let inst = func.blocks@[b].instructions@[i];
        let other = new.blocks@[b].instructions@[i];
        assert(sccp::inst_rewritten(inst, other, f.lattice));
        assert(fixpoint::stable_inst(labels, inst, b as u32, f));
        if let Instruction::Phi { dest, incoming, .. } = inst {
            if dest.0 < f.lattice.len() {
                let v = sccp::phi_value(
                    labels,
                    incoming@,
                    dest.0,
                    b as u32,
                    f,
                    incoming@.len(),
                );
                assert(f.lattice[dest.0 as int].at_most(v)) by {
                    if f.lattice[dest.0 as int].met(v) != f.lattice[dest.0 as int] {
                        assert(sccp::evaluated(labels, inst, b as u32, f).lattice[dest.0 as int]
                            != f.lattice[dest.0 as int]);
                    }
                }
                lemma_phi_kept(labels, incoming@, dest.0, b as u32, f, incoming@.len());
            }
        } else {
            assert(sccp::transfer(labels, other, b as u32, f) == sccp::transfer(
                labels,
                inst,
                b as u32,
                f,
            ));
        }
    }
    assert forall|b: int|
        #![trigger new.blocks@[b].terminator]
        0 <= b < new.blocks@.len() && f.reached[b] implies fixpoint::stable_term(
        labels,
        new.blocks@[b].terminator,
        b as u32,
        f,
    ) by {
        assert(sccp::block_rewritten(func.blocks@[b], new.blocks@[b], f.lattice, f.reached[b]));
        let term = func.blocks@[b].terminator;
        assert(fixpoint::stable_term(labels, term, b as u32, f));
        if sccp::decided(term, f.lattice) is Some {
            let all = sccp::taken(term, f.lattice);
            assert(all[0] == sccp::decided(term, f.lattice)->0);
        }
    }
}

/// What is known of the rewritten function is a fixpoint of the function, if it claims at
/// least what is known of the function.
proof fn lemma_fixpoint_of_old(func: IrFunction, new: IrFunction, f: Facts, g: Facts)
    requires
        sccp::rewritten(func, new, f),
        fixpoint::fixpoint(sccp::index_map(func.blocks@), new.blocks@, g),
        func.blocks@.len() <= u32::MAX,
        claims_more(g, f),
    ensures
        fixpoint::fixpoint(sccp::index_map(func.blocks@), func.blocks@, g),
{
    let labels = sccp::index_map(func.blocks@);
    assert forall|op: Operand|
        #![trigger sccp::resolved(op, g.lattice)]
        sccp::resolved(sccp::rewritten_op(op, f.lattice), g.lattice).at_most(
            sccp::resolved(op, g.lattice),
        ) by {
        if let Operand::Value(v) = op {
            if v.0 < f.lattice.len() {
                assert(f.lattice[v.0 as int].at_most(g.lattice[v.0 as int]));
            }
        }
    }
    assert(lower(f.lattice, g, g));
    assert forall|b: int, i: int|
        #![trigger func.blocks@[b].instructions@[i]]
        0 <= b < func.blocks@.len() && g.reached[b] && 0 <= i
            < func.blocks@[b].instructions@.len() implies fixpoint::stable_inst(
        labels,
        func.blocks@[b].instructions@[i],
        b as u32,
        g,
    ) by {
        assert(f.reached[b]);
        assert(sccp::block_rewritten(func.blocks@[b], new.blocks@[b], f.lattice, f.reached[b]));
        let inst = func.blocks@[b].instructions@[i];
        let other = new.blocks@[b].instructions@[i];
        assert(sccp::inst_rewritten(inst, other, f.lattice));
        assert(fixpoint::stable_inst(labels, other, b as u32, g));
        lemma_transfer_lower(labels, inst, other, b as u32, f.lattice, g, g);
        if let Some((id, v)) = sccp::transfer(labels, inst, b as u32, g) {
            let w = sccp::transfer(labels, other, b as u32, g)->Some_0.1;
            if id < g.lattice.len() {
                assert(g.lattice[id as int].at_most(w)) by {
                    if g.lattice[id as int].met(w) != g.lattice[id as int] {
                        assert(sccp::evaluated(labels, other, b as u32, g).lattice[id as int]
                            != g.lattice[id as int]);
                    }
                }
                assert(g.lattice[id as int].at_most(v));
            }
        }
    }
    assert forall|b: int|
        #![trigger func.blocks@[b].terminator]
        0 <= b < func.blocks@.len() && g.reached[b] implies fixpoint::stable_term(
        labels,
        func.blocks@[b].terminator,
        b as u32,
        g,
    ) by {
        assert(f.reached[b]);
        assert(sccp::block_rewritten(func.blocks@[b], new.blocks@[b], f.lattice, f.reached[b]));
        let term = func.blocks@[b].terminator;
        let other = new.blocks@[b].terminator;
        assert(fixpoint::stable_term(labels, other, b as u32, g));
        if sccp::decided(term, f.lattice) is Some {
            let t = sccp::decided(term, f.lattice)->0;
            assert(sccp::taken(other, g.lattice)[0] == t);
            match term {
                Terminator::CondBranch { cond, .. } => {
                    let c = sccp::resolved(cond, g.lattice);
                },
                Terminator::Switch { val, .. } => {
                    let c = sccp::resolved(val, g.lattice);
                },
                _ => {},
            }
        }
    }
}

// ── What a function does not mention ────────────────────────────────────────

/// What is known, without what cannot be known of another function.
spec fn without_unknowable(g: Facts, func: IrFunction, info: UseDefInfo) -> Facts {
    Facts {
        lattice: Seq::new(
            g.lattice.len(),
            |v: int|
                if sccp::unknowable(func, info, v as u32) {
                    LatticeVal::Bottom
                } else {
                    g.lattice[v]
                },
        ),
        ..g
    }
}

/// `f` and `g` know the same of every value that the function mentions.
pub open spec fn agree_on_mentioned(info: UseDefInfo, f: Facts, g: Facts) -> bool {
    &&& f.lattice.len() == g.lattice.len()
    &&& forall|v: u32|
        v < f.lattice.len() && #[trigger] mentioned(info, v) ==> f.lattice[v as int]
            == g.lattice[v as int]
}

/// What an instruction or a terminator uses is mentioned.
proof fn lemma_agree_at(func: IrFunction, info: UseDefInfo, f: Facts, g: Facts, b: int, i: int)
    requires
        info.describes(func),
        f.lattice.len() == func.max_value() + 1,
        agree_on_mentioned(info, f, g),
        0 <= b < func.blocks@.len(),
        0 <= i <= func.blocks@[b].instructions@.len(),
    ensures
        fixpoint::agree_on(fixpoint::used_at(func.blocks@, b, i), f, g),
{
    let used = fixpoint::used_at(func.blocks@, b, i);
    assert forall|v: u32| #[trigger] used.contains(v) && v < f.lattice.len() implies f.lattice[v as int]
        == g.lattice[v as int] by {
        let all = use_def::all_uses(func);
        let x = (v, fixpoint::loc_of(func.blocks@, b, i));
        fixpoint::lemma_use_in_blocks(func.blocks@, func.blocks@.len(), b, i, v);
        let k = choose|k: int| 0 <= k < all.len() && all[k] == x;
        assert(all[k].0 == v);
        assert(has_use(all, v));
        assert(all.take(all.len() as int) =~= all);
        lemma_has_places(all, v, all.len());
        assert(info.use_count@[v as int] == use_def::places_of(func, v).len());
        assert(mentioned(info, v));
    }
}

proof fn lemma_defined_in_insts(
    insts: Seq<Instruction>,
    block: u32,
    n: nat,
    v: u32,
    before: u64,
    i: int,
)
    requires
        n <= insts.len(),
        block < u32::MAX,
        before != use_def::NONE_SENTINEL || (0 <= i < n && insts[i].defines() == Some(Value(v))),
    ensures
        use_def::def_in_insts(insts, block, n, v, before) != use_def::NONE_SENTINEL,
    decreases n,
{
    if n > 0 {
        if insts[n - 1].defines() == Some(Value(v)) {
            let i = (n - 1) as u32;
            assert(((block as u64) << 32) | (i as u64) != 0xFFFF_FFFF_FFFF_FFFF) by (bit_vector)
                requires
                    block < 0xFFFF_FFFF,
            ;
            if let Instruction::ParamRef { param_idx, .. } = insts[n - 1] {
                use_def::law_parameter_is_no_instruction(param_idx as u32);
            }
        } else {
            lemma_defined_in_insts(insts, block, (n - 1) as nat, v, before, i);
        }
    }
}

proof fn lemma_defined_in_blocks(blocks: Seq<BasicBlock>, n: nat, b: int, i: int, v: u32)
    requires
        0 <= b < n <= blocks.len() <= u32::MAX,
        0 <= i < blocks[b].instructions@.len(),
        blocks[b].instructions@[i].defines() == Some(Value(v)),
    ensures
        use_def::def_in_blocks(blocks, n, v) != use_def::NONE_SENTINEL,
    decreases n,
{
    let insts = blocks[n - 1].instructions@;
    if b < n - 1 {
        lemma_defined_in_blocks(blocks, (n - 1) as nat, b, i, v);
    }
    lemma_defined_in_insts(
        insts,
        (n - 1) as u32,
        insts.len(),
        v,
        use_def::def_in_blocks(blocks, (n - 1) as nat, v),
        i,
    );
}

proof fn lemma_incoming_same_changes(
    incoming: Seq<(Operand, BlockId)>,
    dest: u32,
    f: Facts,
    g: Facts,
    n: nat,
)
    requires
        n <= incoming.len(),
        fixpoint::agree_on(use_def::phi_used(incoming, dest, n), f, g),
        dest < f.lattice.len() ==> f.lattice[dest as int] == g.lattice[dest as int],
    ensures
        sccp::incoming_changes(incoming, f.lattice, n) == sccp::incoming_changes(
            incoming,
            g.lattice,
            n,
        ),
    decreases n,
{
    if n > 0 {
        let before = use_def::phi_used(incoming, dest, (n - 1) as nat);
        let used = use_def::phi_used(incoming, dest, n);
        assert forall|v: u32| #[trigger] before.contains(v) implies used.contains(v) by {
            let k = choose|k: int| 0 <= k < before.len() && before[k] == v;
            assert(used[k] == v);
        }
        lemma_incoming_same_changes(incoming, dest, f, g, (n - 1) as nat);
        if let Operand::Value(v) = incoming[n - 1].0 {
            if v.0 != dest {
                assert(used[before.len() as int] == v.0);
                assert(used.contains(v.0));
            }
        }
    }
}

proof fn lemma_inst_same_changes(inst: Instruction, f: Facts, g: Facts)
    requires
        fixpoint::agree_on(use_def::counted(inst), f, g),
        inst matches Instruction::Phi { dest, .. } ==> dest.0 < f.lattice.len()
            ==> f.lattice[dest.0 as int] == g.lattice[dest.0 as int],
    ensures
        sccp::inst_changes(inst, f.lattice) == sccp::inst_changes(inst, g.lattice),
{
    match inst {
        Instruction::Phi { dest, incoming, .. } => {
            lemma_incoming_same_changes(incoming@, dest.0, f, g, incoming@.len());
        },
        Instruction::Copy { src, .. } => fixpoint::lemma_agree_op(src, f, g),
        Instruction::BinOp { lhs, rhs, .. } => fixpoint::lemma_agree_pair(lhs, rhs, f, g),
        Instruction::UnaryOp { src, .. } => fixpoint::lemma_agree_op(src, f, g),
        Instruction::Cmp { lhs, rhs, .. } => fixpoint::lemma_agree_pair(lhs, rhs, f, g),
        Instruction::Cast { src, .. } => fixpoint::lemma_agree_op(src, f, g),
        Instruction::Select { cond, true_val, false_val, .. } => {
            fixpoint::lemma_agree_parts(cond.used() + true_val.used(), false_val.used(), f, g);
            fixpoint::lemma_agree_pair(cond, true_val, f, g);
            fixpoint::lemma_agree_op(false_val, f, g);
        },
        _ => {},
    }
}

proof fn lemma_insts_same_changes(
    func: IrFunction,
    info: UseDefInfo,
    f: Facts,
    g: Facts,
    b: int,
    n: nat,
)
    requires
        info.describes(func),
        f.lattice.len() == func.max_value() + 1,
        agree_on_mentioned(info, f, g),
        0 <= b < func.blocks@.len() <= u32::MAX,
        n <= func.blocks@[b].instructions@.len(),
    ensures
        sccp::insts_changes(func.blocks@[b].instructions@, f.lattice, n) == sccp::insts_changes(
            func.blocks@[b].instructions@,
            g.lattice,
            n,
        ),
    decreases n,
{
    if n > 0 {
        let i = n - 1;
        let inst = func.blocks@[b].instructions@[i];
        lemma_insts_same_changes(func, info, f, g, b, (n - 1) as nat);
        lemma_agree_at(func, info, f, g, b, i);
        if let Instruction::Phi { dest, .. } = inst {
            if dest.0 < f.lattice.len() {
                lemma_defined_in_blocks(func.blocks@, func.blocks@.len(), b, i, dest.0);
                assert(info.def_loc@[dest.0 as int].code() == use_def::def_in_blocks(
                    func.blocks@,
                    func.blocks@.len(),
                    dest.0,
                ));
                assert(mentioned(info, dest.0));
            }
        }
        lemma_inst_same_changes(inst, f, g);
    }
}

proof fn lemma_same_changes(func: IrFunction, info: UseDefInfo, f: Facts, g: Facts, n: nat)
    requires
        info.describes(func),
        f.lattice.len() == func.max_value() + 1,
        agree_on_mentioned(info, f, g),
        f.reached == g.reached,
        n <= func.blocks@.len() <= u32::MAX,
    ensures
        sccp::changes_in(func.blocks@, f, n) == sccp::changes_in(func.blocks@, g, n),
    decreases n,
{
    if n > 0 {
        lemma_same_changes(func, info, f, g, (n - 1) as nat);
        let block = func.blocks@[n - 1];
        let len = block.instructions@.len();
        lemma_insts_same_changes(func, info, f, g, n - 1, len);
        lemma_agree_at(func, info, f, g, n - 1, len as int);
        match block.terminator {
            Terminator::Return(Some(op)) => fixpoint::lemma_agree_op(op, f, g),
            Terminator::CondBranch { cond, .. } => fixpoint::lemma_agree_op(cond, f, g),
            Terminator::Switch { val, .. } => fixpoint::lemma_agree_op(val, f, g),
            _ => {},
        }
    }
}

/// A fixpoint stays one where less is known of values that the function does not mention.
proof fn lemma_fixpoint_with_less(func: IrFunction, info: UseDefInfo, g: Facts, h: Facts)
    requires
        info.describes(func),
        fixpoint::indexable(func.blocks@),
        fixpoint::fixpoint(sccp::index_map(func.blocks@), func.blocks@, g),
        g.lattice.len() == func.max_value() + 1,
        agree_on_mentioned(info, g, h),
        h == (Facts { lattice: h.lattice, ..g }),
        forall|v: int|
            0 <= v < g.lattice.len() ==> (#[trigger] h.lattice[v]) is Bottom || h.lattice[v]
                == g.lattice[v],
    ensures
        fixpoint::fixpoint(sccp::index_map(func.blocks@), func.blocks@, h),
{
    let labels = sccp::index_map(func.blocks@);
    assert forall|b: int, i: int|
        #![trigger func.blocks@[b].instructions@[i]]
        0 <= b < func.blocks@.len() && h.reached[b] && 0 <= i
            < func.blocks@[b].instructions@.len() implies fixpoint::stable_inst(
        labels,
        func.blocks@[b].instructions@[i],
        b as u32,
        h,
    ) by {
        let inst = func.blocks@[b].instructions@[i];
        assert(fixpoint::stable_inst(labels, inst, b as u32, g));
        lemma_agree_at(func, info, g, h, b, i);
        fixpoint::lemma_transfer_agrees(labels, inst, b as u32, g, h);
        if let Some((id, v)) = sccp::transfer(labels, inst, b as u32, h) {
            if id < h.lattice.len() {
                assert(h.lattice[id as int].met(v) == h.lattice[id as int]) by {
                    if g.lattice[id as int].met(v) != g.lattice[id as int] {
                        assert(sccp::evaluated(labels, inst, b as u32, g).lattice[id as int]
                            != g.lattice[id as int]);
                    }
                }
            }
        }
    }
    assert forall|b: int|
        #![trigger func.blocks@[b].terminator]
        0 <= b < func.blocks@.len() && h.reached[b] implies fixpoint::stable_term(
        labels,
        func.blocks@[b].terminator,
        b as u32,
        h,
    ) by {
        let term = func.blocks@[b].terminator;
        assert(fixpoint::stable_term(labels, term, b as u32, g));
        lemma_agree_at(func, info, g, h, b, func.blocks@[b].instructions@.len() as int);
        fixpoint::lemma_taken_agrees(term, g, h);
    }
}

/// Running constant propagation once more, on the function that it rewrote and on the
/// use-def information of that, reaches the same blocks, finds out the same of every value
/// that is still used or defined, and changes nothing.
pub proof fn law_running_again_changes_nothing(
    func: IrFunction,
    new: IrFunction,
    info: UseDefInfo,
    again: UseDefInfo,
)
    requires
        info.describes(func),
        again.describes(new),
        fixpoint::indexable(func.blocks@),
        sccp::rewritten(func, new, sccp::conclusions(func, info)),
    ensures
        agree_on_mentioned(again, sccp::conclusions(func, info), sccp::conclusions(new, again)),
        sccp::conclusions(new, again).reached == sccp::conclusions(func, info).reached,
        sccp::changes_in(new.blocks@, sccp::conclusions(new, again), new.blocks@.len()) == 0,
        forall|third: IrFunction| #[trigger]
            sccp::rewritten(new, third, sccp::conclusions(new, again)) ==> sccp::same_code(
                new,
                third,
            ),
{
    let f = sccp::conclusions(func, info);
    let g = sccp::conclusions(new, again);
    let labels = sccp::index_map(func.blocks@);
    let n = func.blocks@.len();
    fixpoint::law_conclusions_are_a_fixpoint(func, info);
    assert(fixpoint::indexable(new.blocks@)) by {
        assert forall|b: int| 0 <= b < new.blocks@.len() implies (#[trigger] new.blocks@[b]).instructions@.len()
            <= u32::MAX by {
            assert(sccp::block_rewritten(func.blocks@[b], new.blocks@[b], f.lattice, f.reached[b]));
            assert(func.blocks@[b].instructions@.len() <= u32::MAX);
        }
    }
    fixpoint::law_conclusions_are_a_fixpoint(new, again);
    lemma_same_labels(func, new, f);
    lemma_same_unknowable(func, new, info, again, f, 0);
    lemma_initial_bottom(func, info);
    lemma_initial_bottom(new, again);
    assert forall|v: u32|
        v <= new.max_value() && #[trigger] sccp::unknowable(new, again, v) implies f.lattice[v as int]
        is Bottom by {
        lemma_same_unknowable(func, new, info, again, f, v);
    }
    lemma_fixpoint_of_new(func, new, f);
    law_conclusions_are_the_greatest_fixpoint(new, again, f);
    let h = without_unknowable(g, func, info);
    assert forall|v: u32| v < g.lattice.len() && #[trigger] mentioned(again, v) implies g.lattice[v as int]
        == h.lattice[v as int] by {
        lemma_same_unknowable(func, new, info, again, f, v);
        assert(sccp::unknowable(func, info, v) ==> sccp::unknowable(new, again, v));
    }
    lemma_fixpoint_with_less(new, again, g, h);
    assert(claims_more(h, f)) by {
        assert forall|v: int| 0 <= v < h.lattice.len() implies (#[trigger] f.lattice[v]).at_most(
            h.lattice[v],
        ) by {
            assert(f.lattice[v].at_most(g.lattice[v]));
            assert(sccp::unknowable(func, info, v as u32) ==> f.lattice[v] is Bottom);
        }
    }
    lemma_fixpoint_of_old(func, new, f, h);
    assert forall|v: u32|
        v <= func.max_value() && #[trigger] sccp::unknowable(func, info, v) implies h.lattice[v as int]
        is Bottom by {}
    law_conclusions_are_the_greatest_fixpoint(func, info, h);
    assert forall|v: u32| v < f.lattice.len() && #[trigger] mentioned(again, v) implies f.lattice[v as int]
        == g.lattice[v as int] by {
        assert(h.lattice[v as int].at_most(f.lattice[v as int]));
        assert(f.lattice[v as int].at_most(h.lattice[v as int]));
        assert(g.lattice[v as int] == h.lattice[v as int]);
    }
    assert forall|b: int| 0 <= b < f.reached.len() implies g.reached[b] == f.reached[b] by {
        if f.reached[b] {
            assert(h.reached[b]);
        }
        if g.reached[b] {
            assert(f.reached[b]);
        }
    }
    assert(g.reached =~= f.reached);
    sccp::law_rewriting_is_complete(func, new, f, n);
    lemma_same_changes(new, again, f, g, n);
    assert forall|third: IrFunction| #[trigger] sccp::rewritten(new, third, g) implies sccp::same_code(
        new,
        third,
    ) by {
        sccp::law_changes_are_counted(new, third, g);
    }
}

/// Of what cannot be known nothing is known in the end.
proof fn lemma_initial_bottom(func: IrFunction, info: UseDefInfo)
    requires
        info.describes(func),
        fixpoint::indexable(func.blocks@),
    ensures
        forall|v: u32|
            v <= func.max_value() && #[trigger] sccp::unknowable(func, info, v)
                ==> sccp::conclusions(func, info).lattice[v as int] is Bottom,
{
    let labels = sccp::index_map(func.blocks@);
    let f = sccp::initial(func, info);
    sccp::lemma_index_map_fits(func.blocks@);
    lemma_only_down(labels, func.blocks@, info, f, false);
    let end = sccp::conclusions(func, info);
    assert forall|v: u32|
        v <= func.max_value() && #[trigger] sccp::unknowable(func, info, v) implies end.lattice[v as int]
        is Bottom by {
        assert(end.lattice[v as int].at_most(f.lattice[v as int]));
    }
}

proof fn lemma_only_down(
    labels: Map<u32, u32>,
    blocks: Seq<BasicBlock>,
    info: UseDefInfo,
    f: Facts,
    values: bool,
)
    requires
        sccp::labels_fit(labels, blocks.len()),
        sccp::facts_fit(f, blocks.len()),
    ensures
        forall|v: int|
            0 <= v < f.lattice.len() ==> (#[trigger] sccp::solved(
                labels,
                blocks,
                info,
                f,
                values,
            ).lattice[v]).at_most(f.lattice[v]),
    decreases sccp::work(f, blocks.len()),
{
    if !sccp::settled(f) {
        sccp::law_step_makes_progress(labels, blocks, info, f, values);
        let (h, next) = sccp::step(labels, blocks, info, f, values);
        lemma_only_down(labels, blocks, info, h, next);
        let end = sccp::solved(labels, blocks, info, f, values);
        assert(end == sccp::solved(labels, blocks, info, h, next));
        assert forall|v: int| 0 <= v < f.lattice.len() implies (#[trigger] end.lattice[v]).at_most(
            f.lattice[v],
        ) by {
            assert(h.lattice[v].at_most(f.lattice[v]));
        }
    }
}

} // verus!
