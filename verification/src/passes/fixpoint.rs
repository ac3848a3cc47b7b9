//! The result of constant propagation is a fixpoint: evaluating any instruction or
//! terminator of a block that was reached once more changes nothing.

use vstd::prelude::*;

use super::lattice::LatticeVal;
use super::sccp;
use super::sccp::Facts;
use super::use_def;
use super::use_def::{UseDefInfo, UseLoc};
use crate::ir::{BasicBlock, BlockId, Instruction, IrFunction, Operand, Terminator};

verus! {

// ── What an evaluation depends on ───────────────────────────────────────────

/// The operand has the same lattice value in both.
pub open spec fn same_op(op: Operand, f: Facts, g: Facts) -> bool {
    sccp::resolved(op, f.lattice) == sccp::resolved(op, g.lattice)
}

/// `f` and `g` know the same of each of `values`.
pub open spec fn agree_on(values: Seq<u32>, f: Facts, g: Facts) -> bool {
    &&& f.lattice.len() == g.lattice.len()
    &&& forall|v: u32|
        #[trigger] values.contains(v) && v < f.lattice.len() ==> f.lattice[v as int]
            == g.lattice[v as int]
}

pub proof fn lemma_agree_parts(a: Seq<u32>, b: Seq<u32>, f: Facts, g: Facts)
    requires
        agree_on(a + b, f, g),
    ensures
        agree_on(a, f, g),
        agree_on(b, f, g),
{
    assert forall|v: u32| #[trigger] a.contains(v) implies (a + b).contains(v) by {
        let k = choose|k: int| 0 <= k < a.len() && a[k] == v;
        assert((a + b)[k] == v);
    }
    assert forall|v: u32| #[trigger] b.contains(v) implies (a + b).contains(v) by {
        let k = choose|k: int| 0 <= k < b.len() && b[k] == v;
        assert((a + b)[a.len() + k] == v);
    }
}

pub proof fn lemma_agree_op(op: Operand, f: Facts, g: Facts)
    requires
        agree_on(op.used(), f, g),
    ensures
        same_op(op, f, g),
{
    if let Operand::Value(v) = op {
        assert(op.used()[0] == v.0);
        assert(op.used().contains(v.0));
    }
}

pub proof fn lemma_agree_pair(a: Operand, b: Operand, f: Facts, g: Facts)
    requires
        agree_on(a.used() + b.used(), f, g),
    ensures
        same_op(a, f, g),
        same_op(b, f, g),
{
    lemma_agree_parts(a.used(), b.used(), f, g);
    lemma_agree_op(a, f, g);
    lemma_agree_op(b, f, g);
}

/// The same edges lead to block `b`.
pub open spec fn same_edges_to(b: u32, f: Facts, g: Facts) -> bool {
    forall|from: u32| #[trigger] f.edges.contains((from, b)) == g.edges.contains((from, b))
}

proof fn lemma_phi_agrees(
    labels: Map<u32, u32>,
    incoming: Seq<(Operand, BlockId)>,
    dest: u32,
    b: u32,
    f: Facts,
    g: Facts,
    n: nat,
)
    requires
        agree_on(use_def::phi_used(incoming, dest, n), f, g),
        same_edges_to(b, f, g),
    ensures
        sccp::phi_value(labels, incoming, dest, b, f, n) == sccp::phi_value(
            labels,
            incoming,
            dest,
            b,
            g,
            n,
        ),
    decreases n,
{
    if n > 0 {
        let before = use_def::phi_used(incoming, dest, (n - 1) as nat);
        let used = use_def::phi_used(incoming, dest, n);
        let (op, _) = incoming[n - 1];
        assert forall|v: u32| #[trigger] before.contains(v) implies used.contains(v) by {
            let k = choose|k: int| 0 <= k < before.len() && before[k] == v;
            assert(used[k] == v);
        }
        lemma_phi_agrees(labels, incoming, dest, b, f, g, (n - 1) as nat);
        if let Operand::Value(v) = op {
            if v.0 != dest {
                assert(used[before.len() as int] == v.0);
                assert(used.contains(v.0));
            }
        }
    }
}

/// An evaluation depends on the values that the instruction uses and, in a phi, on
/// the edges to its block.
pub proof fn lemma_transfer_agrees(
    labels: Map<u32, u32>,
    inst: Instruction,
    b: u32,
    f: Facts,
    g: Facts,
)
    requires
        agree_on(use_def::counted(inst), f, g),
        inst is Phi ==> same_edges_to(b, f, g),
    ensures
        sccp::transfer(labels, inst, b, f) == sccp::transfer(labels, inst, b, g),
{
    match inst {
        Instruction::Phi { dest, incoming, .. } => {
            lemma_phi_agrees(labels, incoming@, dest.0, b, f, g, incoming@.len());
        },
        Instruction::Copy { src, .. } => lemma_agree_op(src, f, g),
        Instruction::BinOp { lhs, rhs, .. } => lemma_agree_pair(lhs, rhs, f, g),
        Instruction::UnaryOp { src, .. } => lemma_agree_op(src, f, g),
        Instruction::Cmp { lhs, rhs, .. } => lemma_agree_pair(lhs, rhs, f, g),
        Instruction::Cast { src, .. } => lemma_agree_op(src, f, g),
        Instruction::Select { cond, true_val, false_val, .. } => {
            lemma_agree_parts(cond.used() + true_val.used(), false_val.used(), f, g);
            lemma_agree_pair(cond, true_val, f, g);
            lemma_agree_op(false_val, f, g);
        },
        _ => {},
    }
}

pub proof fn lemma_taken_agrees(term: Terminator, f: Facts, g: Facts)
    requires
        agree_on(term.used(), f, g),
    ensures
        sccp::taken(term, f.lattice) == sccp::taken(term, g.lattice),
{
    match term {
        Terminator::CondBranch { cond, .. } => lemma_agree_op(cond, f, g),
        Terminator::Switch { val, .. } => lemma_agree_op(val, f, g),
        _ => {},
    }
}

// ── What is still to be done ────────────────────────────────────────────────

/// The instruction has nothing to add.
pub open spec fn stable_inst(
    labels: Map<u32, u32>,
    inst: Instruction,
    b: u32,
    f: Facts,
) -> bool {
    sccp::evaluated(labels, inst, b, f) == f
}

/// The edges that the terminator may take are executable.
pub open spec fn stable_term(
    labels: Map<u32, u32>,
    term: Terminator,
    b: u32,
    f: Facts,
) -> bool {
    forall|k: int|
        0 <= k < sccp::taken(term, f.lattice).len() && labels.contains_key(
            (#[trigger] sccp::taken(term, f.lattice)[k]).0,
        ) ==> f.edges.contains((b, labels[sccp::taken(term, f.lattice)[k].0]))
}

/// One of `values` is on the worklist.
spec fn waits(values: Seq<u32>, ssa: Seq<u32>) -> bool {
    exists|v: u32| #[trigger] values.contains(v) && ssa.contains(v)
}

/// The `i`th instruction of block `b`, or its terminator, is stable or will be
/// evaluated again.
spec fn cared_for(
    labels: Map<u32, u32>,
    blocks: Seq<BasicBlock>,
    f: Facts,
    b: int,
    i: int,
) -> bool {
    let insts = blocks[b].instructions@;
    if i < insts.len() {
        ||| stable_inst(labels, insts[i], b as u32, f)
        ||| waits(use_def::counted(insts[i]), f.ssa)
        ||| insts[i] is Phi && f.cfg.contains(b as u32)
    } else {
        ||| stable_term(labels, blocks[b].terminator, b as u32, f)
        ||| waits(blocks[b].terminator.used(), f.ssa)
    }
}

/// The position exists, in a block that was reached.
spec fn at_work(blocks: Seq<BasicBlock>, f: Facts, b: int, i: int) -> bool {
    0 <= b < blocks.len() && f.reached[b] && 0 <= i <= blocks[b].instructions@.len()
}

/// All positions but those in `open` are cared for, and so are the blocks that
/// executable edges lead to.
spec fn in_order(
    labels: Map<u32, u32>,
    blocks: Seq<BasicBlock>,
    f: Facts,
    open: Set<(int, int)>,
) -> bool {
    &&& sccp::facts_fit(f, blocks.len())
    &&& forall|b: int, i: int|
        #![trigger at_work(blocks, f, b, i)]
        at_work(blocks, f, b, i) && !open.contains((b, i)) ==> cared_for(labels, blocks, f, b, i)
    &&& forall|from: u32, to: u32|
        #[trigger] f.edges.contains((from, to)) ==> to < blocks.len() && (f.reached[to as int]
            || f.cfg.contains(to))
    &&& forall|k: int| 0 <= k < f.ssa.len() ==> #[trigger] f.ssa[k] < f.lattice.len()
    &&& blocks.len() > 0 ==> f.reached[0] || f.cfg.contains(0)
}

proof fn lemma_push_contains(s: Seq<u32>, x: u32)
    ensures
        s.push(x).contains(x),
        forall|v: u32| s.contains(v) ==> #[trigger] s.push(x).contains(v),
{
    assert(s.push(x)[s.len() as int] == x);
    assert forall|v: u32| s.contains(v) implies #[trigger] s.push(x).contains(v) by {
        let k = choose|k: int| 0 <= k < s.len() && s[k] == v;
        assert(s.push(x)[k] == v);
    }
}

/// Evaluating an instruction closes its position and opens no other.
proof fn lemma_evaluated_in_order(
    labels: Map<u32, u32>,
    blocks: Seq<BasicBlock>,
    f: Facts,
    open: Set<(int, int)>,
    b: int,
    i: int,
)
    requires
        in_order(labels, blocks, f, open),
        0 <= b < blocks.len(),
        f.reached[b],
        0 <= i < blocks[b].instructions@.len(),
    ensures
        in_order(
            labels,
            blocks,
            sccp::evaluated(labels, blocks[b].instructions@[i], b as u32, f),
            open.remove((b, i)),
        ),
{
    let inst = blocks[b].instructions@[i];
    let g = sccp::evaluated(labels, inst, b as u32, f);
    if g != f {
        let (d, val) = sccp::transfer(labels, inst, b as u32, f)->0;
        assert(g.lattice == f.lattice.update(d as int, f.lattice[d as int].met(val)));
        assert(g.ssa == f.ssa.push(d));
        lemma_push_contains(f.ssa, d);
        assert forall|x: int, y: int|
            #![trigger at_work(blocks, g, x, y)]
            at_work(blocks, g, x, y) && !open.remove((b, i)).contains((x, y)) implies cared_for(
            labels,
            blocks,
            g,
            x,
            y,
        ) by {
            assert(at_work(blocks, f, x, y));
            lemma_lowering_keeps(labels, blocks, f, g, d, val, x, y, (x, y) == (b, i));
        }
    } else {
        assert forall|x: int, y: int|
            #![trigger at_work(blocks, g, x, y)]
            at_work(blocks, g, x, y) && !open.remove((b, i)).contains((x, y)) implies cared_for(
            labels,
            blocks,
            g,
            x,
            y,
        ) by {
            assert(at_work(blocks, f, x, y));
        }
    }
}

/// A position stays cared for when a value moves down. One whose instruction moved
/// the value is cared for then.
proof fn lemma_lowering_keeps(
    labels: Map<u32, u32>,
    blocks: Seq<BasicBlock>,
    f: Facts,
    g: Facts,
    d: u32,
    val: LatticeVal,
    x: int,
    y: int,
    mover: bool,
)
    requires
        d < f.lattice.len(),
        g == (Facts {
            lattice: f.lattice.update(d as int, f.lattice[d as int].met(val)),
            ssa: f.ssa.push(d),
            ..f
        }),
        0 <= x < blocks.len(),
        0 <= y <= blocks[x].instructions@.len(),
        !mover ==> cared_for(labels, blocks, f, x, y),
        mover ==> y < blocks[x].instructions@.len() && sccp::transfer(
            labels,
            blocks[x].instructions@[y],
            x as u32,
            f,
        ) == Some((d, val)),
    ensures
        cared_for(labels, blocks, g, x, y),
{
    lemma_push_contains(f.ssa, d);
    let insts = blocks[x].instructions@;
    if y < insts.len() {
        let inst = insts[y];
        let values = use_def::counted(inst);
        if values.contains(d) {
            assert(waits(values, g.ssa));
        } else if waits(values, f.ssa) {
            let v = choose|v: u32| #[trigger] values.contains(v) && f.ssa.contains(v);
            assert(values.contains(v) && g.ssa.contains(v));
        } else if mover || stable_inst(labels, inst, x as u32, f) {
            lemma_transfer_agrees(labels, inst, x as u32, f, g);
            if let Some((e, w)) = sccp::transfer(labels, inst, x as u32, f) {
                if e < f.lattice.len() {
                    if !mover {
                        let m = f.lattice[e as int].met(w);
                        if m != f.lattice[e as int] {
                            assert(sccp::evaluated(labels, inst, x as u32, f).lattice[e as int] == m);
                        }
                    }
                    assert(g.lattice[e as int].met(w) == g.lattice[e as int]);
                }
            }
            assert(stable_inst(labels, inst, x as u32, g));
        }
    } else {
        let term = blocks[x].terminator;
        let values = term.used();
        if values.contains(d) {
            assert(waits(values, g.ssa));
        } else if waits(values, f.ssa) {
            let v = choose|v: u32| #[trigger] values.contains(v) && f.ssa.contains(v);
            assert(values.contains(v) && g.ssa.contains(v));
        } else {
            lemma_taken_agrees(term, f, g);
        }
    }
}

/// `g` has more edges than `f`, from block `b`, and their targets are on its
/// worklist.
spec fn grown(f: Facts, g: Facts, b: u32, n: nat) -> bool {
    &&& g.lattice == f.lattice
    &&& g.reached == f.reached
    &&& g.ssa == f.ssa
    &&& forall|v: u32| f.cfg.contains(v) ==> #[trigger] g.cfg.contains(v)
    &&& forall|e: (u32, u32)| f.edges.contains(e) ==> #[trigger] g.edges.contains(e)
    &&& forall|e: (u32, u32)|
        #[trigger] g.edges.contains(e) && !f.edges.contains(e) ==> e.0 == b && e.1 < n
            && g.cfg.contains(e.1)
}

proof fn lemma_marked_grows(
    labels: Map<u32, u32>,
    f: Facts,
    b: u32,
    targets: Seq<BlockId>,
    k: nat,
    n: nat,
)
    requires
        sccp::labels_fit(labels, n),
        k <= targets.len(),
    ensures
        grown(f, sccp::marked_all(labels, f, b, targets, k), b, n),
        forall|j: int|
            0 <= j < k && labels.contains_key((#[trigger] targets[j]).0) ==> sccp::marked_all(
                labels,
                f,
                b,
                targets,
                k,
            ).edges.contains((b, labels[targets[j].0])),
    decreases k,
{
    if k > 0 {
        lemma_marked_grows(labels, f, b, targets, (k - 1) as nat, n);
        let g = sccp::marked_all(labels, f, b, targets, (k - 1) as nat);
        let h = sccp::marked_all(labels, f, b, targets, k);
        let l = targets[k - 1].0;
        if labels.contains_key(l) && !g.edges.contains((b, labels[l])) {
            lemma_push_contains(g.cfg, labels[l]);
            assert forall|v: u32| f.cfg.contains(v) implies #[trigger] h.cfg.contains(v) by {
                assert(g.cfg.contains(v));
            }
            assert forall|e: (u32, u32)| f.edges.contains(e) implies #[trigger] h.edges.contains(
                e,
            ) by {
                assert(g.edges.contains(e));
            }
            assert forall|e: (u32, u32)|
                #[trigger] h.edges.contains(e) && !f.edges.contains(e) implies e.0 == b && e.1 < n
                && h.cfg.contains(e.1) by {
                if e != (b, labels[l]) {
                    assert(g.edges.contains(e));
                    assert(g.cfg.contains(e.1));
                }
            }
        }
    }
}

/// Evaluating a terminator closes its position and opens no other.
proof fn lemma_branched_in_order(
    labels: Map<u32, u32>,
    blocks: Seq<BasicBlock>,
    f: Facts,
    open: Set<(int, int)>,
    b: int,
)
    requires
        in_order(labels, blocks, f, open),
        sccp::labels_fit(labels, blocks.len()),
        0 <= b < blocks.len(),
        f.reached[b],
    ensures
        in_order(
            labels,
            blocks,
            sccp::branched(labels, blocks[b].terminator, b as u32, f),
            open.remove((b, blocks[b].instructions@.len() as int)),
        ),
{
    let n = blocks.len();
    let end = blocks[b].instructions@.len() as int;
    let term = blocks[b].terminator;
    let targets = sccp::taken(term, f.lattice);
    let g = sccp::branched(labels, term, b as u32, f);
    lemma_marked_grows(labels, f, b as u32, targets, targets.len(), n);
    assert forall|x: int, y: int|
        #![trigger at_work(blocks, g, x, y)]
        at_work(blocks, g, x, y) && !open.remove((b, end)).contains((x, y)) implies cared_for(
        labels,
        blocks,
        g,
        x,
        y,
    ) by {
        assert(at_work(blocks, f, x, y));
        let insts = blocks[x].instructions@;
        if y < insts.len() {
            let inst = insts[y];
            assert(cared_for(labels, blocks, f, x, y));
            if waits(use_def::counted(inst), f.ssa) {
            } else if inst is Phi && f.cfg.contains(x as u32) {
                assert(g.cfg.contains(x as u32));
            } else {
                assert(stable_inst(labels, inst, x as u32, f));
                if inst is Phi && !same_edges_to(x as u32, f, g) {
                    let from = choose|from: u32|
                        #[trigger] f.edges.contains((from, x as u32)) != g.edges.contains(
                            (from, x as u32),
                        );
                    assert(g.edges.contains((from, x as u32)));
                    assert(g.cfg.contains(x as u32));
                } else {
                    lemma_transfer_agrees(labels, inst, x as u32, f, g);
                    if let Some((e, w)) = sccp::transfer(labels, inst, x as u32, f) {
                        if e < f.lattice.len() {
                            let m = f.lattice[e as int].met(w);
                            if m != f.lattice[e as int] {
                                assert(sccp::evaluated(labels, inst, x as u32, f).lattice[e as int]
                                    == m);
                            }
                        }
                    }
                    assert(stable_inst(labels, inst, x as u32, g));
                }
            }
        } else if x == b {
            assert(stable_term(labels, term, b as u32, g));
        } else {
            assert(cared_for(labels, blocks, f, x, y));
        }
    }
    assert forall|from: u32, to: u32| #[trigger] g.edges.contains((from, to)) implies to < n && (
    g.reached[to as int] || g.cfg.contains(to)) by {
        if f.edges.contains((from, to)) {
            assert(f.reached[to as int] || f.cfg.contains(to));
        }
    }
}

/// The positions of `open` that evaluating the first `k` instructions of block `b`,
/// or the phis among them, leaves open.
spec fn left_open(
    blocks: Seq<BasicBlock>,
    open: Set<(int, int)>,
    b: int,
    phis_only: bool,
    k: int,
) -> Set<(int, int)> {
    Set::new(
        |p: (int, int)|
            open.contains(p) && !(p.0 == b && 0 <= p.1 < k && (!phis_only
                || blocks[b].instructions@[p.1] is Phi)),
    )
}

proof fn lemma_evaluated_all_in_order(
    labels: Map<u32, u32>,
    blocks: Seq<BasicBlock>,
    f: Facts,
    open: Set<(int, int)>,
    b: int,
    phis_only: bool,
    k: nat,
)
    requires
        in_order(labels, blocks, f, open),
        0 <= b < blocks.len(),
        f.reached[b],
        k <= blocks[b].instructions@.len(),
    ensures
        in_order(
            labels,
            blocks,
            sccp::evaluated_all(
                labels,
                blocks[b].instructions@,
                b as u32,
                f,
                phis_only,
                k,
            ),
            left_open(blocks, open, b, phis_only, k as int),
        ),
        sccp::evaluated_all(
            labels,
            blocks[b].instructions@,
            b as u32,
            f,
            phis_only,
            k,
        ).reached == f.reached,
    decreases k,
{
    let insts = blocks[b].instructions@;
    if k == 0 {
        assert(left_open(blocks, open, b, phis_only, 0) =~= open);
    } else {
        lemma_evaluated_all_in_order(labels, blocks, f, open, b, phis_only, (k - 1) as nat);
        let g = sccp::evaluated_all(labels, insts, b as u32, f, phis_only, (k - 1) as nat);
        let before = left_open(blocks, open, b, phis_only, k - 1);
        let after = left_open(blocks, open, b, phis_only, k as int);
        if phis_only && !(insts[k - 1] is Phi) {
            assert(after =~= before);
        } else {
            lemma_evaluated_in_order(labels, blocks, g, before, b, k - 1);
            assert(after =~= before.remove((b, k - 1)));
        }
    }
}

/// Visiting a block closes its positions, or those of its phis and its terminator.
proof fn lemma_visited_in_order(
    labels: Map<u32, u32>,
    blocks: Seq<BasicBlock>,
    f: Facts,
    open: Set<(int, int)>,
    b: int,
    phis_only: bool,
)
    requires
        in_order(labels, blocks, f, open),
        sccp::labels_fit(labels, blocks.len()),
        0 <= b < blocks.len(),
        f.reached[b],
        forall|p: (int, int)|
            #[trigger] open.contains(p) ==> p.0 == b && 0 <= p.1 <= blocks[b].instructions@.len()
                && (phis_only && p.1 < blocks[b].instructions@.len()
                ==> blocks[b].instructions@[p.1] is Phi),
    ensures
        in_order(
            labels,
            blocks,
            sccp::visited(labels, blocks[b], b as u32, f, phis_only),
            Set::empty(),
        ),
{
    let insts = blocks[b].instructions@;
    let end = insts.len() as int;
    let g = sccp::evaluated_all(labels, insts, b as u32, f, phis_only, insts.len());
    lemma_evaluated_all_in_order(labels, blocks, f, open, b, phis_only, insts.len());
    let after = left_open(blocks, open, b, phis_only, end);
    lemma_branched_in_order(labels, blocks, g, after, b);
    assert(after.remove((b, end)) =~= Set::empty()) by {
        assert forall|p: (int, int)| !after.remove((b, end)).contains(p) by {
            if after.contains(p) && p != (b, end) {
                assert(open.contains(p));
            }
        }
    }
}

/// Taking a block from the worklist and visiting it leaves nothing open.
proof fn lemma_cfg_step_in_order(labels: Map<u32, u32>, blocks: Seq<BasicBlock>, f: Facts)
    requires
        in_order(labels, blocks, f, Set::empty()),
        sccp::labels_fit(labels, blocks.len()),
        f.cfg.len() > 0,
    ensures
        in_order(labels, blocks, sccp::cfg_step(labels, blocks, f), Set::empty()),
{
    let b = f.cfg.last() as int;
    let g = Facts { cfg: f.cfg.drop_last(), ..f };
    assert forall|v: u32| f.cfg.contains(v) && v != b implies #[trigger] g.cfg.contains(v) by {
        let k = choose|k: int| 0 <= k < f.cfg.len() && f.cfg[k] == v;
        assert(g.cfg[k] == v);
    }
    if b >= blocks.len() {
        assert forall|x: int, y: int| #![trigger at_work(blocks, g, x, y)] at_work(blocks, g, x, y) implies cared_for(
            labels,
            blocks,
            g,
            x,
            y,
        ) by {
            assert(at_work(blocks, f, x, y));
            lemma_popped_block(labels, blocks, f, g, x, y, b);
        }
        assert forall|from: u32, to: u32| #[trigger] g.edges.contains((from, to)) implies to
            < blocks.len() && (g.reached[to as int] || g.cfg.contains(to)) by {
            assert(f.edges.contains((from, to)));
        }
        assert(in_order(labels, blocks, g, Set::empty()));
    } else {
        let phis_only = f.reached[b];
        let h = if phis_only {
            g
        } else {
            Facts { reached: g.reached.update(b, true), ..g }
        };
        let insts = blocks[b].instructions@;
        let open = Set::new(
            |p: (int, int)|
                p.0 == b && 0 <= p.1 <= insts.len() && (phis_only ==> p.1 < insts.len()
                    && insts[p.1] is Phi),
        );
        assert forall|x: int, y: int|
            #![trigger at_work(blocks, h, x, y)]
            at_work(blocks, h, x, y) && !open.contains((x, y)) implies cared_for(
            labels,
            blocks,
            h,
            x,
            y,
        ) by {
            assert(at_work(blocks, f, x, y));
            lemma_popped_block(labels, blocks, f, h, x, y, b);
        }
        assert forall|from: u32, to: u32| #[trigger] h.edges.contains((from, to)) implies to
            < blocks.len() && (h.reached[to as int] || h.cfg.contains(to)) by {
            assert(f.edges.contains((from, to)));
            if to != b {
                assert(f.cfg.contains(to) ==> g.cfg.contains(to));
            }
        }
        assert(in_order(labels, blocks, h, open));
        lemma_visited_in_order(labels, blocks, h, open, b, phis_only);
    }
}

/// A position stays cared for when another block is taken from the worklist, and so
/// does one that is no phi when its block is.
proof fn lemma_popped_block(
    labels: Map<u32, u32>,
    blocks: Seq<BasicBlock>,
    f: Facts,
    g: Facts,
    x: int,
    y: int,
    b: int,
)
    requires
        0 <= x < blocks.len() <= u32::MAX,
        0 <= y <= blocks[x].instructions@.len(),
        cared_for(labels, blocks, f, x, y),
        g.lattice == f.lattice,
        g.edges == f.edges,
        g.ssa == f.ssa,
        forall|v: u32| f.cfg.contains(v) && v != b ==> #[trigger] g.cfg.contains(v),
        x != b || y == blocks[x].instructions@.len() || !(blocks[x].instructions@[y] is Phi),
    ensures
        cared_for(labels, blocks, g, x, y),
{
    let insts = blocks[x].instructions@;
    if y < insts.len() {
        let inst = insts[y];
        lemma_transfer_agrees(labels, inst, x as u32, f, g);
        if stable_inst(labels, inst, x as u32, f) {
            if let Some((e, w)) = sccp::transfer(labels, inst, x as u32, f) {
                if e < f.lattice.len() {
                    let m = f.lattice[e as int].met(w);
                    if m != f.lattice[e as int] {
                        assert(sccp::evaluated(labels, inst, x as u32, f).lattice[e as int] == m);
                    }
                }
            }
            assert(stable_inst(labels, inst, x as u32, g));
        } else if !waits(use_def::counted(inst), f.ssa) {
            assert(g.cfg.contains(x as u32));
        }
    }
}

// ── Values on the worklist ──────────────────────────────────────────────────

/// The use site of a position.
pub open spec fn loc_of(blocks: Seq<BasicBlock>, b: int, i: int) -> UseLoc {
    UseLoc {
        block_idx: b as u32,
        inst_idx: if i < blocks[b].instructions@.len() {
            i as u32
        } else {
            use_def::TERMINATOR_INDEX
        },
    }
}

/// The values that a position uses.
pub open spec fn used_at(blocks: Seq<BasicBlock>, b: int, i: int) -> Seq<u32> {
    if i < blocks[b].instructions@.len() {
        use_def::counted(blocks[b].instructions@[i])
    } else {
        blocks[b].terminator.used()
    }
}

/// No block has so many instructions that their indices run out.
pub open spec fn indexable(blocks: Seq<BasicBlock>) -> bool {
    &&& blocks.len() <= u32::MAX
    &&& forall|b: int|
        0 <= b < blocks.len() ==> (#[trigger] blocks[b]).instructions@.len() <= u32::MAX
}

proof fn lemma_at_loc(values: Seq<u32>, loc: UseLoc, v: u32)
    requires
        values.contains(v),
    ensures
        use_def::at_loc(values, loc).contains((v, loc)),
{
    let k = choose|k: int| 0 <= k < values.len() && values[k] == v;
    assert(use_def::at_loc(values, loc)[k] == (v, loc));
}

proof fn lemma_contains_parts(a: Seq<(u32, UseLoc)>, b: Seq<(u32, UseLoc)>, x: (u32, UseLoc))
    requires
        a.contains(x) || b.contains(x),
    ensures
        (a + b).contains(x),
{
    if a.contains(x) {
        let k = choose|k: int| 0 <= k < a.len() && a[k] == x;
        assert((a + b)[k] == x);
    } else {
        let k = choose|k: int| 0 <= k < b.len() && b[k] == x;
        assert((a + b)[a.len() + k] == x);
    }
}

proof fn lemma_use_in_insts(insts: Seq<Instruction>, block: u32, n: nat, i: int, v: u32)
    requires
        0 <= i < n <= insts.len(),
        use_def::counted(insts[i]).contains(v),
    ensures
        use_def::uses_in_insts(insts, block, n).contains(
            (v, UseLoc { block_idx: block, inst_idx: i as u32 }),
        ),
    decreases n,
{
    let loc = UseLoc { block_idx: block, inst_idx: i as u32 };
    let before = use_def::uses_in_insts(insts, block, (n - 1) as nat);
    let last = use_def::at_loc(
        use_def::counted(insts[n - 1]),
        UseLoc { block_idx: block, inst_idx: (n - 1) as u32 },
    );
    if i == n - 1 {
        lemma_at_loc(use_def::counted(insts[i]), loc, v);
    } else {
        lemma_use_in_insts(insts, block, (n - 1) as nat, i, v);
    }
    lemma_contains_parts(before, last, (v, loc));
}

/// A value that a position uses is used at its site.
pub proof fn lemma_use_in_blocks(blocks: Seq<BasicBlock>, n: nat, b: int, i: int, v: u32)
    requires
        0 <= b < n <= blocks.len(),
        0 <= i <= blocks[b].instructions@.len(),
        used_at(blocks, b, i).contains(v),
    ensures
        use_def::uses_in_blocks(blocks, n).contains((v, loc_of(blocks, b, i))),
    decreases n,
{
    let x = (v, loc_of(blocks, b, i));
    let insts = blocks[n - 1].instructions@;
    let before = use_def::uses_in_blocks(blocks, (n - 1) as nat);
    let here = use_def::uses_in_insts(insts, (n - 1) as u32, insts.len());
    let last = use_def::at_loc(
        blocks[n - 1].terminator.used(),
        UseLoc { block_idx: (n - 1) as u32, inst_idx: use_def::TERMINATOR_INDEX },
    );
    if b < n - 1 {
        lemma_use_in_blocks(blocks, (n - 1) as nat, b, i, v);
    } else if i < insts.len() {
        lemma_use_in_insts(insts, b as u32, insts.len(), i, v);
    } else {
        lemma_at_loc(blocks[b].terminator.used(), x.1, v);
    }
    if before.contains(x) || here.contains(x) {
        lemma_contains_parts(before, here, x);
    }
    lemma_contains_parts(before + here, last, x);
}

/// The positions that use `v` and whose sites are not among the first `k` of `locs`.
spec fn users_after(
    blocks: Seq<BasicBlock>,
    v: u32,
    locs: Seq<UseLoc>,
    k: int,
) -> Set<(int, int)> {
    Set::new(
        |p: (int, int)|
            0 <= p.0 < blocks.len() && 0 <= p.1 <= blocks[p.0].instructions@.len() && used_at(
                blocks,
                p.0,
                p.1,
            ).contains(v) && !locs.take(k).contains(loc_of(blocks, p.0, p.1)),
    )
}

/// Fewer open positions are in order too.
proof fn lemma_in_order_fewer(
    labels: Map<u32, u32>,
    blocks: Seq<BasicBlock>,
    f: Facts,
    open: Set<(int, int)>,
    fewer: Set<(int, int)>,
)
    requires
        in_order(labels, blocks, f, open),
        forall|b: int, i: int|
            #![trigger at_work(blocks, f, b, i)]
            at_work(blocks, f, b, i) && open.contains((b, i)) ==> fewer.contains((b, i)),
    ensures
        in_order(labels, blocks, f, fewer),
{
}

proof fn lemma_reevaluated_in_order(
    labels: Map<u32, u32>,
    blocks: Seq<BasicBlock>,
    f: Facts,
    v: u32,
    locs: Seq<UseLoc>,
    k: nat,
)
    requires
        in_order(labels, blocks, f, users_after(blocks, v, locs, 0)),
        sccp::labels_fit(labels, blocks.len()),
        indexable(blocks),
        k <= locs.len(),
    ensures
        in_order(
            labels,
            blocks,
            sccp::reevaluated_all(labels, blocks, locs, f, k),
            users_after(blocks, v, locs, k as int),
        ),
        sccp::reevaluated_all(labels, blocks, locs, f, k).reached == f.reached,
    decreases k,
{
    if k > 0 {
        lemma_reevaluated_in_order(labels, blocks, f, v, locs, (k - 1) as nat);
        let g = sccp::reevaluated_all(labels, blocks, locs, f, (k - 1) as nat);
        let h = sccp::reevaluated_all(labels, blocks, locs, f, k);
        let before = users_after(blocks, v, locs, k - 1);
        let after = users_after(blocks, v, locs, k as int);
        let loc = locs[k - 1];
        let b = loc.block_idx as int;
        assert(locs.take(k as int) =~= locs.take(k - 1).push(loc));
        assert forall|p: (int, int)|
            #[trigger] before.contains(p) && loc_of(blocks, p.0, p.1)
                != loc implies after.contains(p) by {
            let l = loc_of(blocks, p.0, p.1);
            if locs.take(k as int).contains(l) {
                let j = choose|j: int| 0 <= j < k && locs.take(k as int)[j] == l;
                assert(locs.take(k - 1)[j] == l);
            }
        }
        if b < blocks.len() && g.reached[b] {
            let end = blocks[b].instructions@.len() as int;
            if loc.inst_idx == use_def::TERMINATOR_INDEX {
                lemma_branched_in_order(labels, blocks, g, before, b);
                let n = blocks.len();
                let targets = sccp::taken(blocks[b].terminator, g.lattice);
                lemma_marked_grows(labels, g, b as u32, targets, targets.len(), n);
                assert forall|x: int, y: int|
                    #![trigger at_work(blocks, h, x, y)]
                    at_work(blocks, h, x, y) && before.remove((b, end)).contains(
                        (x, y),
                    ) implies after.contains((x, y)) by {
                    assert(before.contains((x, y)));
                }
                lemma_in_order_fewer(labels, blocks, h, before.remove((b, end)), after);
            } else if loc.inst_idx < end {
                let i = loc.inst_idx as int;
                lemma_evaluated_in_order(labels, blocks, g, before, b, i);
                assert forall|x: int, y: int|
                    #![trigger at_work(blocks, h, x, y)]
                    at_work(blocks, h, x, y) && before.remove((b, i)).contains(
                        (x, y),
                    ) implies after.contains((x, y)) by {
                    assert(before.contains((x, y)));
                }
                lemma_in_order_fewer(labels, blocks, h, before.remove((b, i)), after);
            } else {
                assert forall|x: int, y: int|
                    #![trigger at_work(blocks, g, x, y)]
                    at_work(blocks, g, x, y) && before.contains((x, y)) implies after.contains(
                    (x, y),
                ) by {
                    assert(loc_of(blocks, x, y) != loc);
                }
                lemma_in_order_fewer(labels, blocks, g, before, after);
            }
        } else {
            assert forall|x: int, y: int|
                #![trigger at_work(blocks, g, x, y)]
                at_work(blocks, g, x, y) && before.contains((x, y)) implies after.contains(
                (x, y),
            ) by {
                assert(loc_of(blocks, x, y) != loc);
            }
            lemma_in_order_fewer(labels, blocks, g, before, after);
        }
    }
}

/// Taking a value from the worklist and evaluating its uses leaves nothing open.
proof fn lemma_ssa_step_in_order(
    labels: Map<u32, u32>,
    func: IrFunction,
    info: UseDefInfo,
    f: Facts,
)
    requires
        in_order(labels, func.blocks@, f, Set::empty()),
        sccp::labels_fit(labels, func.blocks@.len()),
        indexable(func.blocks@),
        info.describes(func),
        f.lattice.len() == func.max_value() + 1,
        f.ssa.len() > 0,
    ensures
        in_order(labels, func.blocks@, sccp::ssa_step(labels, func.blocks@, info, f), Set::empty()),
{
    let blocks = func.blocks@;
    let v = f.ssa.last();
    let g = Facts { ssa: f.ssa.drop_last(), ..f };
    let locs = info.sites(v);
    let open = users_after(blocks, v, locs, 0);
    assert forall|w: u32| f.ssa.contains(w) && w != v implies #[trigger] g.ssa.contains(w) by {
        let k = choose|k: int| 0 <= k < f.ssa.len() && f.ssa[k] == w;
        assert(g.ssa[k] == w);
    }
    assert forall|x: int, y: int|
        #![trigger at_work(blocks, g, x, y)]
        at_work(blocks, g, x, y) && !open.contains((x, y)) implies cared_for(
        labels,
        blocks,
        g,
        x,
        y,
    ) by {
        assert(at_work(blocks, f, x, y));
        assert(cared_for(labels, blocks, f, x, y));
        assert(locs.take(0) =~= Seq::empty());
        assert(!used_at(blocks, x, y).contains(v));
        let insts = blocks[x].instructions@;
        let values = used_at(blocks, x, y);
        if waits(values, f.ssa) {
            let w = choose|w: u32| #[trigger] values.contains(w) && f.ssa.contains(w);
            assert(values.contains(w) && g.ssa.contains(w));
        } else if y < insts.len() && stable_inst(labels, insts[y], x as u32, f) {
            let inst = insts[y];
            lemma_transfer_agrees(labels, inst, x as u32, f, g);
            if let Some((e, w)) = sccp::transfer(labels, inst, x as u32, f) {
                if e < f.lattice.len() {
                    let m = f.lattice[e as int].met(w);
                    if m != f.lattice[e as int] {
                        assert(sccp::evaluated(labels, inst, x as u32, f).lattice[e as int] == m);
                    }
                }
            }
            assert(stable_inst(labels, inst, x as u32, g));
        }
    }
    assert forall|from: u32, to: u32| #[trigger] g.edges.contains((from, to)) implies to
        < blocks.len() && (g.reached[to as int] || g.cfg.contains(to)) by {
        assert(f.edges.contains((from, to)));
    }
    assert forall|k: int| 0 <= k < g.ssa.len() implies #[trigger] g.ssa[k] < g.lattice.len() by {
        assert(f.ssa[k] < f.lattice.len());
    }
    assert(in_order(labels, blocks, g, open));
    lemma_reevaluated_in_order(labels, blocks, g, v, locs, locs.len());
    let h = sccp::ssa_step(labels, blocks, info, f);
    let after = users_after(blocks, v, locs, locs.len() as int);
    assert(f.ssa[f.ssa.len() - 1] < f.lattice.len());
    assert forall|x: int, y: int|
        #![trigger at_work(blocks, h, x, y)]
        at_work(blocks, h, x, y) && after.contains((x, y)) implies Set::<(int, int)>::empty().contains(
        (x, y),
    ) by {
        lemma_use_in_blocks(blocks, blocks.len(), x, y, v);
        use_def::law_sites_are_the_uses(info, func, v, loc_of(blocks, x, y));
        assert(locs.take(locs.len() as int) =~= locs);
    }
    lemma_in_order_fewer(labels, blocks, h, after, Set::empty());
}

proof fn lemma_solved_in_order(
    labels: Map<u32, u32>,
    func: IrFunction,
    info: UseDefInfo,
    f: Facts,
    values: bool,
)
    requires
        in_order(labels, func.blocks@, f, Set::empty()),
        sccp::labels_fit(labels, func.blocks@.len()),
        indexable(func.blocks@),
        info.describes(func),
        f.lattice.len() == func.max_value() + 1,
    ensures
        in_order(
            labels,
            func.blocks@,
            sccp::solved(labels, func.blocks@, info, f, values),
            Set::empty(),
        ),
        sccp::settled(sccp::solved(labels, func.blocks@, info, f, values)),
        sccp::solved(labels, func.blocks@, info, f, values).lattice.len() == f.lattice.len(),
    decreases sccp::work(f, func.blocks@.len()),
{
    let blocks = func.blocks@;
    if !sccp::settled(f) {
        sccp::law_step_makes_progress(labels, blocks, info, f, values);
        let (g, next) = sccp::step(labels, blocks, info, f, values);
        if f.ssa.len() > 0 && (values || f.cfg.len() == 0) {
            lemma_ssa_step_in_order(labels, func, info, f);
        } else {
            lemma_cfg_step_in_order(labels, blocks, f);
        }
        lemma_solved_in_order(labels, func, info, g, next);
    }
}

// ── The law ─────────────────────────────────────────────────────────────────

/// Nothing is left to be found out: the entry block was reached, and so was every
/// block that an executable edge leads to. In the blocks that were reached no
/// instruction adds anything, and every edge that may be taken is executable.
pub open spec fn fixpoint(labels: Map<u32, u32>, blocks: Seq<BasicBlock>, f: Facts) -> bool {
    &&& f.reached.len() == blocks.len()
    &&& blocks.len() > 0 ==> f.reached[0]
    &&& forall|from: u32, to: u32|
        #[trigger] f.edges.contains((from, to)) ==> to < blocks.len() && f.reached[to as int]
    &&& forall|b: int, i: int|
        #![trigger blocks[b].instructions@[i]]
        0 <= b < blocks.len() && f.reached[b] && 0 <= i < blocks[b].instructions@.len()
            ==> stable_inst(labels, blocks[b].instructions@[i], b as u32, f)
    &&& forall|b: int|
        #![trigger blocks[b].terminator]
        0 <= b < blocks.len() && f.reached[b] ==> stable_term(
            labels,
            blocks[b].terminator,
            b as u32,
            f,
        )
}

/// With the use-def information of the function, constant propagation ends in a
/// fixpoint.
pub proof fn law_conclusions_are_a_fixpoint(func: IrFunction, info: UseDefInfo)
    requires
        info.describes(func),
        indexable(func.blocks@),
    ensures
        fixpoint(
            sccp::index_map(func.blocks@),
            func.blocks@,
            sccp::conclusions(func, info),
        ),
        sccp::settled(sccp::conclusions(func, info)),
        sccp::conclusions(func, info).lattice.len() == func.max_value() + 1,
{
    let labels = sccp::index_map(func.blocks@);
    let blocks = func.blocks@;
    let f = sccp::initial(func, info);
    let g = sccp::conclusions(func, info);
    sccp::lemma_index_map_fits(blocks);
    assert(f.cfg[0] == 0);
    assert(f.cfg.contains(0));
    lemma_solved_in_order(labels, func, info, f, false);
    assert forall|b: int, i: int|
        #![trigger blocks[b].instructions@[i]]
        0 <= b < blocks.len() && g.reached[b] && 0 <= i
            < blocks[b].instructions@.len() implies stable_inst(
        labels,
        blocks[b].instructions@[i],
        b as u32,
        g,
    ) by {
        assert(at_work(blocks, g, b, i));
        assert(cared_for(labels, blocks, g, b, i));
    }
    assert forall|b: int|
        #![trigger blocks[b].terminator]
        0 <= b < blocks.len() && g.reached[b] implies stable_term(
        labels,
        blocks[b].terminator,
        b as u32,
        g,
    ) by {
        assert(at_work(blocks, g, b, blocks[b].instructions@.len() as int));
        assert(cared_for(labels, blocks, g, b, blocks[b].instructions@.len() as int));
    }
}

} // verus!
