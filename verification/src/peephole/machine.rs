//! A processor that executes straight-line code, and that the folds of addresses and
//! loads keep what the code does.
//!
//! Nothing is fixed of what an instruction computes. A processor is only asked to respect
//! the operands of the instructions: what is not named and not used implicitly plays no
//! part, only the last operand is written, a move moves, and an address depends on the
//! values of its registers alone.

use vstd::prelude::*;

use super::address_folds;
use super::equivalence;
use super::helpers;
use super::helpers::{Flags, Targets};
use super::paths;
use super::text;
use super::types;
use super::types::{Code, LineKind, RegId};

verus! {

// ── States ──────────────────────────────────────────────────────────────────

/// The general-purpose registers, the flags, and the rest of the machine.
#[verifier::ext_equal]
pub struct State {
    pub regs: Seq<u64>,
    pub flags: Flags,
    pub rest: int,
}

impl State {
    /// The state with another value in a register.
    pub open spec fn with(self, reg: RegId, v: u64) -> State {
        State { regs: self.regs.update(reg as int, v), ..self }
    }

    /// The state with the values of two registers exchanged.
    pub open spec fn swapped(self, a: RegId, b: RegId) -> State {
        self.with(a, self.regs[b as int]).with(b, self.regs[a as int])
    }

    /// The state with other flags.
    pub open spec fn with_flags(self, f: Flags) -> State {
        State { flags: f, ..self }
    }

    /// There are sixteen registers.
    pub open spec fn wf(self) -> bool {
        self.regs.len() == 16
    }
}

/// The states are the same but for one register.
pub open spec fn agree_but(a: State, b: State, reg: RegId) -> bool {
    &&& a.regs.len() == b.regs.len()
    &&& forall|r: int| 0 <= r < a.regs.len() && r != reg ==> #[trigger] a.regs[r] == b.regs[r]
    &&& a.flags == b.flags
    &&& a.rest == b.rest
}

// ── Processors ──────────────────────────────────────────────────────────────

/// What each instruction does to the state.
pub struct Processor {
    pub step: spec_fn(Seq<char>, State) -> State,
}

impl Processor {
    /// The state after an instruction.
    pub open spec fn run(self, s: Seq<char>, st: State) -> State {
        (self.step)(s, st)
    }

    /// The instruction neither reads nor writes the register.
    pub open spec fn ignores(self, s: Seq<char>, reg: RegId) -> bool {
        forall|st: State, v: u64|
            st.wf() ==> #[trigger] self.run(s, st.with(reg, v)) == self.run(s, st).with(reg, v)
    }

    /// What the instruction does, and what it leaves in the register, does not depend on
    /// the register.
    pub open spec fn replaces(self, s: Seq<char>, reg: RegId) -> bool {
        forall|st: State, v: u64|
            st.wf() ==> #[trigger] self.run(s, st.with(reg, v)) == self.run(s, st)
    }

    /// The instruction leaves the register as it is.
    pub open spec fn keeps(self, s: Seq<char>, reg: RegId) -> bool {
        forall|st: State|
            st.wf() ==> (#[trigger] self.run(s, st)).regs[reg as int] == st.regs[reg as int]
    }

    /// The instruction copies register `a` to `b`.
    pub open spec fn copies(self, s: Seq<char>, a: RegId, b: RegId) -> bool {
        forall|st: State| st.wf() ==> #[trigger] self.run(s, st) == st.with(b, st.regs[a as int])
    }

    /// With `b` in place of `a`, the instruction does to `b` what it did to `a`.
    pub open spec fn renames(self, s: Seq<char>, a: RegId, b: RegId) -> bool {
        forall|st: State|
            st.wf() ==> #[trigger] self.run(helpers::renamed(s, 0, a, b), st) == self.run(
                s,
                st.swapped(a, b),
            ).swapped(a, b)
    }

    /// With `b` as its destination in place of `a`, the instruction leaves in `b` what it
    /// left in `a`.
    pub open spec fn retargets(self, s: Seq<char>, a: RegId, b: RegId) -> bool {
        forall|st: State|
            st.wf() ==> #[trigger] self.run(helpers::renamed(s, 0, a, b), st) == self.run(
                s,
                st,
            ).with(a, st.regs[a as int]).with(b, self.run(s, st).regs[a as int])
    }

    /// The two instructions do the same where `a` and `b` hold the same.
    pub open spec fn same_where_equal(
        self,
        s: Seq<char>,
        line: Seq<char>,
        a: RegId,
        b: RegId,
    ) -> bool {
        forall|st: State|
            st.wf() && st.regs[a as int] == st.regs[b as int] ==> self.run(line, st)
                == #[trigger] self.run(s, st)
    }

    /// `line` does to all but `b` what `s` does where `b` holds in addition `n` times what
    /// `x` holds; to `b` too, if that is what `s` writes.
    pub open spec fn adds_index(
        self,
        s: Seq<char>,
        line: Seq<char>,
        b: RegId,
        x: RegId,
        n: int,
    ) -> bool {
        forall|st: State| #[trigger]
            st.wf() ==> {
                let sum = equivalence::wrap(st.regs[b as int] + n * st.regs[x as int]);
                let u = self.run(s, st.with(b, sum));
                let w = self.run(line, st);
                &&& agree_but(w, u, b)
                &&& helpers::dest_of(types::kind_of(s)) == b ==> w == u
            }
    }
}

// ── What is asked of a processor ────────────────────────────────────────────

/// Straight-line code: no jump, call or return, and nothing that they lead to.
#[verifier::opaque]
pub open spec fn straight(s: Seq<char>) -> bool {
    match types::kind_of(s) {
        LineKind::Label => false,
        LineKind::Jmp => false,
        LineKind::JmpIndirect => false,
        LineKind::CondJmp => false,
        LineKind::Call => false,
        LineKind::Ret => false,
        LineKind::Directive => false,
        _ => true,
    }
}

/// The instruction has nothing to do with the register.
#[verifier::opaque]
pub open spec fn untouched(s: Seq<char>, reg: RegId) -> bool {
    straight(s) && helpers::movable(reg) && !helpers::names_family(s, reg)
        && !helpers::implicit_reg(s, reg)
}

/// The register is the last operand, and is given a new value.
#[verifier::opaque]
pub open spec fn overwritten(s: Seq<char>, reg: RegId) -> bool {
    straight(s) && helpers::movable(reg) && helpers::dest_of(types::kind_of(s)) == reg
        && helpers::sets_anew(s, reg) && !helpers::implicit_reg(s, reg)
}

/// The register is not the last operand.
#[verifier::opaque]
pub open spec fn not_written(s: Seq<char>, reg: RegId) -> bool {
    straight(s) && helpers::movable(reg) && helpers::dest_of(types::kind_of(s)) != reg
        && !helpers::implicit_reg(s, reg)
}

/// The instruction does not write `%rax`.
#[verifier::opaque]
pub open spec fn spares_rax(s: Seq<char>) -> bool {
    straight(s) && helpers::dest_of(types::kind_of(s)) != 0 && !helpers::writes_rax(s)
}

/// The registers of a move between two registers.
#[verifier::opaque]
pub open spec fn copied(s: Seq<char>) -> Option<(RegId, RegId)> {
    match helpers::reg_move(types::kind_of(s), s) {
        Some((a, b)) => if helpers::dest_of(types::kind_of(s)) == b {
            Some((a, b))
        } else {
            None
        },
        None => None,
    }
}

/// `b` can take the place of `a` in the instruction.
#[verifier::opaque]
pub open spec fn renamable(s: Seq<char>, a: RegId, b: RegId) -> bool {
    &&& straight(s) && helpers::movable(a) && helpers::movable(b) && a != b
    &&& !helpers::names_family(s, b) && !helpers::names_family(helpers::renamed(s, 0, a, b), a)
    &&& !helpers::implicit_reg(s, a) && !helpers::implicit_reg(s, b)
}

/// `b` can take the place of `a` as the destination of the instruction.
#[verifier::opaque]
pub open spec fn retargetable(s: Seq<char>, a: RegId, b: RegId) -> bool {
    &&& overwritten(s, a) && helpers::movable(b) && a != b
    &&& !helpers::names_family(helpers::renamed(s, 0, a, b), a) && !helpers::implicit_reg(s, b)
}

/// The instruction with `a` as the last register of its addresses in place of `b`.
pub open spec fn based(s: Seq<char>, a: RegId, b: RegId) -> Seq<char> {
    text::subst(s, types::reg_text(0, b) + ")"@, types::reg_text(0, a) + ")"@)
}

/// Nothing else in the instruction names `b`.
#[verifier::opaque]
pub open spec fn based_only(s: Seq<char>, a: RegId, b: RegId) -> bool {
    straight(s) && helpers::movable(a) && helpers::movable(b) && !helpers::names_family(
        based(s, a, b),
        b,
    )
}

/// The instruction with `index` added to the address in `b`.
pub open spec fn indexed(s: Seq<char>, b: RegId, index: Seq<char>) -> Seq<char> {
    text::subst(
        s,
        address_folds::base_operand(b),
        "("@ + types::reg_text(0, b) + ", "@ + index + ")"@,
    )
}

/// The instruction reads `b` only as an address by itself: nothing else names it, but for
/// the register that it fills.
#[verifier::opaque]
pub open spec fn addresses_by(s: Seq<char>, b: RegId) -> bool {
    straight(s) && helpers::movable(b) && address_folds::only_addresses(
        s,
        helpers::dest_of(types::kind_of(s)),
        b,
    )
}

/// A processor that respects the operands of instructions.
#[verifier::opaque]
pub open spec fn sensible(p: Processor) -> bool {
    &&& forall|s: Seq<char>, st: State| st.wf() ==> (#[trigger] p.run(s, st)).wf()
    &&& forall|s: Seq<char>, r: RegId| #[trigger] untouched(s, r) ==> p.ignores(s, r)
    &&& forall|s: Seq<char>, r: RegId| #[trigger] overwritten(s, r) ==> p.replaces(s, r)
    &&& forall|s: Seq<char>, r: RegId| #[trigger] not_written(s, r) ==> p.keeps(s, r)
    &&& forall|s: Seq<char>| #[trigger] spares_rax(s) ==> p.keeps(s, 0)
    &&& forall|s: Seq<char>, a: RegId, b: RegId| #[trigger]
        renamable(s, a, b) ==> p.renames(s, a, b)
    &&& forall|s: Seq<char>, a: RegId, b: RegId| #[trigger]
        retargetable(s, a, b) ==> p.retargets(s, a, b)
    &&& moves_and_addresses(p)
}

/// A processor that moves, adds and addresses as it should.
#[verifier::opaque]
pub open spec fn moves_and_addresses(p: Processor) -> bool {
    &&& forall|s: Seq<char>|
        (#[trigger] copied(s)) matches Some((a, b)) ==> p.copies(s, a, b)
    &&& forall|s: Seq<char>, a: RegId, b: RegId| #[trigger]
        based_only(s, a, b) ==> p.same_where_equal(s, based(s, a, b), a, b)
    &&& forall|s: Seq<char>, b: RegId, x: RegId|
        #![trigger addresses_by(s, b), types::reg_text(0, x)]
        addresses_by(s, b) && helpers::movable(x) && x != b ==> p.adds_index(
            s,
            indexed(s, b, types::reg_text(0, x)),
            b,
            x,
            1,
        ) && p.adds_index(s, indexed(s, b, types::reg_text(0, x) + ", 2"@), b, x, 2)
    &&& forall|s: Seq<char>, st: State|
        #![trigger p.run(s, st), address_folds::addq_regs(s)]
        st.wf() ==> (address_folds::addq_regs(s) matches Some((a, b)) ==> helpers::dest_of(
            types::kind_of(s),
        ) == b ==> {
            let sum = equivalence::wrap(st.regs[a as int] + st.regs[b as int]);
            let u = p.run(s, st);
            u.regs == st.regs.update(b as int, sum) && u.rest == st.rest
        })
    &&& forall|s: Seq<char>, st: State|
        #![trigger p.run(s, st), address_folds::leaq_double(s)]
        st.wf() ==> (address_folds::leaq_double(s) matches Some((a, b)) ==> helpers::dest_of(
            types::kind_of(s),
        ) == b ==> p.run(s, st) == st.with(b, equivalence::wrap(2 * st.regs[a as int])))
    &&& forall|s: Seq<char>, st: State, f: Flags|
        #![trigger p.run(s, st.with_flags(f))]
        st.wf() && straight(s) && !paths::may_read_flags_of(s) ==> {
            let u = p.run(s, st.with_flags(f));
            u.regs == p.run(s, st).regs && u.rest == p.run(s, st).rest
        }
}

// ── The parts of that ───────────────────────────────────────────────────────

pub proof fn lemma_run_wf(p: Processor, s: Seq<char>, st: State)
    requires
        sensible(p),
        st.wf(),
    ensures
        p.run(s, st).wf(),
{
    reveal(sensible);
}

pub proof fn lemma_run_ignores(p: Processor, s: Seq<char>, r: RegId, st: State, v: u64)
    requires
        sensible(p),
        untouched(s, r),
        st.wf(),
    ensures
        p.run(s, st.with(r, v)) == p.run(s, st).with(r, v),
        p.run(s, st).regs[r as int] == st.regs[r as int],
        p.run(s, st).wf(),
{
    reveal(sensible);
    reveal(untouched);
    assert(p.ignores(s, r));
    assert(p.run(s, st.with(r, v)) == p.run(s, st).with(r, v));
    let same = st.with(r, st.regs[r as int]);
    assert(same =~= st);
    assert(p.run(s, same) == p.run(s, st).with(r, st.regs[r as int]));
}

pub proof fn lemma_run_replaces(p: Processor, s: Seq<char>, r: RegId, st: State, v: u64)
    requires
        sensible(p),
        overwritten(s, r),
        st.wf(),
    ensures
        p.run(s, st.with(r, v)) == p.run(s, st),
        p.run(s, st).wf(),
{
    reveal(sensible);
    assert(p.replaces(s, r));
}

pub proof fn lemma_run_copies(p: Processor, s: Seq<char>, st: State)
    requires
        sensible(p),
        copied(s) is Some,
        st.wf(),
    ensures
        p.run(s, st) == st.with(copied(s)->Some_0.1, st.regs[copied(s)->Some_0.0 as int]),
{
    reveal(sensible);
    reveal(moves_and_addresses);
    let (a, b) = copied(s)->0;
    assert(p.copies(s, a, b));
}

pub proof fn lemma_run_based(p: Processor, s: Seq<char>, a: RegId, b: RegId, st: State)
    requires
        sensible(p),
        based_only(s, a, b),
        st.wf(),
        st.regs[a as int] == st.regs[b as int],
    ensures
        p.run(based(s, a, b), st) == p.run(s, st),
{
    reveal(sensible);
    reveal(moves_and_addresses);
    assert(p.same_where_equal(s, based(s, a, b), a, b));
}

pub proof fn lemma_run_index(p: Processor, s: Seq<char>, b: RegId, x: RegId, st: State)
    requires
        sensible(p),
        addresses_by(s, b),
        helpers::movable(x),
        x != b,
        st.wf(),
    ensures
        ({
            let sum = equivalence::wrap(st.regs[b as int] + st.regs[x as int]);
            let u = p.run(s, st.with(b, sum));
            let w = p.run(indexed(s, b, types::reg_text(0, x)), st);
            agree_but(w, u, b) && (helpers::dest_of(types::kind_of(s)) == b ==> w == u)
        }),
        ({
            let sum = equivalence::wrap(st.regs[b as int] + 2 * st.regs[x as int]);
            let u = p.run(s, st.with(b, sum));
            let w = p.run(indexed(s, b, types::reg_text(0, x) + ", 2"@), st);
            agree_but(w, u, b) && (helpers::dest_of(types::kind_of(s)) == b ==> w == u)
        }),
{
    reveal(sensible);
    reveal(moves_and_addresses);
    let one = indexed(s, b, types::reg_text(0, x));
    let two = indexed(s, b, types::reg_text(0, x) + ", 2"@);
    assert(p.adds_index(s, one, b, x, 1));
    assert(p.adds_index(s, two, b, x, 2));
    assert(st.wf());
    assert(st.regs[b as int] + 1 * st.regs[x as int] == st.regs[b as int] + st.regs[x as int]);
}

pub proof fn lemma_run_sum(p: Processor, s: Seq<char>, a: RegId, b: RegId, st: State)
    requires
        sensible(p),
        address_folds::addq_regs(s) == Some((a, b)),
        helpers::dest_of(types::kind_of(s)) == b,
        st.wf(),
    ensures
        p.run(s, st).regs == st.regs.update(
            b as int,
            equivalence::wrap(st.regs[a as int] + st.regs[b as int]),
        ),
        p.run(s, st).rest == st.rest,
{
    reveal(sensible);
    reveal(moves_and_addresses);
    assert(p.run(s, st) == p.run(s, st));
}

pub proof fn lemma_run_double(p: Processor, s: Seq<char>, a: RegId, b: RegId, st: State)
    requires
        sensible(p),
        address_folds::leaq_double(s) == Some((a, b)),
        helpers::dest_of(types::kind_of(s)) == b,
        st.wf(),
    ensures
        p.run(s, st) == st.with(b, equivalence::wrap(2 * st.regs[a as int])),
{
    reveal(sensible);
    reveal(moves_and_addresses);
    assert(p.run(s, st) == p.run(s, st));
}

pub proof fn lemma_run_keeps(p: Processor, s: Seq<char>, r: RegId, st: State)
    requires
        sensible(p),
        not_written(s, r),
        st.wf(),
    ensures
        p.run(s, st).regs[r as int] == st.regs[r as int],
{
    reveal(sensible);
    assert(p.keeps(s, r));
}

pub proof fn lemma_run_keeps_rax(p: Processor, s: Seq<char>, st: State)
    requires
        sensible(p),
        spares_rax(s),
        st.wf(),
    ensures
        p.run(s, st).regs[0] == st.regs[0],
{
    reveal(sensible);
    assert(p.keeps(s, 0));
}

pub proof fn lemma_run_renamed(p: Processor, s: Seq<char>, a: RegId, b: RegId, st: State)
    requires
        sensible(p),
        renamable(s, a, b),
        st.wf(),
    ensures
        p.run(helpers::renamed(s, 0, a, b), st) == p.run(s, st.swapped(a, b)).swapped(a, b),
{
    reveal(sensible);
    assert(p.renames(s, a, b));
}

pub proof fn lemma_run_retargeted(p: Processor, s: Seq<char>, a: RegId, b: RegId, st: State)
    requires
        sensible(p),
        retargetable(s, a, b),
        st.wf(),
    ensures
        p.run(helpers::renamed(s, 0, a, b), st) == p.run(s, st).with(a, st.regs[a as int]).with(
            b,
            p.run(s, st).regs[a as int],
        ),
{
    reveal(sensible);
    assert(p.retargets(s, a, b));
}

pub proof fn lemma_run_flags(p: Processor, s: Seq<char>, st: State, f: Flags)
    requires
        sensible(p),
        straight(s),
        !paths::may_read_flags_of(s),
        st.wf(),
    ensures
        p.run(s, st.with_flags(f)).regs == p.run(s, st).regs,
        p.run(s, st.with_flags(f)).rest == p.run(s, st).rest,
{
    reveal(sensible);
    reveal(moves_and_addresses);
}

// ── Straight-line code ──────────────────────────────────────────────────────

/// The state after the lines from `k` up to `end`.
pub open spec fn after_code(p: Processor, c: Code, k: int, end: int, st: State) -> State
    decreases end - k,
{
    if k >= end {
        st
    } else if c.nop(k) {
        after_code(p, c, k + 1, end, st)
    } else {
        after_code(p, c, k + 1, end, p.run(c.body(k), st))
    }
}

pub proof fn lemma_after_split(p: Processor, c: Code, k: int, mid: int, end: int, st: State)
    requires
        k <= mid <= end,
    ensures
        after_code(p, c, k, end, st) == after_code(p, c, mid, end, after_code(p, c, k, mid, st)),
    decreases mid - k,
{
    if k < mid {
        if c.nop(k) {
            lemma_after_split(p, c, k + 1, mid, end, st);
        } else {
            lemma_after_split(p, c, k + 1, mid, end, p.run(c.body(k), st));
        }
    }
}

/// Lines that were removed do nothing.
pub proof fn lemma_after_removed(p: Processor, c: Code, k: int, end: int, st: State)
    requires
        forall|m: int| k <= m < end ==> #[trigger] c.nop(m),
    ensures
        after_code(p, c, k, end, st) == st,
    decreases end - k,
{
    if k < end {
        lemma_after_removed(p, c, k + 1, end, st);
    }
}

pub proof fn lemma_up_to_live(c: Code, k: int, m: int)
    requires
        0 <= k <= m < c.live_from(k),
    ensures
        c.nop(m),
        c.live_from(k) <= c.len(),
    decreases m - k,
{
    if c.nop(k) && k < c.len() {
        if m > k {
            lemma_up_to_live(c, k + 1, m);
        } else {
            lemma_live_bound(c, k + 1);
        }
    }
}

pub proof fn lemma_live_bound(c: Code, k: int)
    requires
        0 <= k <= c.len(),
    ensures
        k <= c.live_from(k) <= c.len(),
    decreases c.len() - k,
{
    if k < c.len() && c.nop(k) {
        lemma_live_bound(c, k + 1);
    }
}

/// Lines `i` and `j`, with nothing but removed lines between them.
pub proof fn lemma_two_lines(p: Processor, c: Code, i: int, st: State)
    requires
        0 <= i < c.len(),
        !c.nop(i),
        c.live_from(i + 1) < c.len(),
    ensures
        ({
            let j = c.live_from(i + 1);
            &&& i < j
            &&& !c.nop(j)
            &&& after_code(p, c, i, j + 1, st) == p.run(c.body(j), p.run(c.body(i), st))
        }),
{
    let j = c.live_from(i + 1);
    lemma_live_bound(c, i + 1);
    lemma_live_stops(c, i + 1);
    let mid = p.run(c.body(i), st);
    assert forall|m: int| i + 1 <= m < j implies #[trigger] c.nop(m) by {
        lemma_up_to_live(c, i + 1, m);
    }
    lemma_after_removed(p, c, i + 1, j, mid);
    lemma_after_split(p, c, i + 1, j, j + 1, mid);
    reveal_with_fuel(after_code, 3);
}

pub proof fn lemma_live_stops(c: Code, k: int)
    requires
        0 <= k,
        c.live_from(k) < c.len(),
    ensures
        !c.nop(c.live_from(k)),
    decreases c.len() - k,
{
    if k < c.len() && c.nop(k) {
        lemma_live_stops(c, k + 1);
    }
}

// ── Addresses ───────────────────────────────────────────────────────────────

/// An operation on a copied pointer and the operation on the pointer itself do the same
/// but for the copy, unless the operation uses the copy implicitly.
pub proof fn law_address_through_secondary_keeps_state(
    p: Processor,
    c: Code,
    t: Targets,
    i: int,
    st: State,
)
    requires
        sensible(p),
        c.faithful(),
        0 <= i < c.len(),
        !c.nop(i),
        address_folds::secondary_at(c, t, i) is Some,
        st.wf(),
        copied(c.body(i)) == address_folds::foldable_move(c, i),
        straight(c.body(c.live_from(i + 1))),
        ({
            let (src, dst) = address_folds::foldable_move(c, i)->0;
            untouched(based(c.body(c.live_from(i + 1)), src, dst), dst)
        }),
    ensures
        ({
            let (src, dst) = address_folds::foldable_move(c, i)->0;
            let j = c.live_from(i + 1);
            let line = based(c.body(j), src, dst);
            &&& address_folds::secondary_at(c, t, i) == Some(
                (c.remove(i).put(j, "    "@ + line), j + 1),
            )
            &&& agree_but(p.run(line, st), after_code(p, c, i, j + 1, st), dst)
        }),
{
    let (src, dst) = address_folds::foldable_move(c, i)->0;
    let j = c.live_from(i + 1);
    let s = c.body(j);
    let line = based(s, src, dst);
    lemma_two_lines(p, c, i, st);
    let mid = st.with(dst, st.regs[src as int]);
    lemma_run_copies(p, c.body(i), st);
    assert(based_only(s, src, dst)) by {
        reveal(based_only);
        reveal(untouched);
        lemma_movable_move(c, i);
    }
    lemma_run_based(p, s, src, dst, mid);
    lemma_run_ignores(p, line, dst, st, st.regs[src as int]);
}

/// The registers of a move that may be folded are movable.
proof fn lemma_movable_move(c: Code, i: int)
    requires
        address_folds::foldable_move(c, i) is Some,
    ensures
        helpers::movable(address_folds::foldable_move(c, i)->Some_0.0),
        helpers::movable(address_folds::foldable_move(c, i)->Some_0.1),
        address_folds::foldable_move(c, i)->Some_0.0 != address_folds::foldable_move(
            c,
            i,
        )->Some_0.1,
{
}

/// The lines of an addition that goes into an address, from the doubling on if that goes
/// too, and the line in their place do the same to the registers and to memory, but for
/// the sum and for what was added. The operation is straight-line code that does not read
/// the flags.
pub proof fn law_scaled_address_keeps_state(p: Processor, c: Code, t: Targets, i: int, st: State)
    requires
        sensible(p),
        c.faithful(),
        0 <= i < c.len(),
        address_folds::scaled_at(c, t, i) is Some,
        st.wf(),
        ({
            let j = c.live_from(i + 1);
            let (src, dst) = address_folds::scaled_operands(c, t, i, j)->0;
            &&& helpers::dest_of(types::kind_of(c.body(i))) == dst
            &&& straight(c.body(j))
            &&& !paths::may_read_flags_of(c.body(j))
            &&& address_folds::doubled_for(c, t, i, j, src, dst) is Some ==> helpers::dest_of(
                types::kind_of(c.body(address_folds::back_live(c, i - 1))),
            ) == src
        }),
    ensures
        ({
            let j = c.live_from(i + 1);
            let (src, dst) = address_folds::scaled_operands(c, t, i, j)->0;
            match address_folds::doubled_for(c, t, i, j, src, dst) {
                Some(a) => {
                    let q = address_folds::back_live(c, i - 1);
                    let line = indexed(c.body(j), dst, types::reg_text(0, a) + ", 2"@);
                    let new = p.run(line, st);
                    let old = after_code(p, c, q, j + 1, st);
                    &&& address_folds::scaled_at(c, t, i) == Some(
                        (c.remove(q).remove(i).put(j, "    "@ + line), j + 1),
                    )
                    &&& new.rest == old.rest
                    &&& forall|r: int|
                        0 <= r < 16 && r != dst && (r != src || address_folds::fills_anew(
                            c.body(j),
                            helpers::dest_of(c.kind(j)),
                            src,
                        )) ==> #[trigger] new.regs[r] == old.regs[r]
                    &&& helpers::dest_of(types::kind_of(c.body(j))) == dst ==> new.regs[dst as int]
                        == old.regs[dst as int]
                },
                None => {
                    let line = indexed(c.body(j), dst, types::reg_text(0, src));
                    let new = p.run(line, st);
                    let old = after_code(p, c, i, j + 1, st);
                    &&& address_folds::scaled_at(c, t, i) == Some(
                        (c.remove(i).put(j, "    "@ + line), j + 1),
                    )
                    &&& new.rest == old.rest
                    &&& forall|r: int|
                        0 <= r < 16 && r != dst ==> #[trigger] new.regs[r] == old.regs[r]
                    &&& helpers::dest_of(types::kind_of(c.body(j))) == dst ==> new.regs[dst as int]
                        == old.regs[dst as int]
                },
            }
        }),
{
    let j = c.live_from(i + 1);
    let (src, dst) = address_folds::scaled_operands(c, t, i, j)->0;
    let s = c.body(j);
    lemma_live_bound(c, i + 1);
    lemma_live_stops(c, i + 1);
    types::lemma_faithful_line(c, j);
    assert(addresses_by(s, dst)) by {
        reveal(addresses_by);
    }
    match address_folds::doubled_for(c, t, i, j, src, dst) {
        Some(a) => {
            let q = address_folds::back_live(c, i - 1);
            lemma_back(c, i - 1);
            lemma_live_between(c, q, i);
            lemma_two_lines(p, c, q, st);
            lemma_two_lines(p, c, i, p.run(c.body(q), st));
            let s1 = p.run(c.body(q), st);
            lemma_run_double(p, c.body(q), a, src, st);
            let s2 = p.run(c.body(i), s1);
            lemma_run_sum(p, c.body(i), src, dst, s1);
            lemma_after_split(p, c, q, i, j + 1, st);
            lemma_after_split(p, c, q, i, i + 1, st);
            assert(after_code(p, c, q, j + 1, st) == p.run(s, s2)) by {
                assert forall|m: int| q + 1 <= m < i implies #[trigger] c.nop(m) by {
                    lemma_up_to_live(c, q + 1, m);
                }
                lemma_after_removed(p, c, q + 1, i, s1);
                assert(after_code(p, c, q, i, st) == s1);
            }
            let sum = equivalence::wrap(st.regs[dst as int] + 2 * st.regs[a as int]);
            assert(equivalence::wrap(s1.regs[src as int] + s1.regs[dst as int]) == sum) by {
                lemma_wrapped_sum(st.regs[dst as int], st.regs[a as int]);
            }
            let aim = st.with(dst, sum);
            let mid = aim.with(src, s1.regs[src as int]);
            assert(s2.regs =~= mid.regs);
            assert(s2 == mid.with_flags(s2.flags));
            lemma_run_flags(p, s, mid, s2.flags);
            if address_folds::fills_anew(s, helpers::dest_of(types::kind_of(s)), src) {
                assert(overwritten(s, src)) by {
                    reveal(overwritten);
                }
                lemma_run_replaces(p, s, src, aim, s1.regs[src as int]);
            } else {
                assert(untouched(s, src)) by {
                    reveal(untouched);
                }
                lemma_run_ignores(p, s, src, aim, s1.regs[src as int]);
            }
            lemma_index_text(a, dst);
            lemma_run_index(p, s, dst, a, st);
        },
        None => {
            lemma_two_lines(p, c, i, st);
            let s1 = p.run(c.body(i), st);
            lemma_run_sum(p, c.body(i), src, dst, st);
            let sum = equivalence::wrap(st.regs[dst as int] + st.regs[src as int]);
            let aim = st.with(dst, sum);
            assert(s1.regs =~= aim.regs);
            assert(s1 == aim.with_flags(s1.flags));
            lemma_run_flags(p, s, aim, s1.flags);
            lemma_run_index(p, s, dst, src, st);
            lemma_run_wf(p, s, aim);
        },
    }
}

proof fn lemma_index_text(a: RegId, dst: RegId)
    ensures
        "("@ + types::reg_text(0, dst) + ", "@ + (types::reg_text(0, a) + ", 2"@) + ")"@ == "("@
            + types::reg_text(0, dst) + ", "@ + types::reg_text(0, a) + ", 2)"@,
{
    reveal_strlit(", 2");
    reveal_strlit(")");
    reveal_strlit(", 2)");
    assert(", 2"@ + ")"@ =~= ", 2)"@);
    assert("("@ + types::reg_text(0, dst) + ", "@ + (types::reg_text(0, a) + ", 2"@) + ")"@ =~= "("@
        + types::reg_text(0, dst) + ", "@ + types::reg_text(0, a) + (", 2"@ + ")"@));
}

proof fn lemma_wrapped_sum(b: u64, a: u64)
    ensures
        equivalence::wrap(equivalence::wrap(2 * a) + b) == equivalence::wrap(b + 2 * a),
{
    let n: int = 2 * a;
    let m: int = 0x1_0000_0000_0000_0000;
    assert((n % m + b) % m == (b + n) % m) by (nonlinear_arith)
        requires
            m == 0x1_0000_0000_0000_0000,
    ;
}

pub proof fn lemma_back(c: Code, k: int)
    requires
        0 <= k,
    ensures
        0 <= address_folds::back_live(c, k) <= k,
        forall|m: int| address_folds::back_live(c, k) < m <= k ==> #[trigger] c.nop(m),
    decreases k,
{
    if k > 0 && c.nop(k) {
        lemma_back(c, k - 1);
    }
}

proof fn lemma_live_between(c: Code, q: int, i: int)
    requires
        0 <= q < i < c.len(),
        !c.nop(i),
        forall|m: int| q < m < i ==> #[trigger] c.nop(m),
    ensures
        c.live_from(q + 1) == i,
    decreases i - q,
{
    if q + 1 < i {
        assert(c.nop(q + 1));
        lemma_live_between(c, q + 1, i);
    }
}

} // verus!
