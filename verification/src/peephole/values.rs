//! What extensions, tests and moves compute, and that the passes that drop or narrow them
//! keep what the code does.

use vstd::prelude::*;

use super::combined;
use super::helpers;
use super::helpers::Flags;
use super::laws;
use super::liveness;
use super::machine;
use super::machine::{Processor, State};
use super::narrow;
use super::paths;
use super::text;
use super::types;
use super::types::{Code, ExtKind, LineKind, RegId, REG_NONE};

verus! {

// ── Values ──────────────────────────────────────────────────────────────────

/// The low half of a value.
pub open spec fn low32(v: u64) -> u64 {
    v & 0xFFFF_FFFF
}

/// The low half of a value, extended by its sign.
pub open spec fn sext32(v: u64) -> u64 {
    if v & 0x8000_0000 == 0 {
        v & 0xFFFF_FFFF
    } else {
        v | 0xFFFF_FFFF_0000_0000
    }
}

/// The lowest byte of a value, extended by its sign.
pub open spec fn sext8(v: u64) -> u64 {
    if v & 0x80 == 0 {
        v & 0xFF
    } else {
        v | 0xFFFF_FFFF_FFFF_FF00
    }
}

/// What an extension makes of `%rax`.
pub open spec fn extended(ext: ExtKind, v: u64) -> u64 {
    match ext {
        ExtKind::MovzbqAlRax => v & 0xFF,
        ExtKind::MovzwqAxRax => v & 0xFFFF,
        ExtKind::MovsbqAlRax => sext8(v),
        ExtKind::MovslqEaxRax => sext32(v),
        ExtKind::Cltq => sext32(v),
        ExtKind::MovlEaxEax => low32(v),
        _ => v,
    }
}

/// Is this an extension of `%rax` in place?
pub open spec fn extends(ext: ExtKind) -> bool {
    ext is MovzbqAlRax || ext is MovzwqAxRax || ext is MovsbqAlRax || ext is MovslqEaxRax
        || ext is Cltq || ext is MovlEaxEax
}

/// The values that an instruction with this part in extension patterns can leave in
/// `%rax`.
pub open spec fn left_by(ext: ExtKind, v: u64) -> bool {
    match ext {
        ExtKind::ProducerMovzbqToRax => v < 0x100,
        ExtKind::MovzbqAlRax => v < 0x100,
        ExtKind::ProducerMovzbToEax => v < 0x100,
        ExtKind::ProducerMovzwqToRax => v < 0x1_0000,
        ExtKind::MovzwqAxRax => v < 0x1_0000,
        ExtKind::ProducerMovzwToEax => v < 0x1_0000,
        ExtKind::ProducerMovsbqToRax => sext8(v) == v,
        ExtKind::MovsbqAlRax => sext8(v) == v,
        ExtKind::ProducerMovslqToRax => sext32(v) == v,
        ExtKind::MovslqEaxRax => sext32(v) == v,
        ExtKind::Cltq => sext32(v) == v,
        ExtKind::ProducerMovqConstRax => sext32(v) == v,
        ExtKind::ProducerArith32 => v <= 0xFFFF_FFFF,
        ExtKind::ProducerMovlToEax => v <= 0xFFFF_FFFF,
        ExtKind::ProducerDiv32 => v <= 0xFFFF_FFFF,
        ExtKind::MovlEaxEax => v <= 0xFFFF_FFFF,
        _ => true,
    }
}

/// The instruction has `%rax` as its last operand, or divides into it.
pub open spec fn ends_in_rax(s: Seq<char>) -> bool {
    helpers::dest_of(types::kind_of(s)) == 0 || types::ext_of(s) is ProducerDiv32
}

proof fn lemma_extended_already(prev: ExtKind, next: ExtKind, v: u64)
    requires
        combined::extended_already(prev, next),
        left_by(prev, v),
    ensures
        extended(next, v) == v,
{
    lemma_small(v);
    assert(v & 0x80 == 0 && v & 0xFF == v ==> v & 0x8000_0000 == 0 && v & 0xFFFF_FFFF == v) by (
        bit_vector);
    assert(v & 0x80 != 0 && v | 0xFFFF_FFFF_FFFF_FF00 == v ==> v & 0x8000_0000 != 0 && v
        | 0xFFFF_FFFF_0000_0000 == v) by (bit_vector);
}

proof fn lemma_small(v: u64)
    ensures
        v < 0x100 ==> v & 0xFF == v,
        v < 0x1_0000 ==> v & 0xFFFF == v,
        v <= 0xFFFF_FFFF ==> v & 0xFFFF_FFFF == v,
        v <= 0x7FFF_FFFF ==> v & 0x8000_0000 == 0 && v & 0xFFFF_FFFF == v,
{
    assert(v < 0x100 ==> v & 0xFF == v) by (bit_vector);
    assert(v < 0x1_0000 ==> v & 0xFFFF == v) by (bit_vector);
    assert(v <= 0xFFFF_FFFF ==> v & 0xFFFF_FFFF == v) by (bit_vector);
    assert(v <= 0x7FFF_FFFF ==> v & 0x8000_0000 == 0) by (bit_vector);
}

// ── What is asked of a processor ────────────────────────────────────────────

/// A line of this kind leaves the register alone.
pub open spec fn spared(kind: LineKind, reg: RegId) -> bool {
    match kind {
        LineKind::Empty => true,
        LineKind::SelfMove => true,
        LineKind::StoreRbp { .. } => true,
        LineKind::Push { .. } => true,
        LineKind::Cmp => true,
        LineKind::Directive => true,
        LineKind::LoadRbp { reg: r, .. } => r != reg,
        LineKind::Pop { reg: r } => r != reg,
        LineKind::SetCC { reg: r } => r != reg,
        _ => false,
    }
}

/// Is `load` a load of just what `store` stores, into the register that it came from, and
/// not one of 32 bits, which clears the upper half?
pub open spec fn loads_back(store: LineKind, load: LineKind) -> bool {
    match (store, load) {
        (
            LineKind::StoreRbp { reg, offset, size },
            LineKind::LoadRbp { reg: to, offset: at, size: width },
        ) => offset == at && size == width && reg == to && reg != REG_NONE && !(size is L),
        _ => false,
    }
}

/// `movl` between two registers.
pub open spec fn movl_text(src: RegId, dst: RegId) -> Seq<char> {
    "movl "@ + types::reg_text(1, src) + ", "@ + types::reg_text(1, dst)
}

/// `testl` of a register with itself.
pub open spec fn testl_text(reg: RegId) -> Seq<char> {
    "testl "@ + types::reg_text(1, reg) + ", "@ + types::reg_text(1, reg)
}

/// Is the number of ones even?
pub open spec fn even(v: u64) -> bool {
    let a = v ^ (v >> 4);
    let b = a ^ (a >> 2);
    (b ^ (b >> 1)) & 1 == 0
}

/// The flags that a test leaves of a result of 64 or of 32 bits.
pub open spec fn flags_of(v: u64, wide: bool) -> Flags {
    Flags {
        zero: v == 0,
        sign: if wide {
            v >= 0x8000_0000_0000_0000
        } else {
            v >= 0x8000_0000
        },
        overflow: false,
        carry: false,
        parity: even(v & 0xFF),
    }
}

/// A processor that moves, extends and tests as it should.
#[verifier::opaque]
pub open spec fn computes(p: Processor) -> bool {
    &&& machine::sensible(p)
    &&& forall|s: Seq<char>, st: State|
        st.wf() && types::kind_of(s) is SelfMove ==> #[trigger] p.run(s, st) == st
    &&& forall|s: Seq<char>, st: State, r: RegId|
        #![trigger p.run(s, st), spared(types::kind_of(s), r)]
        st.wf() && helpers::movable(r) && spared(types::kind_of(s), r) ==> p.run(
            s,
            st,
        ).regs[r as int] == st.regs[r as int]
    &&& forall|s: Seq<char>, l: Seq<char>, st: State|
        #![trigger p.run(l, p.run(s, st))]
        st.wf() && loads_back(types::kind_of(s), types::kind_of(l)) ==> p.run(l, p.run(s, st))
            == p.run(s, st)
    &&& forall|s: Seq<char>, st: State|
        #![trigger p.run(s, st), combined::movq_families(s)]
        st.wf() ==> (combined::movq_families(s) matches Some((a, b)) ==> types::gp(a) && types::gp(
            b,
        ) && types::kind_of(s) == (LineKind::Other { dest_reg: b }) ==> p.run(s, st) == st.with(
            b,
            st.regs[a as int],
        ))
    &&& forall|s: Seq<char>, st: State|
        #![trigger p.run(s, st)]
        st.wf() ==> (ends_in_rax(s) ==> left_by(types::ext_of(s), p.run(s, st).regs[0])) && (
        extends(types::ext_of(s)) ==> p.run(s, st) == st.with(
            0,
            extended(types::ext_of(s), st.regs[0]),
        )) && (s == "xorl %eax, %eax"@ ==> p.run(s, st).regs == st.regs.update(0, 0) && p.run(
            s,
            st,
        ).rest == st.rest)
    &&& narrows(p)
}

/// A processor that does with 32 bits what it should.
#[verifier::opaque]
pub open spec fn narrows(p: Processor) -> bool {
    &&& forall|s: Seq<char>, st: State|
        #![trigger p.run(s, st), narrow::operand_families(s, "movslq "@)]
        st.wf() ==> (narrow::operand_families(s, "movslq "@) matches Some((a, b)) ==> types::gp(a)
            && types::gp(b) && helpers::dest_of(types::kind_of(s)) == b ==> p.run(s, st) == st.with(
            b,
            sext32(st.regs[a as int]),
        ))
    &&& forall|a: RegId, b: RegId, st: State|
        a < 16 && b < 16 && st.wf() ==> #[trigger] p.run(movl_text(a, b), st) == st.with(
            b,
            low32(st.regs[a as int]),
        )
    &&& forall|s: Seq<char>, st: State, r: RegId|
        #![trigger p.run(s, st), helpers::movable(r)]
        st.wf() && helpers::movable(r) && helpers::dest_of(types::kind_of(s)) == r
            && !helpers::implicit_use(s) ==> (liveness::is_write32(s) ==> p.run(
            s,
            st,
        ).regs[r as int] <= 0xFFFF_FFFF) && (liveness::is_write31(s) ==> p.run(
            s,
            st,
        ).regs[r as int] <= 0x7FFF_FFFF)
    &&& forall|s: Seq<char>, st: State|
        #![trigger p.run(s, st), narrow::tested_reg(s)]
        st.wf() ==> (narrow::tested_reg(s) matches Some(r) ==> p.run(s, st) == st.with_flags(
            flags_of(st.regs[r as int], true),
        ))
    &&& forall|r: RegId, st: State|
        r < 16 && st.wf() ==> #[trigger] p.run(testl_text(r), st) == st.with_flags(
            flags_of(low32(st.regs[r as int]), false),
        )
}

proof fn lemma_sensible(p: Processor)
    requires
        computes(p),
    ensures
        machine::sensible(p),
{
    reveal(computes);
}

pub proof fn lemma_wf(p: Processor, s: Seq<char>, st: State)
    requires
        computes(p),
        st.wf(),
    ensures
        p.run(s, st).wf(),
{
    lemma_sensible(p);
    machine::lemma_run_wf(p, s, st);
}

proof fn lemma_spared(p: Processor, s: Seq<char>, r: RegId, st: State)
    requires
        computes(p),
        spared(types::kind_of(s), r),
        helpers::movable(r),
        st.wf(),
    ensures
        p.run(s, st).regs[r as int] == st.regs[r as int],
{
    reveal(computes);
    assert(p.run(s, st) == p.run(s, st));
}

pub proof fn lemma_left(p: Processor, s: Seq<char>, st: State)
    requires
        computes(p),
        st.wf(),
    ensures
        ends_in_rax(s) ==> left_by(types::ext_of(s), p.run(s, st).regs[0]),
        extends(types::ext_of(s)) ==> p.run(s, st) == st.with(
            0,
            extended(types::ext_of(s), st.regs[0]),
        ),
        s == "xorl %eax, %eax"@ ==> p.run(s, st).regs == st.regs.update(0, 0) && p.run(s, st).rest
            == st.rest,
{
    reveal(computes);
    assert(p.run(s, st) == p.run(s, st));
}

proof fn lemma_moved(p: Processor, s: Seq<char>, a: RegId, b: RegId, st: State)
    requires
        computes(p),
        combined::movq_families(s) == Some((a, b)),
        types::gp(a),
        types::gp(b),
        types::kind_of(s) == (LineKind::Other { dest_reg: b }),
        st.wf(),
    ensures
        p.run(s, st) == st.with(b, st.regs[a as int]),
{
    reveal(computes);
    assert(p.run(s, st) == p.run(s, st));
}

/// The last operand is another register, and nothing is used implicitly.
proof fn lemma_not_written(p: Processor, s: Seq<char>, r: RegId, st: State)
    requires
        computes(p),
        machine::straight(s),
        helpers::movable(r),
        helpers::dest_of(types::kind_of(s)) != r,
        !helpers::implicit_reg(s, r),
        st.wf(),
    ensures
        p.run(s, st).regs[r as int] == st.regs[r as int],
{
    lemma_sensible(p);
    reveal(machine::not_written);
    machine::lemma_run_keeps(p, s, r, st);
}

/// The last operand is not `%rax`, and it is not written otherwise.
proof fn lemma_rax_spared(p: Processor, s: Seq<char>, st: State)
    requires
        computes(p),
        types::kind_of(s) is Other,
        helpers::dest_of(types::kind_of(s)) != 0,
        !helpers::writes_rax(s),
        st.wf(),
    ensures
        p.run(s, st).regs[0] == st.regs[0],
{
    lemma_sensible(p);
    reveal(machine::straight);
    reveal(machine::spares_rax);
    machine::lemma_run_keeps_rax(p, s, st);
}

// ── Moves to itself and back ────────────────────────────────────────────────

/// A move of a register to itself does nothing.
pub proof fn law_self_move_does_nothing(p: Processor, c: Code, i: int, st: State)
    requires
        computes(p),
        c.faithful(),
        0 <= i < c.len(),
        c.kind(i) is SelfMove,
        st.wf(),
    ensures
        combined::local_at(c, i) == Some(c.remove(i)),
        p.run(c.body(i), st) == st,
{
    reveal(computes);
    types::lemma_faithful_line(c, i);
}

proof fn lemma_stores_keep(p: Processor, c: Code, k: int, end: int, st: State)
    requires
        computes(p),
        c.faithful(),
        0 <= k,
        k <= combined::past_stores(c, k, end),
        end <= c.len(),
        st.wf(),
    ensures
        machine::after_code(p, c, k, combined::past_stores(c, k, end), st).wf(),
        forall|r: RegId|
            #![trigger helpers::movable(r)]
            helpers::movable(r) ==> machine::after_code(
                p,
                c,
                k,
                combined::past_stores(c, k, end),
                st,
            ).regs[r as int] == st.regs[r as int],
    decreases end - k,
{
    let j = combined::past_stores(c, k, end);
    if k < end && (c.nop(k) || c.kind(k) is StoreRbp) {
        laws::lemma_past_stores(c, k + 1, end);
        if c.nop(k) {
            lemma_stores_keep(p, c, k + 1, end, st);
        } else {
            types::lemma_faithful_line(c, k);
            let next = p.run(c.body(k), st);
            lemma_wf(p, c.body(k), st);
            lemma_stores_keep(p, c, k + 1, end, next);
            assert forall|r: RegId|
                #![trigger helpers::movable(r)]
                helpers::movable(r) implies machine::after_code(p, c, k, j, st).regs[r as int]
                == st.regs[r as int] by {
                lemma_spared(p, c.body(k), r, st);
            }
        }
    }
}

/// A move back, with only stores to the stack since the move, does nothing.
pub proof fn law_move_back_does_nothing(p: Processor, c: Code, i: int, st: State)
    requires
        computes(p),
        c.faithful(),
        0 <= i < c.len(),
        !c.nop(i),
        combined::reverse_move(c, i) is Some,
        ({
            let (a, b) = combined::movq_families(c.body(i))->0;
            c.kind(i)->dest_reg == b && helpers::movable(a) && helpers::movable(b)
        }),
        st.wf(),
    ensures
        ({
            let j = combined::reverse_move(c, i)->0;
            let before = machine::after_code(p, c, i, j, st);
            p.run(c.body(j), before) == before
        }),
{
    let (a, b) = combined::movq_families(c.body(i))->0;
    let end = combined::least(i + 8, c.len());
    let j = combined::reverse_move(c, i)->0;
    laws::lemma_past_stores(c, i + 1, end);
    types::lemma_faithful_line(c, i);
    types::lemma_faithful_line(c, j);
    let mid = p.run(c.body(i), st);
    lemma_moved(p, c.body(i), a, b, st);
    lemma_stores_keep(p, c, i + 1, end, mid);
    let before = machine::after_code(p, c, i, j, st);
    assert(before == machine::after_code(p, c, i + 1, j, mid));
    lemma_moved(p, c.body(j), b, a, before);
    assert(helpers::movable(a) && helpers::movable(b));
    assert(before.regs[a as int] == before.regs[b as int]);
    assert(before.with(a, before.regs[b as int]) =~= before);
}

/// A load of what was just stored, into the register it came from, does nothing. A load
/// of 32 bits, which clears the upper half of the register, is left out.
pub proof fn law_reload_does_nothing(p: Processor, c: Code, i: int, st: State)
    requires
        computes(p),
        c.faithful(),
        0 <= i < c.len(),
        combined::reloads(c, i),
        !(c.kind(i)->StoreRbp_size is L),
        st.wf(),
    ensures
        p.run(c.body(i + 1), p.run(c.body(i), st)) == p.run(c.body(i), st),
{
    reveal(computes);
    types::lemma_faithful_line(c, i);
    types::lemma_faithful_line(c, i + 1);
    assert(loads_back(types::kind_of(c.body(i)), types::kind_of(c.body(i + 1))));
}

// ── Jumps ───────────────────────────────────────────────────────────────────

proof fn lemma_code_from(c: Code, k: int)
    requires
        0 <= k,
    ensures
        k <= helpers::code_from(c, k),
        forall|m: int|
            k <= m < helpers::code_from(c, k) ==> c.nop(m) || #[trigger] c.kind(m) is Empty,
    decreases c.len() - k,
{
    if k < c.len() && (c.nop(k) || c.kind(k) is Empty) {
        lemma_code_from(c, k + 1);
    }
}

proof fn lemma_first_label(c: Code, name: Seq<char>, m: int, k: int)
    requires
        0 <= m <= k < c.len(),
        c.kind(k) is Label,
        name.len() > 0,
        c.body(k) == name + ":"@,
        forall|n: int| m <= n < k && #[trigger] c.kind(n) is Label ==> c.body(n) != name + ":"@,
    ensures
        liveness::label_pos_from(c, name, m) == Some(c.live_from(k + 1)),
    decreases k - m,
{
    if m < k {
        assert(c.kind(m) is Label ==> c.body(m) != name + ":"@);
        lemma_first_label(c, name, m + 1, k);
    }
}

/// A jump to the label that follows leads where the code goes on without it: only removed
/// and empty lines lie between. The label is the first of its name.
pub proof fn law_jump_to_next_leads_on(c: Code, i: int)
    requires
        0 <= i < c.len(),
        combined::jumps_to_next(c, i),
        helpers::jump_target(c.body(i)) == combined::jmp_target(c, i),
        ({
            let name = combined::jmp_target(c, i)->0;
            let k = helpers::code_from(c, i + 1);
            &&& name.len() > 0
            &&& forall|n: int|
                0 <= n < k && #[trigger] c.kind(n) is Label ==> c.body(n) != name + ":"@
        }),
    ensures
        ({
            let k = helpers::code_from(c, i + 1);
            &&& i < k < c.len() && c.kind(k) is Label
            &&& liveness::jump_line(c, c.body(i)) == Some(c.live_from(k + 1))
            &&& forall|m: int| i < m < k ==> c.nop(m) || #[trigger] c.kind(m) is Empty
        }),
{
    let k = helpers::code_from(c, i + 1);
    let name = combined::jmp_target(c, i)->0;
    lemma_code_from(c, i + 1);
    lemma_before(c.body(k), ":"@);
    lemma_first_label(c, name, 0, k);
}

proof fn lemma_before(s: Seq<char>, end: Seq<char>)
    ensures
        text::before(s, end) matches Some(x) ==> s == x + end,
{
    if let Some(x) = text::before(s, end) {
        assert(s =~= x + end);
    }
}

/// The inverted jump in place of a conditional jump over a jump is taken exactly where the
/// conditional jump is not: so the code goes to the target of the jump where it did, and
/// else to the label that follows, which was the target of the conditional jump.
pub proof fn law_inverted_jump_leads_alike(c: Code, i: int, f: Flags)
    requires
        combined::inversion(c, i) is Some,
        helpers::condition(combined::cond_jump(c, i)->Some_0.0, f) is Some,
    ensures
        ({
            let (j, line) = combined::inversion(c, i)->0;
            let (cc, over) = combined::cond_jump(c, i)->0;
            let target = combined::jmp_target(c, j)->0;
            &&& line == "    j"@ + helpers::inverted(cc) + " "@ + target
            &&& helpers::condition(helpers::inverted(cc), f) == Some(
                !helpers::condition(cc, f)->0,
            )
            &&& combined::label_follows(c, j + 1, over)
        }),
{
    helpers::law_inverted_condition_is_the_opposite(combined::cond_jump(c, i)->Some_0.0, f);
}

// ── Extensions ──────────────────────────────────────────────────────────────

proof fn lemma_spares(p: Processor, c: Code, k: int, st: State)
    requires
        computes(p),
        c.faithful(),
        0 <= k < c.len(),
        !c.nop(k),
        combined::spares_rax(c, k) || !combined::may_write_rax(c, k),
        st.wf(),
    ensures
        p.run(c.body(k), st).regs[0] == st.regs[0],
        p.run(c.body(k), st).wf(),
{
    types::lemma_faithful_line(c, k);
    lemma_wf(p, c.body(k), st);
    if c.kind(k) is Other {
        lemma_rax_spared(p, c.body(k), st);
    } else {
        lemma_spared(p, c.body(k), 0, st);
    }
}

proof fn lemma_spares_all(p: Processor, c: Code, k: int, end: int, st: State)
    requires
        computes(p),
        c.faithful(),
        0 <= k,
        end <= c.len(),
        forall|m: int| k <= m < end && !c.nop(m) ==> #[trigger] combined::spares_rax(c, m),
        st.wf(),
    ensures
        machine::after_code(p, c, k, end, st).regs[0] == st.regs[0],
        machine::after_code(p, c, k, end, st).wf(),
    decreases end - k,
{
    if k < end {
        if c.nop(k) {
            lemma_spares_all(p, c, k + 1, end, st);
        } else {
            assert(combined::spares_rax(c, k));
            lemma_spares(p, c, k, st);
            lemma_spares_all(p, c, k + 1, end, p.run(c.body(k), st));
        }
    }
}

proof fn lemma_past_spares(c: Code, k: int, end: int)
    ensures
        k <= combined::past_spares(c, k, end),
        k <= end ==> combined::past_spares(c, k, end) <= end,
        forall|m: int|
            k <= m < combined::past_spares(c, k, end) ==> #[trigger] combined::spares_rax(c, m),
    decreases end - k,
{
    if k < end && combined::spares_rax(c, k) {
        lemma_past_spares(c, k + 1, end);
    }
}

/// Line `q` leaves a sign-extended value in `%rax`, and the lines after it up to `k` leave
/// it alone.
pub open spec fn extended_at(c: Code, q: int, k: int) -> bool {
    &&& 0 <= q <= k
    &&& !c.nop(q)
    &&& combined::sign_extends(c.infos[q].ext_kind)
    &&& forall|m: int| q < m <= k && !c.nop(m) ==> #[trigger] combined::spares_rax(c, m)
}

proof fn lemma_extended_before(c: Code, k: int, end: int)
    requires
        combined::extended_before(c, k, end),
    ensures
        exists|q: int| #[trigger] extended_at(c, q, k),
    decreases k + 1 - end,
{
    if !c.nop(k) && !(c.kind(k) is StoreRbp) && combined::sign_extends(c.infos[k].ext_kind) {
        assert(extended_at(c, k, k));
    } else {
        lemma_extended_before(c, k - 1, end);
        let q = choose|q: int| #[trigger] extended_at(c, q, k - 1);
        assert(combined::spares_rax(c, k));
        assert(extended_at(c, q, k));
    }
}

/// Line `j` does nothing, whatever the state was before line `q`.
pub open spec fn idle_after(p: Processor, c: Code, q: int, j: int) -> bool {
    forall|st: State|
        #![trigger machine::after_code(p, c, q, j, st)]
        st.wf() ==> p.run(c.body(j), machine::after_code(p, c, q, j, st)) == machine::after_code(
            p,
            c,
            q,
            j,
            st,
        )
}

/// The greatest value of 31 bits, or of 32.
pub open spec fn most_of(positive: bool) -> u64 {
    if positive {
        0x7FFF_FFFF
    } else {
        0xFFFF_FFFF
    }
}

/// Before line `i` the register holds `most` or less, whatever the state was before line
/// `q`.
pub open spec fn small_after(p: Processor, c: Code, q: int, i: int, reg: RegId, most: u64) -> bool {
    forall|st: State|
        #![trigger machine::after_code(p, c, q, i, st)]
        st.wf() ==> machine::after_code(p, c, q, i, st).wf() && machine::after_code(
            p,
            c,
            q,
            i,
            st,
        ).regs[reg as int] <= most
}

/// An extension that is found redundant does nothing: it extends what line `i` left in
/// `%rax`, or what a line before that did, and is extended already. The lines that play a
/// part in this are well-formed: what ends in `%rax` has it as an operand.
pub proof fn law_redundant_extension_does_nothing(p: Processor, c: Code, i: int)
    requires
        computes(p),
        c.faithful(),
        0 <= i < c.len(),
        !c.nop(i),
        combined::redundant_ext(c, i) is Some,
        forall|m: int|
            0 <= m <= i && !c.nop(m) && !(c.infos[m].ext_kind is Plain) ==> ends_in_rax(
                #[trigger] c.body(m),
            ),
    ensures
        ({
            let j = combined::redundant_ext(c, i)->0;
            exists|q: int| 0 <= q <= i && #[trigger] idle_after(p, c, q, j)
        }),
{
    let j = combined::redundant_ext(c, i)->0;
    let end = combined::least(i + 10, c.len());
    lemma_past_spares(c, i + 1, end);
    types::lemma_faithful_line(c, i);
    types::lemma_faithful_line(c, j);
    let prev = c.infos[i].ext_kind;
    let next = c.infos[j].ext_kind;
    if combined::extended_already(prev, next) {
        assert forall|st: State|
            #![trigger machine::after_code(p, c, i, j, st)]
            st.wf() implies p.run(c.body(j), machine::after_code(p, c, i, j, st))
            == machine::after_code(p, c, i, j, st) by {
            let mid = p.run(c.body(i), st);
            lemma_wf(p, c.body(i), st);
            lemma_left(p, c.body(i), st);
            lemma_spares_all(p, c, i + 1, j, mid);
            let at = machine::after_code(p, c, i, j, st);
            assert(at == machine::after_code(p, c, i + 1, j, mid));
            lemma_extended_already(prev, next, at.regs[0]);
            lemma_left(p, c.body(j), at);
            assert(at.with(0, at.regs[0]) =~= at);
        }
        assert(idle_after(p, c, i, j));
    } else {
        lemma_extended_before(c, i - 1, i - 6);
        let q = choose|q: int| #[trigger] extended_at(c, q, i - 1);
        types::lemma_faithful_line(c, q);
        assert forall|st: State|
            #![trigger machine::after_code(p, c, q, j, st)]
            st.wf() implies p.run(c.body(j), machine::after_code(p, c, q, j, st))
            == machine::after_code(p, c, q, j, st) by {
            let mid = p.run(c.body(q), st);
            lemma_wf(p, c.body(q), st);
            lemma_left(p, c.body(q), st);
            lemma_spares_all(p, c, q + 1, i, mid);
            let before = machine::after_code(p, c, q + 1, i, mid);
            lemma_spares(p, c, i, before);
            let after = p.run(c.body(i), before);
            lemma_spares_all(p, c, i + 1, j, after);
            let at = machine::after_code(p, c, q, j, st);
            machine::lemma_after_split(p, c, q + 1, i, j, mid);
            assert(at == machine::after_code(p, c, i + 1, j, after));
            lemma_left(p, c.body(j), at);
            assert(extended(next, at.regs[0]) == at.regs[0]);
            assert(at.with(0, at.regs[0]) =~= at);
        }
        assert(idle_after(p, c, q, j));
    }
}

/// What is tracked of `%rax` holds: where it is known to be zero, it is.
pub proof fn law_zero_is_tracked(p: Processor, c: Code, i: int, zero: bool, st: State)
    requires
        computes(p),
        c.faithful(),
        0 <= i < c.len(),
        !c.nop(i),
        st.wf(),
        zero ==> st.regs[0] == 0,
        combined::zero_after(c, i, zero),
    ensures
        p.run(c.body(i), st).regs[0] == 0,
{
    types::lemma_faithful_line(c, i);
    lemma_left(p, c.body(i), st);
    if c.kind(i) is Other {
        if c.kind(i)->dest_reg != 0 {
            lemma_rax_spared(p, c.body(i), st);
        }
    } else {
        lemma_spared(p, c.body(i), 0, st);
    }
}

/// Zeroing `%rax` where it is zero already changes neither registers nor memory.
pub proof fn law_zeroing_zero_keeps_registers(p: Processor, c: Code, i: int, st: State)
    requires
        computes(p),
        combined::zeroes_rax(c, i),
        st.wf(),
        st.regs[0] == 0,
    ensures
        p.run(c.body(i), st).regs == st.regs,
        p.run(c.body(i), st).rest == st.rest,
{
    lemma_left(p, c.body(i), st);
    assert(st.regs.update(0, 0) =~= st.regs);
}

// ── Narrowing ───────────────────────────────────────────────────────────────

proof fn lemma_leaves_all(p: Processor, c: Code, k: int, end: int, reg: RegId, st: State)
    requires
        computes(p),
        c.faithful(),
        0 <= k,
        end <= c.len(),
        helpers::movable(reg),
        forall|m: int| k <= m < end ==> #[trigger] paths::leaves_value(c, m, reg),
        st.wf(),
    ensures
        machine::after_code(p, c, k, end, st).regs[reg as int] == st.regs[reg as int],
        machine::after_code(p, c, k, end, st).wf(),
    decreases end - k,
{
    if k < end {
        assert(paths::leaves_value(c, k, reg));
        if c.nop(k) {
            lemma_leaves_all(p, c, k + 1, end, reg, st);
        } else {
            types::lemma_faithful_line(c, k);
            lemma_wf(p, c.body(k), st);
            if c.kind(k) is StoreRbp {
                lemma_spared(p, c.body(k), reg, st);
            } else {
                assert(machine::straight(c.body(k))) by {
                    reveal(machine::straight);
                }
                lemma_not_written(p, c.body(k), reg, st);
            }
            lemma_leaves_all(p, c, k + 1, end, reg, p.run(c.body(k), st));
        }
    }
}

/// A value that is known to have 32 bits, or 31, has no more, whatever the code before the
/// instruction that made it did.
pub proof fn law_known_value_is_small(
    p: Processor,
    c: Code,
    i: int,
    left: int,
    reg: RegId,
    positive: bool,
)
    requires
        computes(p),
        c.faithful(),
        0 <= i <= c.len(),
        helpers::movable(reg),
        liveness::known_value(c, i - 1, left, reg, positive),
    ensures
        exists|q: int|
            0 <= q < i && #[trigger] small_after(p, c, q, i, reg, most_of(positive)),
{
    let most = most_of(positive);
    paths::law_known_32bit_value_was_made(c, i - 1, left, reg, positive);
    let q = choose|q: int|
        0 <= q <= i - 1 && #[trigger] paths::makes_value(c, q, reg, positive) && forall|n: int|
            q < n <= i - 1 ==> #[trigger] paths::leaves_value(c, n, reg);
    types::lemma_faithful_line(c, q);
    assert forall|st: State|
        #![trigger machine::after_code(p, c, q, i, st)]
        st.wf() implies machine::after_code(p, c, q, i, st).wf() && machine::after_code(
        p,
        c,
        q,
        i,
        st,
    ).regs[reg as int] <= most by {
        let made = p.run(c.body(q), st);
        lemma_wf(p, c.body(q), st);
        lemma_made(p, c.body(q), reg, st);
        lemma_leaves_all(p, c, q + 1, i, reg, made);
    }
    assert(small_after(p, c, q, i, reg, most));
}

proof fn lemma_made(p: Processor, s: Seq<char>, r: RegId, st: State)
    requires
        computes(p),
        st.wf(),
        helpers::movable(r),
        helpers::dest_of(types::kind_of(s)) == r,
        !helpers::implicit_use(s),
    ensures
        liveness::is_write32(s) ==> p.run(s, st).regs[r as int] <= 0xFFFF_FFFF,
        liveness::is_write31(s) ==> p.run(s, st).regs[r as int] <= 0x7FFF_FFFF,
{
    reveal(computes);
    reveal(narrows);
    assert(p.run(s, st) == p.run(s, st));
}

/// The sign extension of a value of 31 bits is its zero extension, and does nothing in
/// place.
pub proof fn law_narrowed_extension_keeps_state(
    p: Processor,
    s: Seq<char>,
    src: RegId,
    dst: RegId,
    st: State,
)
    requires
        computes(p),
        narrow::operand_families(s, "movslq "@) == Some((src, dst)),
        types::gp(src),
        types::gp(dst),
        helpers::dest_of(types::kind_of(s)) == dst,
        st.wf(),
        st.regs[src as int] <= 0x7FFF_FFFF,
    ensures
        p.run(movl_text(src, dst), st) == p.run(s, st),
        src == dst ==> p.run(s, st) == st,
        narrow::movl_line(src, dst) == "    "@ + movl_text(src, dst),
{
    reveal(computes);
    reveal(narrows);
    lemma_small(st.regs[src as int]);
    assert(p.run(s, st) == st.with(dst, sext32(st.regs[src as int])));
    assert(p.run(movl_text(src, dst), st) == st.with(dst, low32(st.regs[src as int])));
    if src == dst {
        assert(st.with(dst, st.regs[src as int]) =~= st);
    }
    reveal_strlit("    movl ");
    reveal_strlit("    ");
    reveal_strlit("movl ");
    assert(narrow::movl_line(src, dst) =~= "    "@ + movl_text(src, dst));
}

/// Whatever the state was before line `q`, at line `i` the extension of `src` to `dst` does
/// what its narrow form does, and does nothing in place.
pub open spec fn extends_alike(
    p: Processor,
    c: Code,
    q: int,
    i: int,
    src: RegId,
    dst: RegId,
) -> bool {
    forall|st: State|
        #![trigger machine::after_code(p, c, q, i, st)]
        st.wf() ==> {
            let at = machine::after_code(p, c, q, i, st);
            &&& p.run(movl_text(src, dst), at) == p.run(c.body(i), at)
            &&& src == dst ==> p.run(c.body(i), at) == at
        }
}

/// Where a sign extension is narrowed or removed, the code from the instruction on that
/// made the value does the same.
pub proof fn law_narrowed_extension_at_keeps_state(p: Processor, c: Code, i: int)
    requires
        computes(p),
        c.faithful(),
        0 <= i < c.len(),
        !c.nop(i),
        narrow::narrow_extension_at(c, i) is Some,
        ({
            let (src, dst) = narrow::operand_families(c.body(i), "movslq "@)->0;
            helpers::movable(src) && c.kind(i)->dest_reg == dst
        }),
    ensures
        ({
            let (src, dst) = narrow::operand_families(c.body(i), "movslq "@)->0;
            exists|q: int| 0 <= q < i && #[trigger] extends_alike(p, c, q, i, src, dst)
        }),
{
    let (src, dst) = narrow::operand_families(c.body(i), "movslq "@)->0;
    types::lemma_faithful_line(c, i);
    law_known_value_is_small(p, c, i, 12, src, true);
    let q = choose|q: int|
        0 <= q < i && #[trigger] small_after(p, c, q, i, src, most_of(true));
    assert forall|st: State|
        #![trigger machine::after_code(p, c, q, i, st)]
        st.wf() implies ({
        let at = machine::after_code(p, c, q, i, st);
        &&& p.run(movl_text(src, dst), at) == p.run(c.body(i), at)
        &&& src == dst ==> p.run(c.body(i), at) == at
    }) by {
        law_narrowed_extension_keeps_state(
            p,
            c.body(i),
            src,
            dst,
            machine::after_code(p, c, q, i, st),
        );
    }
    assert(extends_alike(p, c, q, i, src, dst));
}

/// A test of a value of 32 bits and its narrow form leave the same state but for the sign
/// flag, and the same state if the value has 31 bits.
pub proof fn law_narrowed_test_keeps_state(p: Processor, s: Seq<char>, reg: RegId, st: State)
    requires
        computes(p),
        narrow::tested_reg(s) == Some(reg),
        st.wf(),
        st.regs[reg as int] <= 0xFFFF_FFFF,
    ensures
        ({
            let old = p.run(s, st);
            let new = p.run(testl_text(reg), st);
            &&& new.regs == old.regs && new.rest == old.rest
            &&& new.flags == (Flags { sign: new.flags.sign, ..old.flags })
            &&& st.regs[reg as int] <= 0x7FFF_FFFF ==> new == old
        }),
{
    reveal(computes);
    reveal(narrows);
    lemma_small(st.regs[reg as int]);
    assert(p.run(s, st) == st.with_flags(flags_of(st.regs[reg as int], true)));
    assert(p.run(testl_text(reg), st) == st.with_flags(
        flags_of(low32(st.regs[reg as int]), false),
    ));
}

} // verus!
