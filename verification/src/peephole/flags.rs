//! Masks and the tests of what they leave: a test that is found redundant sets the flags
//! as they are, and a mask that is only tested can be a test itself.

use vstd::prelude::*;

use super::compare_branch;
use super::compare_branch::{Copies, Mask};
use super::equivalence;
use super::helpers;
use super::helpers::{Flags, Targets};
use super::liveness;
use super::machine;
use super::machine::{Processor, State};
use super::redirects;
use super::sweep;
use super::text;
use super::types;
use super::types::{Code, RegId};
use super::values;

verus! {

// ── What is asked of a processor ────────────────────────────────────────────

/// What a mask leaves of a value.
pub open spec fn masked(n: int, wide: bool, v: u64) -> u64 {
    if wide {
        equivalence::wrap(n) & v
    } else {
        values::low32(equivalence::wrap(n)) & values::low32(v)
    }
}

/// `test $imm, %reg`, of 64 or of 32 bits.
pub open spec fn test_text(imm: Seq<char>, reg: RegId, wide: bool) -> Seq<char> {
    (if wide {
        "testq $"@
    } else {
        "testl $"@
    }) + imm + ", "@ + types::reg_text(
        if wide {
            0
        } else {
            1
        },
        reg,
    )
}

/// A processor that masks, tests and moves as it should.
#[verifier::opaque]
pub open spec fn tests(p: Processor) -> bool {
    &&& machine::sensible(p)
    &&& forall|s: Seq<char>, st: State|
        #![trigger p.run(s, st), compare_branch::and_imm(s)]
        st.wf() ==> (compare_branch::and_imm(s) matches Some((imm, reg, wide)) ==> text::integer(
            imm,
        ) is Some && helpers::dest_of(types::kind_of(s)) == reg ==> {
            let v = masked(text::integer(imm)->0, wide, st.regs[reg as int]);
            p.run(s, st) == st.with(reg, v).with_flags(values::flags_of(v, wide))
        })
    &&& forall|s: Seq<char>, st: State|
        #![trigger p.run(s, st), compare_branch::test_self(s)]
        st.wf() ==> (compare_branch::test_self(s) matches Some(reg) ==> p.run(s, st)
            == st.with_flags(
            if "testq "@.is_prefix_of(s) {
                values::flags_of(st.regs[reg as int], true)
            } else {
                values::flags_of(values::low32(st.regs[reg as int]), false)
            },
        ))
    &&& forall|s: Seq<char>, st: State|
        #![trigger p.run(s, st), compare_branch::any_reg_mov(s)]
        st.wf() ==> (compare_branch::any_reg_mov(s) matches Some((a, b)) ==> helpers::dest_of(
            types::kind_of(s),
        ) == b ==> p.run(s, st) == st.with(
            b,
            if "movq "@.is_prefix_of(s) {
                st.regs[a as int]
            } else {
                values::low32(st.regs[a as int])
            },
        ))
    &&& forall|s: Seq<char>, st: State|
        st.wf() && liveness::keeps_flags(s) && machine::straight(s) ==> (#[trigger] p.run(
            s,
            st,
        )).flags == st.flags
    &&& forall|imm: Seq<char>, reg: RegId, wide: bool, st: State|
        st.wf() && reg < 16 && text::integer(imm) is Some ==> #[trigger] p.run(
            test_text(imm, reg, wide),
            st,
        ) == st.with_flags(
            values::flags_of(masked(text::integer(imm)->0, wide, st.regs[reg as int]), wide),
        )
}

proof fn lemma_sensible(p: Processor)
    requires
        tests(p),
    ensures
        machine::sensible(p),
{
    reveal(tests);
}

proof fn lemma_and(p: Processor, s: Seq<char>, st: State)
    requires
        tests(p),
        st.wf(),
        compare_branch::and_imm(s) is Some,
        text::integer(compare_branch::and_imm(s)->Some_0.0) is Some,
        helpers::dest_of(types::kind_of(s)) == compare_branch::and_imm(s)->Some_0.1,
    ensures
        ({
            let (imm, reg, wide) = compare_branch::and_imm(s)->0;
            let v = masked(text::integer(imm)->0, wide, st.regs[reg as int]);
            p.run(s, st) == st.with(reg, v).with_flags(values::flags_of(v, wide))
        }),
{
    reveal(tests);
    assert(p.run(s, st) == p.run(s, st));
}

proof fn lemma_test(p: Processor, s: Seq<char>, reg: RegId, st: State)
    requires
        tests(p),
        st.wf(),
        compare_branch::test_self(s) == Some(reg),
    ensures
        p.run(s, st) == st.with_flags(
            if "testq "@.is_prefix_of(s) {
                values::flags_of(st.regs[reg as int], true)
            } else {
                values::flags_of(values::low32(st.regs[reg as int]), false)
            },
        ),
{
    reveal(tests);
    assert(p.run(s, st) == p.run(s, st));
}

proof fn lemma_move(p: Processor, s: Seq<char>, a: RegId, b: RegId, st: State)
    requires
        tests(p),
        st.wf(),
        compare_branch::any_reg_mov(s) == Some((a, b)),
        helpers::dest_of(types::kind_of(s)) == b,
    ensures
        p.run(s, st) == st.with(
            b,
            if "movq "@.is_prefix_of(s) {
                st.regs[a as int]
            } else {
                values::low32(st.regs[a as int])
            },
        ),
{
    reveal(tests);
    assert(p.run(s, st) == p.run(s, st));
}

proof fn lemma_keeps_flags(p: Processor, s: Seq<char>, st: State)
    requires
        tests(p),
        st.wf(),
        liveness::keeps_flags(s),
        machine::straight(s),
    ensures
        p.run(s, st).flags == st.flags,
        p.run(s, st).wf(),
{
    reveal(tests);
    machine::lemma_run_wf(p, s, st);
}

// ── Bits ────────────────────────────────────────────────────────────────────

proof fn lemma_bits(regs: u16, d: RegId, r: RegId)
    requires
        d < 16,
        r < 16,
    ensures
        compare_branch::holds(regs | (1u16 << d), r) == (compare_branch::holds(regs, r) || r == d),
        compare_branch::holds(regs & !(1u16 << d), r) == (compare_branch::holds(regs, r) && r != d),
        compare_branch::holds(1u16 << d, r) == (r == d),
{
    let a = d as u16;
    let b = r as u16;
    assert(((regs | (1u16 << a)) & (1u16 << b) != 0) == (regs & (1u16 << b) != 0 || b == a))
        by (bit_vector)
        requires
            a < 16,
            b < 16,
    ;
    assert(((regs & !(1u16 << a)) & (1u16 << b) != 0) == (regs & (1u16 << b) != 0 && b != a))
        by (bit_vector)
        requires
            a < 16,
            b < 16,
    ;
    assert(((1u16 << a) & (1u16 << b) != 0) == (b == a)) by (bit_vector)
        requires
            a < 16,
            b < 16,
    ;
}

// ── The redundant test ──────────────────────────────────────────────────────

/// The result of the mask has no more bits than it can have.
spec fn fits(m: Mask, v: u64) -> bool {
    &&& !m.wide ==> v <= 0xFFFF_FFFF
    &&& m.small ==> v <= 0x7FFF_FFFF
}

/// The registers in `regs` hold the result, of which the flags are.
spec fn result_held(st: State, m: Mask, regs: u16, v: u64) -> bool {
    &&& st.wf()
    &&& st.flags == values::flags_of(v, m.wide)
    &&& forall|r: RegId|
        r < 16 && #[trigger] compare_branch::holds(regs, r) ==> st.regs[r as int] == v
            && helpers::movable(r)
}

/// Lines are written as usual: what a move writes is its last operand.
pub open spec fn usual(s: Seq<char>) -> bool {
    compare_branch::any_reg_mov(s) matches Some((_, d)) ==> helpers::dest_of(types::kind_of(s))
        == d
}

proof fn lemma_copy_step(p: Processor, c: Code, j: int, m: Mask, x: Copies, v: u64, st: State)
    requires
        tests(p),
        c.faithful(),
        0 <= j < c.len(),
        !c.nop(j),
        !c.infos[j].barrier(),
        compare_branch::copies_on(c, j, m, x.regs) is Some,
        usual(c.body(j)),
        fits(m, v),
        result_held(st, m, x.regs, v),
    ensures
        result_held(
            p.run(c.body(j), st),
            m,
            compare_branch::copied(x, j, compare_branch::copies_on(c, j, m, x.regs)->0).regs,
            v,
        ),
{
    let (a, b) = compare_branch::any_reg_mov(c.body(j))->0;
    lemma_move(p, c.body(j), a, b, st);
    assert(compare_branch::holds(x.regs, a));
    let n = v;
    assert(n <= 0xFFFF_FFFF ==> n & 0xFFFF_FFFF == n) by (bit_vector);
    let next = p.run(c.body(j), st);
    assert(next == st.with(b, v));
    assert forall|r: RegId|
        r < 16 && #[trigger] compare_branch::holds(x.regs | (1u16 << b), r) implies next.regs[r as int]
        == v && helpers::movable(r) by {
        lemma_bits(x.regs, b, r);
    }
}

proof fn lemma_pass_step(p: Processor, c: Code, j: int, m: Mask, x: Copies, v: u64, st: State)
    requires
        tests(p),
        c.faithful(),
        0 <= j < c.len(),
        !c.nop(j),
        !c.infos[j].barrier(),
        liveness::keeps_flags(c.body(j)),
        !helpers::implicit_use(c.body(j)),
        result_held(st, m, x.regs, v),
    ensures
        result_held(p.run(c.body(j), st), m, compare_branch::passed(c, j, x).regs, v),
{
    types::lemma_faithful_line(c, j);
    assert(machine::straight(c.body(j))) by {
        reveal(machine::straight);
    }
    lemma_sensible(p);
    lemma_keeps_flags(p, c.body(j), st);
    let next = p.run(c.body(j), st);
    let dest = helpers::dest_of(c.kind(j));
    let regs = compare_branch::without(x.regs, dest);
    assert forall|r: RegId| r < 16 && #[trigger] compare_branch::holds(regs, r) implies next.regs[r as int]
        == v && helpers::movable(r) by {
        if types::gp(dest) {
            lemma_bits(x.regs, dest, r);
        }
        assert(compare_branch::holds(x.regs, r));
        reveal(machine::not_written);
        helpers::lemma_no_implicit_use(c.body(j), r);
        machine::lemma_run_keeps(p, c.body(j), r, st);
    }
}

/// The flags with the sign flag of others.
pub open spec fn with_sign_of(f: Flags, g: Flags) -> Flags {
    Flags { sign: g.sign, ..f }
}

/// The flags that a test leaves of a value.
spec fn tested(s: Seq<char>, v: u64) -> Flags {
    if "testq "@.is_prefix_of(s) {
        values::flags_of(v, true)
    } else {
        values::flags_of(values::low32(v), false)
    }
}

proof fn lemma_same_flags(s: Seq<char>, m: Mask, v: u64)
    requires
        fits(m, v),
    ensures
        compare_branch::tests_alike(s, m) ==> values::flags_of(v, m.wide) == tested(s, v),
        !m.wide ==> tested(s, v) == with_sign_of(values::flags_of(v, m.wide), tested(s, v)),
{
    assert(v <= 0xFFFF_FFFF ==> v & 0xFFFF_FFFF == v) by (bit_vector);
}

proof fn lemma_redundant_test(
    p: Processor,
    c: Code,
    k: int,
    end: int,
    m: Mask,
    x: Copies,
    v: u64,
    st: State,
)
    requires
        tests(p),
        c.faithful(),
        0 <= k,
        end <= c.len(),
        compare_branch::redundant_test(c, k, end, m, x) is Some,
        forall|n: int| k <= n < end && !c.nop(n) ==> usual(#[trigger] c.body(n)),
        fits(m, v),
        result_held(st, m, x.regs, v),
    ensures
        ({
            let j = compare_branch::redundant_test(c, k, end, m, x)->Some_0.0;
            let at = machine::after_code(p, c, k, j, st);
            let next = p.run(c.body(j), at);
            &&& k <= j < end
            &&& compare_branch::test_spared(c, j, m)
            &&& compare_branch::tests_alike(c.body(j), m) ==> next == at
            &&& next == at.with_flags(with_sign_of(at.flags, next.flags))
        }),
    decreases end - k,
{
    let j = compare_branch::redundant_test(c, k, end, m, x)->Some_0.0;
    if c.nop(k) {
        lemma_redundant_test(p, c, k + 1, end, m, x, v, st);
    } else if c.kind(k) is Cmp {
        let reg = compare_branch::test_self(c.body(k))->0;
        lemma_test(p, c.body(k), reg, st);
        assert(compare_branch::holds(x.regs, reg));
        lemma_same_flags(c.body(k), m, v);
    } else {
        assert(usual(c.body(k)));
        match compare_branch::copies_on(c, k, m, x.regs) {
            Some(dst) => {
                lemma_copy_step(p, c, k, m, x, v, st);
                lemma_redundant_test(
                    p,
                    c,
                    k + 1,
                    end,
                    m,
                    compare_branch::copied(x, k, dst),
                    v,
                    p.run(c.body(k), st),
                );
            },
            None => {
                lemma_pass_step(p, c, k, m, x, v, st);
                lemma_redundant_test(
                    p,
                    c,
                    k + 1,
                    end,
                    m,
                    compare_branch::passed(c, k, x),
                    v,
                    p.run(c.body(k), st),
                );
            },
        }
    }
}

/// A result has no more bits than its mask lets through.
proof fn lemma_fits(imm: Seq<char>, wide: bool, v: u64)
    requires
        text::integer(imm) is Some,
    ensures
        fits(
            compare_branch::mask_of(imm, wide),
            masked(text::integer(imm)->0, wide, v),
        ),
{
    let n = text::integer(imm)->0;
    let w = equivalence::wrap(n);
    let l = v;
    assert(w & 0xFFFF_FFFF & (l & 0xFFFF_FFFF) <= 0xFFFF_FFFF) by (bit_vector);
    assert(w <= 0x7FFF_FFFF ==> w & l <= 0x7FFF_FFFF && w & 0xFFFF_FFFF & (l & 0xFFFF_FFFF)
        <= 0x7FFF_FFFF) by (bit_vector);
    if 0 <= n <= 0x7FFF_FFFF {
        assert(w == n);
    }
}

/// The line of the test that is dropped, up to which line `i` masks.
pub open spec fn scan_end(c: Code, i: int) -> int {
    if i + 6 < c.len() {
        i + 6
    } else {
        c.len()
    }
}

/// Where a test behind a mask is dropped, it would have changed nothing: registers, flags
/// and memory are as they were. So the jump behind it goes where it went. Only the sign
/// flag may differ, if that jump depends on the zero flag alone and no other jump follows.
pub proof fn law_dropped_test_changes_nothing(p: Processor, c: Code, i: int, st: State)
    requires
        tests(p),
        c.faithful(),
        0 <= i < c.len(),
        !c.nop(i),
        st.wf(),
        compare_branch::and_imm(c.body(i)) is Some,
        ({
            let (imm, reg, wide) = compare_branch::and_imm(c.body(i))->0;
            &&& text::integer(imm) is Some
            &&& helpers::movable(reg) && helpers::dest_of(types::kind_of(c.body(i))) == reg
            &&& compare_branch::redundant_test(
                c,
                i + 1,
                scan_end(c, i),
                compare_branch::mask_of(imm, wide),
                compare_branch::fresh_result(reg),
            ) is Some
        }),
        forall|n: int| i < n < scan_end(c, i) && !c.nop(n) ==> usual(#[trigger] c.body(n)),
    ensures
        ({
            let (imm, reg, wide) = compare_branch::and_imm(c.body(i))->0;
            let j = compare_branch::redundant_test(
                c,
                i + 1,
                scan_end(c, i),
                compare_branch::mask_of(imm, wide),
                compare_branch::fresh_result(reg),
            )->Some_0.0;
            let at = machine::after_code(p, c, i, j, st);
            let next = p.run(c.body(j), at);
            ||| next == at
            ||| next == at.with_flags(with_sign_of(at.flags, next.flags))
                && compare_branch::zero_asked(c, j)
        }),
{
    let (imm, reg, wide) = compare_branch::and_imm(c.body(i))->0;
    let m = compare_branch::mask_of(imm, wide);
    let v = masked(text::integer(imm)->0, wide, st.regs[reg as int]);
    lemma_and(p, c.body(i), st);
    lemma_fits(imm, wide, st.regs[reg as int]);
    let next = p.run(c.body(i), st);
    let x = compare_branch::fresh_result(reg);
    assert forall|r: RegId| r < 16 && #[trigger] compare_branch::holds(x.regs, r) implies next.regs[r as int]
        == v && helpers::movable(r) by {
        lemma_bits(0, reg, r);
    }
    assert(result_held(next, m, x.regs, v));
    lemma_redundant_test(p, c, i + 1, scan_end(c, i), m, x, v, next);
}

// ── The mask as a test ──────────────────────────────────────────────────────

/// The states are the same but for the registers in `regs`.
pub open spec fn agree_outside(a: State, b: State, regs: u16) -> bool {
    &&& a.wf() && b.wf()
    &&& a.flags == b.flags && a.rest == b.rest
    &&& forall|r: RegId|
        r < 16 && !(#[trigger] compare_branch::holds(regs, r)) ==> a.regs[r as int]
            == b.regs[r as int]
}

/// The registers of `b` up to the `n`th, and those of `a` from there on.
spec fn mixed(a: State, b: State, n: nat) -> State {
    State {
        regs: Seq::new(
            16,
            |r: int|
                if r < n {
                    b.regs[r]
                } else {
                    a.regs[r]
                },
        ),
        ..a
    }
}

proof fn lemma_ignores_all(
    p: Processor,
    s: Seq<char>,
    regs: u16,
    a: State,
    b: State,
    n: nat,
)
    requires
        machine::sensible(p),
        n <= 16,
        agree_outside(a, b, regs),
        forall|r: RegId|
            r < 16 && #[trigger] compare_branch::holds(regs, r) ==> machine::untouched(s, r),
    ensures
        agree_outside(p.run(s, a), p.run(s, mixed(a, b, n)), regs),
    decreases n,
{
    if n == 0 {
        assert(mixed(a, b, 0) =~= a) by {
            assert(mixed(a, b, 0).regs =~= a.regs);
        }
        machine::lemma_run_wf(p, s, a);
    } else {
        let r = (n - 1) as RegId;
        lemma_ignores_all(p, s, regs, a, b, (n - 1) as nat);
        let x = mixed(a, b, (n - 1) as nat);
        let y = mixed(a, b, n);
        assert(y =~= x.with(r, b.regs[r as int])) by {
            assert(y.regs =~= x.with(r, b.regs[r as int]).regs);
        }
        if compare_branch::holds(regs, r) {
            machine::lemma_run_ignores(p, s, r, x, b.regs[r as int]);
            let u = p.run(s, x);
            let w = p.run(s, y);
            assert(w == u.with(r, b.regs[r as int]));
            assert forall|q: RegId| q < 16 && !(#[trigger] compare_branch::holds(regs, q)) implies p.run(
                s,
                a,
            ).regs[q as int] == w.regs[q as int] by {
                assert(q != r);
                assert(u.regs[q as int] == w.regs[q as int]);
            }
        } else {
            assert(y =~= x) by {
                assert(y.regs =~= x.regs);
            }
        }
    }
}

proof fn lemma_run_outside(p: Processor, s: Seq<char>, regs: u16, a: State, b: State)
    requires
        machine::sensible(p),
        agree_outside(a, b, regs),
        forall|r: RegId|
            r < 16 && #[trigger] compare_branch::holds(regs, r) ==> machine::untouched(s, r),
    ensures
        agree_outside(p.run(s, a), p.run(s, b), regs),
{
    lemma_ignores_all(p, s, regs, a, b, 16);
    assert(mixed(a, b, 16) =~= b) by {
        assert(mixed(a, b, 16).regs =~= b.regs);
    }
}

/// Line `n` of `d` is that of `c`, unless it is one of the moves, which are removed.
spec fn moves_gone(c: Code, d: Code, n: int, moves: Seq<usize>) -> bool {
    if moves.contains(n as usize) {
        d.nop(n)
    } else {
        d.nop(n) == c.nop(n) && d.body(n) == c.body(n)
    }
}

/// What is known at the end was known on the way.
proof fn lemma_scan_grows(c: Code, k: int, end: int, m: Mask, x: Copies)
    requires
        compare_branch::redundant_test(c, k, end, m, x) is Some,
        c.len() <= usize::MAX,
        0 <= k,
        end <= c.len(),
        forall|n: int| 0 <= n < x.moves.len() ==> #[trigger] x.moves[n] < k,
    ensures
        ({
            let (j, y) = compare_branch::redundant_test(c, k, end, m, x)->0;
            &&& k <= j < end && !c.nop(j)
            &&& j == k ==> y == x
            &&& y.clean ==> x.clean
            &&& x.moves.len() <= y.moves.len()
            &&& forall|n: int| 0 <= n < x.moves.len() ==> #[trigger] y.moves[n] == x.moves[n]
            &&& forall|n: int|
                x.moves.len() <= n < y.moves.len() ==> k <= #[trigger] y.moves[n] < j && !c.nop(
                    y.moves[n] as int,
                )
        }),
    decreases end - k,
{
    if c.nop(k) {
        lemma_scan_grows(c, k + 1, end, m, x);
    } else if !(c.kind(k) is Cmp) {
        match compare_branch::copies_on(c, k, m, x.regs) {
            Some(dst) => {
                let next = compare_branch::copied(x, k, dst);
                lemma_scan_grows(c, k + 1, end, m, next);
                let y = compare_branch::redundant_test(c, k, end, m, x)->Some_0.1;
                assert forall|n: int| 0 <= n < x.moves.len() implies #[trigger] y.moves[n]
                    == x.moves[n] by {
                    assert(y.moves[n] == next.moves[n]);
                }
                if x.moves.len() < 4 {
                    assert(y.moves[x.moves.len() as int] == next.moves[x.moves.len() as int]);
                }
            },
            None => lemma_scan_grows(c, k + 1, end, m, compare_branch::passed(c, k, x)),
        }
    }
}

proof fn lemma_lines_without_moves(
    p: Processor,
    c: Code,
    d: Code,
    k: int,
    end: int,
    m: Mask,
    x: Copies,
    v: u64,
    o: State,
    n: State,
)
    requires
        tests(p),
        c.faithful(),
        c.len() <= usize::MAX,
        0 <= k,
        end <= c.len(),
        compare_branch::redundant_test(c, k, end, m, x) is Some,
        compare_branch::redundant_test(c, k, end, m, x)->Some_0.1.clean,
        forall|q: int| 0 <= q < x.moves.len() ==> #[trigger] x.moves[q] < k,
        forall|q: int|
            k <= q < compare_branch::redundant_test(c, k, end, m, x)->Some_0.0
                ==> #[trigger] moves_gone(
                c,
                d,
                q,
                compare_branch::redundant_test(c, k, end, m, x)->Some_0.1.moves,
            ),
        forall|q: int| k <= q < end && !c.nop(q) ==> usual(#[trigger] c.body(q)),
        fits(m, v),
        result_held(o, m, x.regs, v),
        agree_outside(o, n, x.ever),
        forall|r: RegId| r < 16 && #[trigger] compare_branch::holds(x.ever, r) ==> helpers::movable(r),
    ensures
        ({
            let (j, y) = compare_branch::redundant_test(c, k, end, m, x)->0;
            agree_outside(
                machine::after_code(p, c, k, j, o),
                machine::after_code(p, d, k, j, n),
                y.ever,
            )
        }),
    decreases end - k,
{
    let (j, y) = compare_branch::redundant_test(c, k, end, m, x)->0;
    lemma_scan_grows(c, k, end, m, x);
    lemma_sensible(p);
    if k < j {
        assert(moves_gone(c, d, k, y.moves));
        if c.nop(k) {
            assert(d.nop(k)) by {
                if y.moves.contains(k as usize) {
                    let q = choose|q: int| 0 <= q < y.moves.len() && y.moves[q] == k as usize;
                    assert(y.moves[q] == k);
                }
            }
            lemma_lines_without_moves(p, c, d, k + 1, end, m, x, v, o, n);
        } else {
            assert(usual(c.body(k)));
            match compare_branch::copies_on(c, k, m, x.regs) {
                Some(dst) => {
                    let next = compare_branch::copied(x, k, dst);
                    lemma_scan_grows(c, k + 1, end, m, next);
                    assert(x.moves.len() < 4);
                    assert(y.moves[x.moves.len() as int] == next.moves[x.moves.len() as int]);
                    assert(y.moves.contains(k as usize));
                    lemma_copy_step(p, c, k, m, x, v, o);
                    let (a, b) = compare_branch::any_reg_mov(c.body(k))->0;
                    lemma_move(p, c.body(k), a, b, o);
                    let after = p.run(c.body(k), o);
                    assert forall|r: RegId|
                        r < 16 && !(#[trigger] compare_branch::holds(next.ever, r)) implies after.regs[r as int]
                        == n.regs[r as int] by {
                        lemma_bits(x.ever, dst, r);
                        assert(!compare_branch::holds(x.ever, r));
                    }
                    assert forall|r: RegId|
                        r < 16 && #[trigger] compare_branch::holds(next.ever, r) implies helpers::movable(r) by {
                        lemma_bits(x.ever, dst, r);
                        if r != dst {
                            assert(compare_branch::holds(x.ever, r));
                        }
                    }
                    lemma_lines_without_moves(p, c, d, k + 1, end, m, next, v, after, n);
                },
                None => {
                    let next = compare_branch::passed(c, k, x);
                    lemma_scan_grows(c, k + 1, end, m, next);
                    lemma_pass_step(p, c, k, m, x, v, o);
                    types::lemma_faithful_line(c, k);
                    assert(!y.moves.contains(k as usize)) by {
                        if y.moves.contains(k as usize) {
                            let q = choose|q: int|
                                0 <= q < y.moves.len() && y.moves[q] == k as usize;
                            if q < x.moves.len() {
                                assert(y.moves[q] == x.moves[q]);
                            } else {
                                assert(y.moves[q] >= k + 1);
                            }
                        }
                    }
                    assert forall|r: RegId|
                        r < 16 && #[trigger] compare_branch::holds(x.ever, r) implies machine::untouched(
                        c.body(k),
                        r,
                    ) by {
                        reveal(machine::untouched);
                        reveal(machine::straight);
                        helpers::lemma_no_implicit_use(c.body(k), r);
                        lemma_disjoint(c.infos[k].reg_refs, x.ever, r);
                    }
                    lemma_run_outside(p, c.body(k), x.ever, o, n);
                    lemma_lines_without_moves(
                        p,
                        c,
                        d,
                        k + 1,
                        end,
                        m,
                        next,
                        v,
                        p.run(c.body(k), o),
                        p.run(c.body(k), n),
                    );
                },
            }
        }
    }
}

proof fn lemma_disjoint(a: u16, b: u16, r: RegId)
    requires
        a & b == 0,
        compare_branch::holds(b, r),
        r < 16,
    ensures
        a & (1u16 << r) == 0,
{
    let q = r as u16;
    assert(a & (1u16 << q) == 0) by (bit_vector)
        requires
            a & b == 0,
            b & (1u16 << q) != 0,
            q < 16,
    ;
}

/// The lines that are removed, and the others.
proof fn lemma_removed(c: Code, moves: Seq<usize>, n: nat, m: int)
    requires
        c.texts.len() == c.infos.len(),
        c.len() <= usize::MAX,
        n <= moves.len(),
        0 <= m < c.len(),
        forall|q: int| 0 <= q < moves.len() ==> #[trigger] moves[q] < c.len(),
    ensures
        ({
            let d = sweep::remove_first(c, moves, n);
            &&& d.texts == c.texts
            &&& d.infos.len() == c.infos.len()
            &&& moves.take(n as int).contains(m as usize) ==> d.nop(m)
            &&& !moves.take(n as int).contains(m as usize) ==> d.infos[m] == c.infos[m]
        }),
    decreases n,
{
    if n > 0 {
        lemma_removed(c, moves, (n - 1) as nat, m);
        let part = moves.take(n - 1);
        let all = moves.take(n as int);
        let u = moves[n - 1] as int;
        assert(all.contains(m as usize) == (part.contains(m as usize) || m == u)) by {
            if part.contains(m as usize) {
                let x = choose|x: int| 0 <= x < part.len() && part[x] == m as usize;
                assert(all[x] == m as usize);
            }
            if m == u {
                assert(all[n - 1] == m as usize);
            }
            if all.contains(m as usize) {
                let x = choose|x: int| 0 <= x < all.len() && all[x] == m as usize;
                if x < n - 1 {
                    assert(part[x] == m as usize);
                }
            }
        }
    }
}

/// The states are the same but for the registers in `regs`; the sign flag may differ too,
/// if the jump behind line `j` depends on the zero flag alone and no other jump follows.
pub open spec fn left_alike(c: Code, j: int, old: State, new: State, regs: u16) -> bool {
    ||| agree_outside(old, new, regs)
    ||| agree_outside(old.with_flags(with_sign_of(old.flags, new.flags)), new, regs)
        && compare_branch::zero_asked(c, j)
}

/// From the mask on, or the test in its place, up to the test that is dropped.
proof fn lemma_behind_the_mask(
    p: Processor,
    c: Code,
    d: Code,
    i: int,
    m: Mask,
    reg: RegId,
    v: u64,
    o: State,
    n: State,
)
    requires
        tests(p),
        c.faithful(),
        c.len() <= usize::MAX,
        0 <= i < c.len(),
        helpers::movable(reg),
        compare_branch::redundant_test(
            c,
            i + 1,
            scan_end(c, i),
            m,
            compare_branch::fresh_result(reg),
        ) is Some,
        ({
            let (j, y) = compare_branch::redundant_test(
                c,
                i + 1,
                scan_end(c, i),
                m,
                compare_branch::fresh_result(reg),
            )->0;
            &&& y.clean
            &&& d.nop(j)
            &&& forall|q: int| i < q < j ==> #[trigger] moves_gone(c, d, q, y.moves)
        }),
        forall|q: int| i < q < scan_end(c, i) && !c.nop(q) ==> usual(#[trigger] c.body(q)),
        fits(m, v),
        o.wf(),
        n.wf(),
        o.regs[reg as int] == v,
        o.flags == values::flags_of(v, m.wide),
        n.flags == o.flags,
        n.rest == o.rest,
        forall|r: int| 0 <= r < 16 && r != reg ==> #[trigger] n.regs[r] == o.regs[r],
    ensures
        ({
            let (j, y) = compare_branch::redundant_test(
                c,
                i + 1,
                scan_end(c, i),
                m,
                compare_branch::fresh_result(reg),
            )->0;
            let old = machine::after_code(p, c, i + 1, j + 1, o);
            let new = machine::after_code(p, d, i + 1, j + 1, n);
            left_alike(c, j, old, new, y.ever)
        }),
{
    let x = compare_branch::fresh_result(reg);
    let end = scan_end(c, i);
    let (j, y) = compare_branch::redundant_test(c, i + 1, end, m, x)->0;
    lemma_scan_grows(c, i + 1, end, m, x);
    assert forall|r: RegId| r < 16 && #[trigger] compare_branch::holds(x.regs, r) implies o.regs[r as int]
        == v && helpers::movable(r) by {
        lemma_bits(0, reg, r);
    }
    assert forall|r: RegId| r < 16 && !(#[trigger] compare_branch::holds(x.ever, r)) implies o.regs[r as int]
        == n.regs[r as int] by {
        lemma_bits(0, reg, r);
        assert(n.regs[r as int] == o.regs[r as int]);
    }
    assert(result_held(o, m, x.regs, v));
    lemma_lines_without_moves(p, c, d, i + 1, end, m, x, v, o, n);
    lemma_redundant_test(p, c, i + 1, end, m, x, v, o);
    machine::lemma_after_split(p, c, i + 1, j, j + 1, o);
    machine::lemma_after_split(p, d, i + 1, j, j + 1, n);
    let old = machine::after_code(p, c, i + 1, j, o);
    let new = machine::after_code(p, d, i + 1, j, n);
    assert(machine::after_code(p, c, j, j + 1, old) == p.run(c.body(j), old)) by {
        reveal_with_fuel(machine::after_code, 2);
    }
    assert(machine::after_code(p, d, j, j + 1, new) == new) by {
        reveal_with_fuel(machine::after_code, 2);
    }
}

/// The line at which the code begins to differ where the mask at line `i` becomes a test:
/// line `i`, or the line before it that copies the masked register.
pub open spec fn first_changed(c: Code, i: int, j: int, y: Copies, reg: RegId) -> int {
    match compare_branch::copied_from(
        sweep::remove_first(c.remove(j), y.moves, y.moves.len()),
        i,
        reg,
    ) {
        Some((q, _)) => q,
        None => i,
    }
}

/// Where a mask becomes a test, of the masked register or of the one that it was copied
/// from right before, the code up to the jump leaves the same flags and the same state but
/// for the masked register and its copies: those are what the jump and all that follows
/// does not use. Only the sign flag may differ, where the jump depends on the zero flag.
#[verifier::rlimit(60)]
pub proof fn law_mask_as_test_keeps_state(p: Processor, c: Code, i: int, st: State)
    requires
        tests(p),
        c.faithful(),
        c.len() <= usize::MAX,
        0 <= i < c.len(),
        !c.nop(i),
        st.wf(),
        compare_branch::and_imm(c.body(i)) is Some,
        ({
            let (imm, reg, wide) = compare_branch::and_imm(c.body(i))->0;
            &&& text::integer(imm) is Some
            &&& helpers::movable(reg) && helpers::dest_of(types::kind_of(c.body(i))) == reg
            &&& compare_branch::redundant_test(
                c,
                i + 1,
                scan_end(c, i),
                compare_branch::mask_of(imm, wide),
                compare_branch::fresh_result(reg),
            ) matches Some((j, y)) && y.clean && (compare_branch::copied_from(
                sweep::remove_first(c.remove(j), y.moves, y.moves.len()),
                i,
                reg,
            ) matches Some((q, src)) ==> machine::copied(c.body(q)) == Some((src, reg)))
        }),
        forall|n: int| i < n < scan_end(c, i) && !c.nop(n) ==> usual(#[trigger] c.body(n)),
    ensures
        ({
            let (imm, reg, wide) = compare_branch::and_imm(c.body(i))->0;
            let (j, y) = compare_branch::redundant_test(
                c,
                i + 1,
                scan_end(c, i),
                compare_branch::mask_of(imm, wide),
                compare_branch::fresh_result(reg),
            )->0;
            let d = compare_branch::and_to_test(c.remove(j), i, imm, reg, wide, y.moves);
            let first = first_changed(c, i, j, y, reg);
            left_alike(
                c,
                j,
                machine::after_code(p, c, first, j + 1, st),
                machine::after_code(p, d, first, j + 1, st),
                y.ever,
            )
        }),
{
    let (imm, reg, wide) = compare_branch::and_imm(c.body(i))->0;
    let m = compare_branch::mask_of(imm, wide);
    let x = compare_branch::fresh_result(reg);
    let end = scan_end(c, i);
    let (j, y) = compare_branch::redundant_test(c, i + 1, end, m, x)->0;
    let d0 = c.remove(j);
    let e = sweep::remove_first(d0, y.moves, y.moves.len());
    let from = compare_branch::copied_from(e, i, reg);
    let tested = match from {
        Some((_, src)) => src,
        None => reg,
    };
    let line = test_text(imm, tested, wide);
    let d = compare_branch::and_to_test(d0, i, imm, reg, wide, y.moves);
    lemma_scan_grows(c, i + 1, end, m, x);
    lemma_sensible(p);
    assert(y.moves.take(y.moves.len() as int) =~= y.moves);
    assert forall|q: int| 0 <= q < y.moves.len() implies #[trigger] y.moves[q] < d0.len() by {}
    lemma_line_text(imm, tested, wide);
    lemma_removed(d0, y.moves, y.moves.len(), i);
    lemma_removed(d0, y.moves, y.moves.len(), j);
    lemma_test_kind(imm, tested, wide);
    equivalence::lemma_put_body(e, i, line);
    redirects::lemma_put_kind(line);
    let f = e.put(i, "    "@ + line);
    assert(f.infos[i] == types::classified("    "@ + line));
    assert forall|q: int| 0 <= q <= i implies !y.moves.contains(#[trigger] (q as usize)) by {
        if y.moves.contains(q as usize) {
            let n = choose|n: int| 0 <= n < y.moves.len() && y.moves[n] == q as usize;
            assert(y.moves[n] >= i + 1);
        }
    }
    match from {
        Some((q, src)) => {
            assert(d == f.remove(q));
            machine::lemma_back(e, i - 1);
            assert(0 <= q < i);
            lemma_removed(d0, y.moves, y.moves.len(), q);
            assert(!y.moves.contains(q as usize));
            assert(!c.nop(q));
            let at = p.run(c.body(q), st);
            machine::lemma_run_copies(p, c.body(q), st);
            lemma_and(p, c.body(i), at);
            lemma_fits(imm, wide, at.regs[reg as int]);
            let v = masked(text::integer(imm)->0, wide, at.regs[reg as int]);
            let o = p.run(c.body(i), at);
            let n = p.run(line, st);
            assert(src < 16 && src != reg) by {
                reveal(machine::copied);
            }
            assert(n == st.with_flags(values::flags_of(v, wide))) by {
                reveal(tests);
            }
            assert forall|k: int| i < k < j implies #[trigger] moves_gone(c, d, k, y.moves) by {
                lemma_removed(d0, y.moves, y.moves.len(), k);
            }
            assert forall|k: int| q < k < i implies #[trigger] c.nop(k) by {
                lemma_removed(d0, y.moves, y.moves.len(), k);
                assert(e.nop(k));
                assert(!y.moves.contains(k as usize));
            }
            assert forall|k: int| q < k < i implies #[trigger] d.nop(k) by {
                assert(e.nop(k));
            }
            lemma_behind_the_mask(p, c, d, i, m, reg, v, o, n);
            machine::lemma_after_split(p, c, q + 1, i, j + 1, at);
            machine::lemma_after_split(p, d, q + 1, i, j + 1, st);
            machine::lemma_after_removed(p, c, q + 1, i, at);
            machine::lemma_after_removed(p, d, q + 1, i, st);
            assert(!d.nop(i) && d.body(i) == line && d.nop(q));
        },
        None => {
            assert(d == f);
            lemma_and(p, c.body(i), st);
            lemma_fits(imm, wide, st.regs[reg as int]);
            let v = masked(text::integer(imm)->0, wide, st.regs[reg as int]);
            let o = p.run(c.body(i), st);
            let n = p.run(line, st);
            assert(n == st.with_flags(values::flags_of(v, wide))) by {
                reveal(tests);
            }
            assert forall|k: int| i < k < j implies #[trigger] moves_gone(c, d, k, y.moves) by {
                lemma_removed(d0, y.moves, y.moves.len(), k);
            }
            lemma_behind_the_mask(p, c, d, i, m, reg, v, o, n);
            assert(!d.nop(i) && d.body(i) == line);
        },
    }
}

proof fn lemma_line_text(imm: Seq<char>, reg: RegId, wide: bool)
    ensures
        compare_branch::test_line(imm, reg, wide) == "    "@ + test_text(imm, reg, wide),
{
    reveal_strlit("    testq $");
    reveal_strlit("    testl $");
    reveal_strlit("    ");
    reveal_strlit("testq $");
    reveal_strlit("testl $");
    assert(compare_branch::test_line(imm, reg, wide) =~= "    "@ + test_text(imm, reg, wide));
}

proof fn lemma_test_kind(imm: Seq<char>, reg: RegId, wide: bool)
    ensures
        redirects::starts_plainly(test_text(imm, reg, wide)),
{
    reveal_strlit("testq $");
    reveal_strlit("testl $");
    assert("testq $"@[0] == 't' && "testl $"@[0] == 't');
    assert(test_text(imm, reg, wide)[0] == 't');
}

/// The register held the result from the start, or is what one of the moves writes.
spec fn comes_from(c: Code, x: Copies, y: Copies, r: RegId) -> bool {
    compare_branch::holds(x.ever, r) || exists|n: int|
        x.moves.len() <= n < y.moves.len() && helpers::dest_of(
            c.kind((#[trigger] y.moves[n]) as int),
        ) == r
}

proof fn lemma_ever(c: Code, k: int, end: int, m: Mask, x: Copies, r: RegId)
    requires
        compare_branch::redundant_test(c, k, end, m, x) is Some,
        compare_branch::redundant_test(c, k, end, m, x)->Some_0.1.clean,
        c.faithful(),
        c.len() <= usize::MAX,
        0 <= k,
        end <= c.len(),
        forall|n: int| 0 <= n < x.moves.len() ==> #[trigger] x.moves[n] < k,
        forall|q: int| k <= q < end && !c.nop(q) ==> usual(#[trigger] c.body(q)),
        r < 16,
        compare_branch::holds(compare_branch::redundant_test(c, k, end, m, x)->Some_0.1.ever, r),
    ensures
        comes_from(c, x, compare_branch::redundant_test(c, k, end, m, x)->Some_0.1, r),
    decreases end - k,
{
    let y = compare_branch::redundant_test(c, k, end, m, x)->Some_0.1;
    if c.nop(k) {
        lemma_ever(c, k + 1, end, m, x, r);
    } else if !(c.kind(k) is Cmp) {
        match compare_branch::copies_on(c, k, m, x.regs) {
            Some(dst) => {
                let next = compare_branch::copied(x, k, dst);
                lemma_scan_grows(c, k + 1, end, m, next);
                assert(x.moves.len() < 4);
                lemma_ever(c, k + 1, end, m, next, r);
                lemma_bits(x.ever, dst, r);
                types::lemma_faithful_line(c, k);
                assert(usual(c.body(k)));
                if compare_branch::holds(next.ever, r) && !compare_branch::holds(x.ever, r) {
                    assert(y.moves[x.moves.len() as int] == next.moves[x.moves.len() as int]);
                    assert(helpers::dest_of(c.kind(y.moves[x.moves.len() as int] as int)) == r);
                }
            },
            None => lemma_ever(c, k + 1, end, m, compare_branch::passed(c, k, x), r),
        }
    }
}

/// The registers in which the state may differ where a mask becomes a test are those that
/// are found unused from the jump on.
pub proof fn law_registers_that_change_are_unused(c: Code, t: Targets, i: int, r: RegId)
    requires
        c.faithful(),
        c.len() <= usize::MAX,
        0 <= i < c.len(),
        compare_branch::and_imm(c.body(i)) is Some,
        r < 16,
        ({
            let (imm, reg, wide) = compare_branch::and_imm(c.body(i))->0;
            &&& reg < 16
            &&& compare_branch::redundant_test(
                c,
                i + 1,
                scan_end(c, i),
                compare_branch::mask_of(imm, wide),
                compare_branch::fresh_result(reg),
            ) matches Some((j, y)) && y.clean && compare_branch::holds(y.ever, r)
                && liveness::unused_after_ext(c.remove(j), t, c.live_from(j + 1), reg)
                && compare_branch::moves_unused(c.remove(j), t, c.live_from(j + 1), y.moves)
        }),
        forall|q: int| i < q < scan_end(c, i) && !c.nop(q) ==> usual(#[trigger] c.body(q)),
    ensures
        ({
            let (imm, reg, wide) = compare_branch::and_imm(c.body(i))->0;
            let j = compare_branch::redundant_test(
                c,
                i + 1,
                scan_end(c, i),
                compare_branch::mask_of(imm, wide),
                compare_branch::fresh_result(reg),
            )->Some_0.0;
            liveness::unused_after_ext(c.remove(j), t, c.live_from(j + 1), r)
        }),
{
    let (imm, reg, wide) = compare_branch::and_imm(c.body(i))->0;
    let m = compare_branch::mask_of(imm, wide);
    let x = compare_branch::fresh_result(reg);
    let end = scan_end(c, i);
    let (j, y) = compare_branch::redundant_test(c, i + 1, end, m, x)->0;
    lemma_scan_grows(c, i + 1, end, m, x);
    lemma_ever(c, i + 1, end, m, x, r);
    lemma_bits(0, reg, r);
    if r != reg {
        let n = choose|n: int|
            x.moves.len() <= n < y.moves.len() && helpers::dest_of(
                c.kind((#[trigger] y.moves[n]) as int),
            ) == r;
        assert(compare_branch::unused_dest(
            c.remove(j),
            t,
            c.live_from(j + 1),
            y.moves[n] as int,
        ));
    }
}

} // verus!
