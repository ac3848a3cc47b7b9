//! The branch that compares and the branch on a comparison's result lead to the same line.
//!
//! The result of a comparison is made by `setCC`, carried to all of `%rax` through
//! extensions and slots on the stack, and tested there. A processor is run over these lines
//! to show that the test finds just that result.

use vstd::prelude::*;

use super::compare_branch;
use super::equivalence;
use super::helpers;
use super::helpers::Flags;
use super::machine;
use super::machine::{Processor, State};
use super::sweep;
use super::text;
use super::types;
use super::types::{Code, LineKind};

verus! {

// ── What is asked of a processor ────────────────────────────────────────────

/// What the slots on the stack hold: the eight bytes at an offset.
pub struct Slots {
    pub read: spec_fn(int, i32) -> u64,
}

/// The lowest `bits` bits of `v`, of which there are 8, 32 or 64.
pub open spec fn lowest(v: u64, bits: nat) -> int {
    if bits == 8 {
        v as int % 0x100
    } else if bits == 32 {
        v as int % 0x1_0000_0000
    } else {
        v as int
    }
}

/// The low half of a value with its sign.
pub open spec fn with_sign(v: u64) -> int {
    let low = v as int % 0x1_0000_0000;
    if low < 0x8000_0000 {
        low
    } else {
        low + 0x1_0000_0000_0000_0000 - 0x1_0000_0000
    }
}

/// One if the condition holds, else zero.
pub open spec fn result_of(cc: Seq<char>, f: Flags) -> int {
    if helpers::condition(cc, f) == Some(true) {
        1
    } else {
        0
    }
}

/// A text that starts like a move that widens what it moves.
pub open spec fn looks_widening(s: Seq<char>) -> bool {
    "movzbq %al,"@.is_prefix_of(s) || "movzbl %al,"@.is_prefix_of(s) || "movslq "@.is_prefix_of(
        s,
    ) || s == "cltq"@
}

/// A move that widens what it moves.
pub open spec fn widens(s: Seq<char>) -> bool {
    looks_widening(s) && !":"@.is_suffix_of(s)
}

/// A processor that makes, widens, stores, loads and tests results as it should.
#[verifier::opaque]
pub open spec fn carries(p: Processor, m: Slots) -> bool {
    &&& forall|s: Seq<char>, st: State| st.wf() ==> (#[trigger] p.run(s, st)).wf()
    &&& forall|cc: Seq<char>, st: State|
        st.wf() && helpers::condition(cc, st.flags) is Some ==> {
            let u = #[trigger] p.run("set"@ + cc + " %al"@, st);
            &&& u.regs[0] == st.regs[0] - st.regs[0] as int % 0x100 + result_of(cc, st.flags)
            &&& forall|r: int| 0 < r < 16 ==> u.regs[r] == st.regs[r]
        }
    &&& forall|s: Seq<char>, st: State|
        #![trigger p.run(s, st)]
        st.wf() && widens(s) ==> {
            let u = p.run(s, st);
            let dest = helpers::dest_of(types::kind_of(s));
            &&& u.rest == st.rest
            &&& forall|r: int| 0 <= r < 16 && r != dest ==> u.regs[r] == st.regs[r]
            &&& dest == 0 && ("movzbq %al,"@.is_prefix_of(s) || "movzbl %al,"@.is_prefix_of(s))
                ==> u.regs[0] == st.regs[0] as int % 0x100
            &&& s == "cltq"@ || s == "movslq %eax, %rax"@ ==> u.regs[0] == with_sign(st.regs[0])
        }
    &&& slots_work(p, m)
    &&& forall|st: State|
        st.wf() ==> {
            let u = #[trigger] p.run("testq %rax, %rax"@, st);
            u.regs == st.regs && u.rest == st.rest && u.flags.zero == (st.regs[0] == 0)
        }
    &&& forall|st: State|
        st.wf() ==> {
            let u = #[trigger] p.run("testl %eax, %eax"@, st);
            u.regs == st.regs && u.rest == st.rest && u.flags.zero == (st.regs[0] as int
                % 0x1_0000_0000 == 0)
        }
}

/// What is stored to a slot can be loaded from it.
pub open spec fn slots_work(p: Processor, m: Slots) -> bool {
    forall|s: Seq<char>, st: State|
        #![trigger p.run(s, st)]
        st.wf() ==> match types::kind_of(s) {
            LineKind::StoreRbp { reg, offset, size } => {
                let u = p.run(s, st);
                &&& u.regs == st.regs
                &&& reg == 0 && size is Q ==> (m.read)(u.rest, offset) == st.regs[0]
                &&& reg == 0 && size is L ==> lowest((m.read)(u.rest, offset), 32) == lowest(
                    st.regs[0],
                    32,
                )
            },
            LineKind::LoadRbp { reg, offset, size } => {
                let u = p.run(s, st);
                let v = (m.read)(st.rest, offset);
                &&& u.rest == st.rest
                &&& forall|r: int| 0 <= r < 16 && r != reg ==> u.regs[r] == st.regs[r]
                &&& reg == 0 && size is Q ==> u.regs[0] == v
                &&& reg == 0 && size is L ==> u.regs[0] == lowest(v, 32)
                &&& reg == 0 && size is SLQ ==> u.regs[0] == with_sign(v)
            },
            _ => true,
        }
}

// ── Where the result is ─────────────────────────────────────────────────────

/// How many of the lowest bits of `%rax` are those of the result, and the slot that holds
/// it, with how many of its bits.
pub struct Whereabouts {
    pub bits: nat,
    pub slot: Option<(i32, nat)>,
}

/// Where the result is after a line that moves it. Lines of other kinds do not.
pub open spec fn moved(w: Whereabouts, s: Seq<char>, kind: LineKind) -> Whereabouts {
    if "movzbq %al,"@.is_prefix_of(s) || "movzbl %al,"@.is_prefix_of(s) {
        if helpers::dest_of(kind) == 0 {
            Whereabouts {
                bits: if w.bits >= 8 {
                    64
                } else {
                    0
                },
                ..w
            }
        } else {
            w
        }
    } else {
        match kind {
            LineKind::StoreRbp { reg, offset, size } => Whereabouts {
                slot: if reg == 0 && w.bits >= 32 && (size is Q || size is L) {
                    Some(
                        (
                            offset,
                            if size is Q {
                                w.bits
                            } else {
                                32
                            },
                        ),
                    )
                } else {
                    None
                },
                ..w
            },
            LineKind::LoadRbp { reg, offset, size } => if reg == 0 {
                Whereabouts {
                    bits: match w.slot {
                        Some((o, bits)) => if o != offset {
                            0
                        } else if size is Q {
                            bits
                        } else if size is L || size is SLQ {
                            64
                        } else {
                            0
                        },
                        None => 0,
                    },
                    ..w
                }
            } else {
                w
            },
            _ => if s == "cltq"@ || s == "movslq %eax, %rax"@ {
                Whereabouts {
                    bits: if w.bits >= 32 {
                        64
                    } else {
                        0
                    },
                    ..w
                }
            } else if "movslq "@.is_prefix_of(s) && helpers::dest_of(kind) == 0 {
                Whereabouts { bits: 0, ..w }
            } else {
                w
            },
        }
    }
}

/// Where the result is after the lines from `k` up to `end`.
pub open spec fn followed(c: Code, k: int, end: int, w: Whereabouts) -> Whereabouts
    decreases end - k,
{
    if k >= end {
        w
    } else if c.nop(k) {
        followed(c, k + 1, end, w)
    } else {
        followed(c, k + 1, end, moved(w, c.body(k), c.kind(k)))
    }
}

/// The result `b` is where it is said to be.
pub open spec fn is_there(w: Whereabouts, m: Slots, st: State, b: int) -> bool {
    &&& w.bits == 0 || w.bits == 8 || w.bits == 32 || w.bits == 64
    &&& w.bits > 0 ==> lowest(st.regs[0], w.bits) == b
    &&& w.slot matches Some((o, bits)) ==> (bits == 32 || bits == 64) && lowest(
        (m.read)(st.rest, o),
        bits,
    ) == b
}

// ── Jumps ───────────────────────────────────────────────────────────────────

/// Is the conditional jump taken?
pub open spec fn jump_taken(s: Seq<char>, f: Flags) -> Option<bool> {
    match text::after(s, "j"@) {
        Some(rest) => match text::split(rest, " "@) {
            Some((cc, _)) => helpers::condition(cc, f),
            None => None,
        },
        None => None,
    }
}

/// Where the jump goes.
pub open spec fn jump_leads_to(s: Seq<char>) -> Option<Seq<char>> {
    match text::split(s, " "@) {
        Some((_, t)) => Some(text::trim(t)),
        None => None,
    }
}

proof fn lemma_no_blank(cc: Seq<char>, f: Flags)
    requires
        helpers::condition(cc, f) is Some,
    ensures
        cc.len() > 0,
        forall|k: int| 0 <= k < cc.len() ==> #[trigger] cc[k] != ' ',
{
    reveal_strlit("e");
    reveal_strlit("z");
    reveal_strlit("ne");
    reveal_strlit("nz");
    reveal_strlit("l");
    reveal_strlit("ge");
    reveal_strlit("g");
    reveal_strlit("le");
    reveal_strlit("b");
    reveal_strlit("ae");
    reveal_strlit("a");
    reveal_strlit("be");
    reveal_strlit("s");
    reveal_strlit("ns");
    reveal_strlit("o");
    reveal_strlit("no");
    reveal_strlit("p");
    reveal_strlit("np");
}

/// A jump that was put together is read as it was.
proof fn lemma_jump(cc: Seq<char>, rest: Seq<char>, f: Flags)
    requires
        helpers::condition(cc, f) is Some,
    ensures
        jump_taken("j"@ + cc + " "@ + rest, f) == helpers::condition(cc, f),
        jump_leads_to("j"@ + cc + " "@ + rest) == Some(text::trim(rest)),
{
    let s = "j"@ + cc + " "@ + rest;
    reveal_strlit("j");
    reveal_strlit(" ");
    lemma_no_blank(cc, f);
    assert("j"@.is_prefix_of(s));
    assert(s.skip("j"@.len() as int) =~= cc + " "@ + rest);
    equivalence::lemma_split_at(cc, " "@, rest);
    assert forall|k: int| 0 <= k < ("j"@ + cc).len() implies #[trigger] ("j"@ + cc)[k] != " "@[0] by {
        if k > 0 {
            assert(cc[k - 1] != ' ');
        }
    }
    equivalence::lemma_split_at("j"@ + cc, " "@, rest);
}

proof fn lemma_setcc(cc: Seq<char>, f: Flags)
    requires
        helpers::condition(cc, f) is Some,
    ensures
        helpers::setcc_cond("set"@ + cc + " %al"@) == Some(cc),
{
    let s = "set"@ + cc + " %al"@;
    reveal_strlit("set");
    reveal_strlit(" %al");
    reveal_strlit(" ");
    lemma_no_blank(cc, f);
    let tail = " %al"@.skip(1);
    assert("set"@.is_prefix_of(s));
    assert(s.skip("set"@.len() as int) =~= cc + " "@ + tail);
    equivalence::lemma_split_at(cc, " "@, tail);
}

// ── The lines ───────────────────────────────────────────────────────────────

/// Two lines with nothing but removed lines between them.
spec fn adjacent(c: Code, a: int, b: int) -> bool {
    &&& 0 <= a < b < c.len()
    &&& !c.nop(a)
    &&& !c.nop(b)
    &&& forall|m: int| a < m < b ==> #[trigger] c.nop(m)
}

proof fn lemma_lines(c: Code, i: int, max: nat, k: int)
    requires
        0 <= i <= c.len(),
        c.len() <= usize::MAX,
        0 <= k,
        k + 1 < helpers::live_lines(c, i, max).len(),
    ensures
        ({
            let lines = helpers::live_lines(c, i, max);
            &&& lines[0] == c.live_from(i)
            &&& i <= lines[0]
            &&& lines[0] <= lines[k]
            &&& adjacent(c, lines[k] as int, lines[k + 1] as int)
        }),
    decreases max,
{
    let lines = helpers::live_lines(c, i, max);
    let j = c.live_from(i);
    machine::lemma_live_bound(c, i);
    machine::lemma_live_stops(c, i);
    let rest = helpers::live_lines(c, j + 1, (max - 1) as nat);
    assert(lines =~= seq![j as usize] + rest);
    if k == 0 {
        let n = c.live_from(j + 1);
        machine::lemma_live_bound(c, j + 1);
        assert(rest.len() > 0);
        assert(lines[1] == rest[0] && rest[0] == n);
        machine::lemma_live_stops(c, j + 1);
        assert forall|m: int| j < m < n implies #[trigger] c.nop(m) by {
            machine::lemma_up_to_live(c, j + 1, m);
        }
    } else {
        assert(rest[k - 1] == lines[k] && rest[k] == lines[k + 1]);
        lemma_lines(c, j + 1, (max - 1) as nat, k - 1);
    }
}

proof fn lemma_over(p: Processor, c: Code, a: int, b: int, end: int, st: State, w: Whereabouts)
    requires
        adjacent(c, a, b),
        b <= end,
    ensures
        machine::after_code(p, c, a, end, st) == machine::after_code(
            p,
            c,
            b,
            end,
            p.run(c.body(a), st),
        ),
        followed(c, a, end, w) == followed(c, b, end, moved(w, c.body(a), c.kind(a))),
{
    let mid = p.run(c.body(a), st);
    machine::lemma_after_removed(p, c, a + 1, b, mid);
    machine::lemma_after_split(p, c, a + 1, b, end, mid);
    lemma_followed_over(c, a + 1, b, end, moved(w, c.body(a), c.kind(a)));
}

proof fn lemma_followed_over(c: Code, k: int, b: int, end: int, w: Whereabouts)
    requires
        k <= b <= end,
        forall|m: int| k <= m < b ==> #[trigger] c.nop(m),
    ensures
        followed(c, k, end, w) == followed(c, b, end, w),
    decreases b - k,
{
    if k < b {
        lemma_followed_over(c, k + 1, b, end, w);
    }
}

/// No line from `k` up to `end` has the register as its last operand.
pub open spec fn spared(c: Code, k: int, end: int, r: int) -> bool {
    forall|m: int| k <= m < end && !c.nop(m) ==> helpers::dest_of(#[trigger] c.kind(m)) != r
}

/// A line that passes the result on leaves it where it is said to be.
#[verifier::rlimit(40)]
proof fn lemma_carried(
    p: Processor,
    m: Slots,
    s: Seq<char>,
    kind: LineKind,
    w: Whereabouts,
    st: State,
    b: int,
)
    requires
        carries(p, m),
        st.wf(),
        kind == types::kind_of(s),
        0 <= b <= 1,
        is_there(w, m, st, b),
        (kind is StoreRbp || kind is LoadRbp) && !("movzbq %al,"@.is_prefix_of(s)
            || "movzbl %al,"@.is_prefix_of(s)) || widens(s),
    ensures
        p.run(s, st).wf(),
        is_there(moved(w, s, kind), m, p.run(s, st), b),
        forall|r: int| 0 <= r < 16 && r != helpers::dest_of(kind) ==> p.run(s, st).regs[r]
            == st.regs[r],
{
    reveal(carries);
    let u = p.run(s, st);
    assert(u.wf());
    if widens(s) && !(kind is StoreRbp || kind is LoadRbp) {
        assert(u.rest == st.rest);
        if s == "cltq"@ || s == "movslq %eax, %rax"@ {
            assert(helpers::dest_of(kind) == 0 || u.regs[0] == st.regs[0]);
        }
    } else if kind is StoreRbp {
    } else {
    }
}

/// The test finds the result that is followed to all of `%rax`.
proof fn lemma_chain(
    p: Processor,
    m: Slots,
    c: Code,
    i: int,
    k: int,
    acc: Seq<i32>,
    w: Whereabouts,
    st: State,
    b: int,
)
    requires
        carries(p, m),
        c.faithful(),
        c.len() <= usize::MAX,
        0 <= i < c.len(),
        1 <= k,
        ({
            let lines = helpers::live_lines(c, i + 1, 7);
            let found = compare_branch::find_test(c, lines, k, acc);
            &&& found is Some
            &&& found->Some_0.0 + 1 < lines.len()
            &&& followed(
                c,
                lines[k] as int,
                lines[found->Some_0.0 + 1] as int,
                w,
            ).bits == 64
            &&& forall|n: int|
                i < n < lines[found->Some_0.0 + 1] && !c.nop(n) && looks_widening(
                    #[trigger] c.body(n),
                ) ==> widens(c.body(n))
        }),
        st.wf(),
        0 <= b <= 1,
        is_there(w, m, st, b),
    ensures
        ({
            let lines = helpers::live_lines(c, i + 1, 7);
            let t = compare_branch::find_test(c, lines, k, acc)->Some_0.0;
            let end = lines[t + 1] as int;
            let at = machine::after_code(p, c, lines[k] as int, end, st);
            &&& k <= t
            &&& at.flags.zero == (b == 0)
            &&& forall|r: int| 0 <= r < 16 && spared(c, lines[k] as int, end, r)
                ==> #[trigger] at.regs[r] == st.regs[r]
        }),
    decreases 8 - k,
{
    let lines = helpers::live_lines(c, i + 1, 7);
    lemma_count(c, i + 1, 7);
    let (t, stores) = compare_branch::find_test(c, lines, k, acc)->0;
    lemma_found(c, lines, k, acc);
    let end = lines[t + 1] as int;
    let a = lines[k] as int;
    let l = lines[k + 1] as int;
    lemma_lines(c, i + 1, 7, k);
    lemma_later(c, i, k + 1, t + 1);
    let s = c.body(a);
    let kind = c.kind(a);
    types::lemma_faithful_line(c, a);
    lemma_over(p, c, a, l, end, st, w);
    let u = p.run(s, st);
    let at = machine::after_code(p, c, a, end, st);
    assert(looks_widening(s) ==> widens(s));
    if k < t {
        assert(!compare_branch::tests_rax(s) || compare_branch::passes_flag_on(s)
            || kind is StoreRbp || kind is LoadRbp || compare_branch::widens_flag(s));
        lemma_carried(p, m, s, kind, w, st, b);
        let next = if !compare_branch::passes_flag_on(s) && kind is StoreRbp {
            acc.push(kind->StoreRbp_offset)
        } else {
            acc
        };
        lemma_chain(p, m, c, i, k + 1, next, moved(w, s, kind), u, b);
        assert forall|r: int| 0 <= r < 16 && spared(c, a, end, r) implies #[trigger] at.regs[r]
            == st.regs[r] by {
            assert(helpers::dest_of(c.kind(a)) != r);
            assert(spared(c, l, end, r));
        }
    } else {
        reveal(carries);
        assert(compare_branch::tests_rax(s));
        assert(s != "movslq %eax, %rax"@) by {
            reveal_strlit("testq %rax, %rax");
            reveal_strlit("testl %eax, %eax");
            reveal_strlit("movslq %eax, %rax");
            assert(s[0] == 't');
        }
        assert(moved(w, s, kind) == w);
        assert(at == u) by {
            reveal_with_fuel(machine::after_code, 2);
        }
        reveal_with_fuel(followed, 2);
        assert(w.bits == 64);
    }
}

proof fn lemma_count(c: Code, i: int, max: nat)
    ensures
        helpers::live_lines(c, i, max).len() <= max,
    decreases max,
{
    if max > 0 {
        lemma_count(c, c.live_from(i) + 1, (max - 1) as nat);
    }
}

proof fn lemma_found(c: Code, lines: Seq<usize>, k: int, acc: Seq<i32>)
    requires
        compare_branch::find_test(c, lines, k, acc) is Some,
    ensures
        0 <= k <= compare_branch::find_test(c, lines, k, acc)->Some_0.0 < lines.len(),
        compare_branch::find_test(c, lines, k, acc)->Some_0.0 == k ==> {
            let l = lines[k] as int;
            &&& compare_branch::tests_rax(c.body(l))
            &&& !compare_branch::passes_flag_on(c.body(l))
            &&& !compare_branch::widens_flag(c.body(l))
            &&& !(c.kind(l) is StoreRbp || c.kind(l) is LoadRbp)
        },
    decreases lines.len() - k,
{
    if 0 <= k < lines.len() {
        let l = lines[k] as int;
        if compare_branch::passes_flag_on(c.body(l)) {
            lemma_found(c, lines, k + 1, acc);
        } else if c.kind(l) is StoreRbp {
            lemma_found(c, lines, k + 1, acc.push(c.kind(l)->StoreRbp_offset));
        } else if c.kind(l) is LoadRbp || compare_branch::widens_flag(c.body(l)) {
            lemma_found(c, lines, k + 1, acc);
        }
    }
}

proof fn lemma_later(c: Code, i: int, a: int, b: int)
    requires
        0 <= i < c.len(),
        c.len() <= usize::MAX,
        0 <= a <= b < helpers::live_lines(c, i + 1, 7).len(),
    ensures
        helpers::live_lines(c, i + 1, 7)[a] <= helpers::live_lines(c, i + 1, 7)[b],
    decreases b - a,
{
    if a < b {
        lemma_lines(c, i + 1, 7, a);
        lemma_later(c, i, a + 1, b);
    }
}

// ── The law ─────────────────────────────────────────────────────────────────

/// Lines that were removed first, and the others.
proof fn lemma_removed(c: Code, lines: Seq<usize>, n: nat, m: int)
    requires
        c.texts.len() == c.infos.len(),
        n <= lines.len(),
        0 <= m < c.len(),
        forall|k: int| 0 <= k < n ==> #[trigger] lines[k] < c.len(),
    ensures
        ({
            let d = sweep::remove_first(c, lines, n);
            &&& d.texts == c.texts
            &&& d.infos.len() == c.infos.len()
            &&& (exists|k: int| 0 <= k < n && #[trigger] lines[k] == m) ==> d.nop(m)
            &&& c.nop(m) ==> d.nop(m)
            &&& !(exists|k: int| 0 <= k < n && #[trigger] lines[k] == m) ==> d.infos[m]
                == c.infos[m]
        }),
    decreases n,
{
    if n > 0 {
        lemma_removed(c, lines, (n - 1) as nat, m);
        let d = sweep::remove_first(c, lines, (n - 1) as nat);
        if lines[n - 1] == m {
        } else if exists|k: int| 0 <= k < n && #[trigger] lines[k] == m {
            let k = choose|k: int| 0 <= k < n && #[trigger] lines[k] == m;
            assert(k < n - 1 && lines[k] == m);
        }
    }
}

/// A line between the first and the last of some lines that was not removed is one of them.
proof fn lemma_between(c: Code, i: int, k: int, m: int)
    requires
        0 <= i < c.len(),
        c.len() <= usize::MAX,
        0 <= k < helpers::live_lines(c, i + 1, 7).len(),
        i < m < helpers::live_lines(c, i + 1, 7)[k],
        !c.nop(m),
    ensures
        exists|j: int| 0 <= j < k && #[trigger] helpers::live_lines(c, i + 1, 7)[j] == m,
    decreases k,
{
    let lines = helpers::live_lines(c, i + 1, 7);
    if k == 0 {
        let j = c.live_from(i + 1);
        machine::lemma_live_bound(c, i + 1);
        assert(lines =~= seq![j as usize] + helpers::live_lines(c, j + 1, 6));
        machine::lemma_up_to_live(c, i + 1, m);
    } else {
        lemma_lines(c, i + 1, 7, k - 1);
        if m == lines[k - 1] {
        } else if m < lines[k - 1] {
            lemma_between(c, i, k - 1, m);
        } else {
            assert(c.nop(m));
        }
    }
}

/// Where a comparison is branched on directly, the code goes where it went.
///
/// The lines between the comparison and the branch make the result of the comparison,
/// carry it to all of `%rax` and test it. None of them is left, so the branch finds the
/// state that the comparison left. It is taken there exactly if the branch as it was is
/// taken after those lines, it leads to the same label, and registers that none of them
/// writes are the same.
///
/// The result is made in `%al`, widened before it is looked at, and loaded from where it
/// was stored.
pub proof fn law_fused_comparison_leads_alike(
    p: Processor,
    m: Slots,
    c: Code,
    i: int,
    cc: Seq<char>,
    st: State,
)
    requires
        carries(p, m),
        c.faithful(),
        c.len() <= usize::MAX,
        0 <= i < c.len(),
        compare_branch::compare_at(c, i) is Some,
        st.wf(),
        helpers::condition(cc, st.flags) is Some,
        c.body(c.live_from(i + 1)) == "set"@ + cc + " %al"@,
        ({
            let end = compare_branch::compare_at(c, i)->Some_0.1 - 1;
            &&& followed(
                c,
                c.live_from(i + 1) + 1,
                end,
                (Whereabouts { bits: 8, slot: None }),
            ).bits == 64
            &&& forall|n: int|
                i < n < end && !c.nop(n) && looks_widening(#[trigger] c.body(n)) ==> widens(
                    c.body(n),
                )
        }),
    ensures
        ({
            let (d, next) = compare_branch::compare_at(c, i)->0;
            let end = next - 1;
            let at = machine::after_code(p, c, i + 1, end, st);
            &&& i + 1 < end < c.len()
            &&& d.len() == c.len()
            &&& machine::after_code(p, d, i + 1, end, st) == st
            &&& !c.nop(end) && !d.nop(end)
            &&& jump_taken(c.body(end), at.flags) is Some
            &&& jump_taken(d.body(end), st.flags) == jump_taken(c.body(end), at.flags)
            &&& jump_leads_to(d.body(end)) == jump_leads_to(c.body(end))
            &&& forall|r: int| 0 < r < 16 && spared(c, i + 1, end, r) ==> #[trigger] at.regs[r]
                == st.regs[r]
            &&& forall|n: int|
                0 <= n < c.len() && (n <= i || n > end) ==> d.texts[n] == c.texts[n]
                    && #[trigger] d.infos[n] == c.infos[n]
        }),
{
    let lines = helpers::live_lines(c, i + 1, 7);
    let (d, next) = compare_branch::compare_at(c, i)->0;
    let (t, line) = compare_branch::fused_branch(c, lines)->0;
    let end = lines[t + 1] as int;
    let a = lines[0] as int;
    lemma_setcc(cc, st.flags);
    lemma_found(c, lines, 1, Seq::empty());
    lemma_lines(c, i + 1, 7, 0);
    lemma_lines(c, i + 1, 7, t);
    lemma_later(c, i, 1, t + 1);
    assert(end == next - 1);
    assert(a == c.live_from(i + 1));
    let b = result_of(cc, st.flags);
    let w = Whereabouts { bits: 8, slot: None };
    let made = p.run(c.body(a), st);
    // The result is made.
    assert(made.wf() && is_there(w, m, made, b) && forall|r: int|
        0 < r < 16 ==> #[trigger] made.regs[r] == st.regs[r]) by {
        reveal(carries);
    }
    // It is carried.
    lemma_over(p, c, a, lines[1] as int, end, st, w);
    assert forall|n: int| a < n < lines[1] implies #[trigger] c.nop(n) by {}
    lemma_followed_over(c, a + 1, lines[1] as int, end, w);
    lemma_chain(p, m, c, i, 1, Seq::empty(), w, made, b);
    assert forall|n: int| i + 1 <= n < a implies #[trigger] c.nop(n) by {
        machine::lemma_up_to_live(c, i + 1, n);
    }
    machine::lemma_after_removed(p, c, i + 1, a, st);
    machine::lemma_after_split(p, c, i + 1, a, end, st);
    let at = machine::after_code(p, c, i + 1, end, st);
    assert(at == machine::after_code(p, c, lines[1] as int, end, made));
    assert(at.flags.zero == (b == 0));
    assert forall|r: int| 0 < r < 16 && spared(c, i + 1, end, r) implies #[trigger] at.regs[r]
        == st.regs[r] by {
        assert(spared(c, lines[1] as int, end, r));
    }
    // The branches.
    lemma_branches(c, lines, cc, t, st.flags, at.flags);
    // The lines.
    let e = sweep::remove_first(c, lines, (t + 1) as nat);
    assert forall|k: int| 0 <= k < t + 1 implies i < #[trigger] lines[k] < end by {
        lemma_later(c, i, 0, k);
        lemma_later(c, i, k, t);
    }
    lemma_removed(c, lines, (t + 1) as nat, end);
    types::lemma_classified(line);
    assert forall|n: int| i + 1 <= n < end implies #[trigger] d.nop(n) by {
        lemma_removed(c, lines, (t + 1) as nat, n);
        if !c.nop(n) {
            lemma_between(c, i, t + 1, n);
        }
    }
    machine::lemma_after_removed(p, d, i + 1, end, st);
    assert forall|n: int| 0 <= n < c.len() && (n <= i || n > end) implies d.texts[n] == c.texts[n]
        && #[trigger] d.infos[n] == c.infos[n] by {
        lemma_removed(c, lines, (t + 1) as nat, n);
    }
    let text = line.skip(4);
    reveal_strlit("    j");
    reveal_strlit("    ");
    reveal_strlit("j");
    assert(line =~= "    "@ + text);
    assert(text[0] == 'j');
    equivalence::lemma_put_body(e, end, text);
}

/// The two branches, over the flags that each finds.
proof fn lemma_branches(c: Code, lines: Seq<usize>, cc: Seq<char>, t: int, f: Flags, g: Flags)
    requires
        compare_branch::fused_branch(c, lines) is Some,
        compare_branch::fused_branch(c, lines)->Some_0.0 == t,
        helpers::setcc_cond(c.body(lines[0] as int)) == Some(cc),
        helpers::condition(cc, f) is Some,
        g.zero == (result_of(cc, f) == 0),
    ensures
        ({
            let line = compare_branch::fused_branch(c, lines)->Some_0.1;
            let s = c.body(lines[t + 1] as int);
            &&& line.len() > 4
            &&& jump_taken(s, g) is Some
            &&& jump_taken(line.skip(4), f) == jump_taken(s, g)
            &&& jump_leads_to(line.skip(4)) == jump_leads_to(s)
        }),
{
    let line = compare_branch::fused_branch(c, lines)->Some_0.1;
    let s = c.body(lines[t + 1] as int);
    let (on_nonzero, target) = compare_branch::branch_on_zero(s)->0;
    let cond = compare_branch::fused_condition(cc, on_nonzero);
    compare_branch::law_fused_branch_is_taken_alike(cc, f, on_nonzero);
    reveal_strlit("    j");
    reveal_strlit("j");
    reveal_strlit(" ");
    reveal_strlit("jne ");
    reveal_strlit("je ");
    reveal_strlit("ne");
    reveal_strlit("e");
    assert(line.skip(4) =~= "j"@ + cond + " "@ + target);
    lemma_jump(cond, target, f);
    if on_nonzero {
        let rest = s.skip("jne "@.len() as int);
        assert(s =~= "jne "@ + rest);
        assert("jne "@ =~= "j"@ + "ne"@ + " "@);
        assert(s =~= "j"@ + "ne"@ + " "@ + rest);
        assert(helpers::condition("ne"@, g) == Some(!g.zero)) by {
            helpers::lemma_condition_names();
        }
        lemma_jump("ne"@, rest, g);
        equivalence::lemma_trim_twice(rest);
    } else {
        let rest = s.skip("je "@.len() as int);
        assert(s =~= "je "@ + rest);
        assert("je "@ =~= "j"@ + "e"@ + " "@);
        assert(s =~= "j"@ + "e"@ + " "@ + rest);
        lemma_jump("e"@, rest, g);
        equivalence::lemma_trim_twice(rest);
    }
}

// ── Slots ───────────────────────────────────────────────────────────────────

/// Line `n` loads a slot, or loaded it before it was removed.
pub open spec fn loads_slot(c: Code, n: int, slot: i32) -> bool {
    ||| c.kind(n) matches LineKind::LoadRbp { offset, .. } && offset == slot
    ||| c.nop(n) && (types::classified(c.texts[n]).kind matches LineKind::LoadRbp { offset, .. }
        && offset == slot)
}

proof fn lemma_loads(c: Code, from: int, to: int, found: Seq<i32>, x: i32)
    requires
        compare_branch::loads_between(c, from, to, found).contains(x),
    ensures
        found.contains(x) || exists|n: int| from <= n <= to && #[trigger] loads_slot(c, n, x),
    decreases to + 1 - from,
{
    if from <= to {
        match compare_branch::load_slot(c, from) {
            Some(offset) => {
                let next = if found.len() < compare_branch::MAX_TRACKED_STORE_LOAD_OFFSETS {
                    found.push(offset)
                } else {
                    found
                };
                lemma_loads(c, from + 1, to, next, x);
                if next.contains(x) && !found.contains(x) {
                    let k = choose|k: int| 0 <= k < next.len() && next[k] == x;
                    assert(k == found.len()) by {
                        if k < found.len() {
                            assert(found[k] == x);
                        }
                    }
                    assert(loads_slot(c, from, x));
                }
            },
            None => lemma_loads(c, from + 1, to, found, x),
        }
    }
}

proof fn lemma_stores(c: Code, lines: Seq<usize>, k: int, acc: Seq<i32>, j: int)
    requires
        compare_branch::find_test(c, lines, k, acc) is Some,
    ensures
        ({
            let (t, stores) = compare_branch::find_test(c, lines, k, acc)->0;
            &&& forall|x: i32| acc.contains(x) ==> #[trigger] stores.contains(x)
            &&& k <= j <= t && c.kind(lines[j] as int) is StoreRbp
                && !compare_branch::passes_flag_on(c.body(lines[j] as int)) ==> stores.contains(
                c.kind(lines[j] as int)->StoreRbp_offset,
            )
        }),
    decreases lines.len() - k,
{
    if 0 <= k < lines.len() {
        let l = lines[k] as int;
        if compare_branch::passes_flag_on(c.body(l)) {
            lemma_stores(c, lines, k + 1, acc, j);
        } else if c.kind(l) is StoreRbp {
            let x = c.kind(l)->StoreRbp_offset;
            let next = acc.push(x);
            lemma_stores(c, lines, k + 1, next, j);
            assert(next[acc.len() as int] == x);
            assert(next.contains(x));
            assert forall|y: i32| acc.contains(y) implies next.contains(y) by {
                let n = choose|n: int| 0 <= n < acc.len() && acc[n] == y;
                assert(next[n] == y);
            }
        } else if c.kind(l) is LoadRbp || compare_branch::widens_flag(c.body(l)) {
            lemma_stores(c, lines, k + 1, acc, j);
        }
    }
}

/// A store to the stack that goes with the result of a comparison is of a slot that one of
/// the lines between the comparison and the branch loads, or loaded before it was removed.
pub proof fn law_dropped_stores_were_loaded(c: Code, i: int, n: int)
    requires
        c.len() <= usize::MAX,
        0 <= i < c.len(),
        compare_branch::compare_at(c, i) is Some,
        i < n < compare_branch::compare_at(c, i)->Some_0.1 - 1,
        c.kind(n) is StoreRbp,
        !looks_widening(c.body(n)),
    ensures
        exists|m: int|
            i < m < compare_branch::compare_at(c, i)->Some_0.1 - 1 && #[trigger] loads_slot(
                c,
                m,
                c.kind(n)->StoreRbp_offset,
            ),
{
    let lines = helpers::live_lines(c, i + 1, 7);
    let (t, stores) = compare_branch::find_test(c, lines, 1, Seq::empty())->0;
    let x = c.kind(n)->StoreRbp_offset;
    lemma_found(c, lines, 1, Seq::empty());
    lemma_lines(c, i + 1, 7, 0);
    lemma_lines(c, i + 1, 7, t);
    lemma_between(c, i, t + 1, n);
    let j = choose|j: int| 0 <= j < t + 1 && #[trigger] lines[j] == n;
    lemma_stores(c, lines, 1, Seq::empty(), j);
    assert(stores.contains(x));
    let k = choose|k: int| 0 <= k < stores.len() && stores[k] == x;
    let all = compare_branch::loads_between(c, lines[0] as int, lines[t] as int, Seq::empty());
    assert(all.contains(stores[k]));
    lemma_loads(c, lines[0] as int, lines[t] as int, Seq::empty(), x);
    let m = choose|m: int| lines[0] <= m <= lines[t] && #[trigger] loads_slot(c, m, x);
    assert(loads_slot(c, m, x));
}

} // verus!
