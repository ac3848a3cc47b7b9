//! The ways through the code, and what the liveness scans say of them.

use vstd::prelude::*;

use super::address_folds;
use super::helpers;
use super::helpers::Targets;
use super::liveness;
use super::local_patterns;
use super::routing;
use super::types;
use super::types::{Code, LineKind, RegId};

verus! {

// ── Ways through the code ───────────────────────────────────────────────────

/// Can line `b` be executed next after line `a`?
pub open spec fn can_follow(c: Code, a: int, b: int) -> bool {
    if c.nop(a) {
        b == a + 1
    } else {
        match c.kind(a) {
            LineKind::Jmp => liveness::jump_line(c, c.body(a)) == Some(b),
            LineKind::CondJmp => b == a + 1 || liveness::jump_line(c, c.body(a)) == Some(b),
            LineKind::JmpIndirect => true,
            LineKind::Ret => false,
            _ => b == a + 1,
        }
    }
}

/// The lines of `p` are executed one after the other.
pub open spec fn is_path(c: Code, p: Seq<int>) -> bool {
    &&& forall|i: int| 0 <= i < p.len() ==> 0 <= #[trigger] p[i] < c.len()
    &&& forall|i: int| 0 < i < p.len() ==> can_follow(c, p[i - 1], #[trigger] p[i])
}

/// The instruction `s` overwrites the register without reading it: the register is its
/// last operand, is filled, and is neither named before it nor used implicitly. A call
/// overwrites the registers that it need not keep, unless `call_safe` asks to treat it as
/// a reader.
pub open spec fn overwrites_reg(s: Seq<char>, reg: RegId, call_safe: bool) -> bool {
    match types::kind_of(s) {
        LineKind::Label => false,
        LineKind::Jmp => false,
        LineKind::JmpIndirect => false,
        LineKind::CondJmp => false,
        LineKind::Ret => false,
        LineKind::Call => !call_safe && reg != 4 && reg != 5 && !helpers::callee_saved(reg),
        _ => helpers::dest_of(types::kind_of(s)) == reg && helpers::sets_anew(s, reg)
            && !helpers::implicit_reg(s, reg),
    }
}

/// The instruction `s` may read the register: it names it other than to overwrite it,
/// or uses it implicitly, it is a call that keeps it, a return of its value, or a jump
/// to a place that is not known.
pub open spec fn may_read_reg(s: Seq<char>, reg: RegId, call_safe: bool) -> bool {
    match types::kind_of(s) {
        LineKind::Label => false,
        LineKind::Jmp => false,
        LineKind::CondJmp => helpers::implicit_reg(s, reg),
        LineKind::JmpIndirect => true,
        LineKind::Ret => reg == 0,
        LineKind::Call => !overwrites_reg(s, reg, call_safe),
        _ => helpers::implicit_reg(s, reg) || (helpers::names_family(s, reg) && !overwrites_reg(
            s,
            reg,
            call_safe,
        )),
    }
}

/// Line `k` overwrites the register without reading it.
pub open spec fn overwrites(c: Code, reg: RegId, k: int, call_safe: bool) -> bool {
    !c.nop(k) && overwrites_reg(c.body(k), reg, call_safe)
}

/// Line `k` may read the register.
pub open spec fn may_read(c: Code, reg: RegId, k: int, call_safe: bool) -> bool {
    !c.nop(k) && may_read_reg(c.body(k), reg, call_safe)
}

/// A register that is found dead is on no path read before it is overwritten.
pub proof fn law_dead_register_is_not_read(
    c: Code,
    t: Option<Targets>,
    reg: RegId,
    left: int,
    depth: nat,
    call_safe: bool,
    p: Seq<int>,
    i: int,
)
    requires
        c.faithful(),
        is_path(c, p),
        p.len() > 0,
        liveness::reg_dead(c, t, reg, p[0], left, depth, call_safe),
        0 <= i < p.len(),
        may_read(c, reg, p[i], call_safe),
    ensures
        exists|j: int| 0 <= j < i && overwrites(c, reg, #[trigger] p[j], call_safe),
    decreases p.len(),
{
    let k = p[0];
    assert(0 <= p[0] < c.len());
    if !c.nop(k) {
        types::lemma_faithful_line(c, k);
    }
    if i == 0 {
        assert(false);
    } else if overwrites(c, reg, k, call_safe) {
        assert(overwrites(c, reg, p[0], call_safe));
    } else {
        let q = p.skip(1);
        assert(q[0] == p[1]);
        assert(can_follow(c, p[0], p[1]));
        assert forall|n: int| 0 < n < q.len() implies can_follow(c, q[n - 1], #[trigger] q[n]) by {
            assert(can_follow(c, p[n], p[n + 1]));
        }
        assert forall|n: int| 0 <= n < q.len() implies 0 <= #[trigger] q[n] < c.len() by {
            assert(0 <= p[n + 1] < c.len());
        }
        if c.nop(k) {
            law_dead_register_is_not_read(c, t, reg, left, depth, call_safe, q, i - 1);
        } else {
            match c.kind(k) {
                LineKind::Label => {
                    law_dead_register_is_not_read(c, t, reg, left, depth, call_safe, q, i - 1);
                },
                LineKind::Jmp => {
                    let d = (depth - 1) as nat;
                    law_dead_register_is_not_read(c, t, reg, 16, d, call_safe, q, i - 1);
                },
                LineKind::CondJmp => {
                    let d = (depth - 1) as nat;
                    if p[1] == k + 1 {
                        law_dead_register_is_not_read(c, t, reg, 16, depth, call_safe, q, i - 1);
                    } else {
                        law_dead_register_is_not_read(c, t, reg, 16, d, call_safe, q, i - 1);
                    }
                },
                LineKind::Call => {},
                _ => {
                    law_dead_register_is_not_read(c, t, reg, left - 1, depth, call_safe, q, i - 1);
                },
            }
        }
        let j = choose|j: int| 0 <= j < i - 1 && overwrites(c, reg, #[trigger] q[j], call_safe);
        assert(overwrites(c, reg, p[j + 1], call_safe));
    }
}

/// No path from line `k` on reads the register before it is overwritten.
pub open spec fn not_read_from(c: Code, reg: RegId, k: int, call_safe: bool) -> bool {
    forall|p: Seq<int>, i: int|
        #![trigger may_read(c, reg, p[i], call_safe)]
        is_path(c, p) && p.len() > 0 && p[0] == k && 0 <= i < p.len() && may_read(
            c,
            reg,
            p[i],
            call_safe,
        ) ==> exists|j: int| 0 <= j < i && overwrites(c, reg, #[trigger] p[j], call_safe)
}

pub proof fn lemma_dead_is_not_read(
    c: Code,
    t: Option<Targets>,
    reg: RegId,
    k: int,
    left: int,
    depth: nat,
    call_safe: bool,
)
    requires
        c.faithful(),
        liveness::reg_dead(c, t, reg, k, left, depth, call_safe),
    ensures
        not_read_from(c, reg, k, call_safe),
{
    assert forall|p: Seq<int>, i: int|
        #![trigger may_read(c, reg, p[i], call_safe)]
        is_path(c, p) && p.len() > 0 && p[0] == k && 0 <= i < p.len() && may_read(
            c,
            reg,
            p[i],
            call_safe,
        ) implies exists|j: int| 0 <= j < i && overwrites(c, reg, #[trigger] p[j], call_safe) by {
        law_dead_register_is_not_read(c, t, reg, left, depth, call_safe, p, i);
    }
}

/// The folds that drop the definition of a register do so only where nothing reads it
/// any more: of `%rax` behind a value from an XMM register, of a copied address, of
/// the temporary of an operation with swapped operands, of the register that a value
/// is routed through, and of the copy in which a register is changed.
pub proof fn law_folds_drop_registers_that_are_not_read(c: Code, t: Targets, i: int)
    requires
        c.faithful(),
    ensures
        local_patterns::xmm_at(c, i) is Some ==> not_read_from(c, 0, c.live_from(i + 1) + 1, false),
        address_folds::secondary_at(c, t, i) is Some ==> not_read_from(
            c,
            address_folds::foldable_move(c, i)->Some_0.1,
            c.live_from(i + 1) + 1,
            false,
        ),
        routing::commutative_at(c, t, i) is Some ==> not_read_from(
            c,
            address_folds::foldable_move(c, i)->Some_0.1,
            c.live_from(c.live_from(i + 1) + 1) + 1,
            false,
        ),
        routing::routing_at(c, t, i) is Some ==> not_read_from(
            c,
            helpers::dest_of(c.kind(i)),
            c.live_from(i + 1) + 1,
            false,
        ),
        routing::increment_at(c, t, i) is Some ==> not_read_from(
            c,
            helpers::reg_move(c.kind(i), c.body(i))->Some_0.1,
            c.live_from(c.live_from(i + 1) + 1) + 1,
            false,
        ),
{
    let j = c.live_from(i + 1);
    let k = c.live_from(j + 1);
    if local_patterns::xmm_at(c, i) is Some {
        lemma_dead_is_not_read(c, None, 0, j + 1, 16, 0, false);
    }
    if address_folds::secondary_at(c, t, i) is Some {
        let reg = address_folds::foldable_move(c, i)->Some_0.1;
        lemma_dead_is_not_read(c, Some(t), reg, j + 1, 24, 5, false);
    }
    if routing::commutative_at(c, t, i) is Some {
        let reg = address_folds::foldable_move(c, i)->Some_0.1;
        lemma_dead_is_not_read(c, Some(t), reg, k + 1, 24, 5, false);
    }
    if routing::routing_at(c, t, i) is Some {
        lemma_dead_is_not_read(c, Some(t), c.kind(i)->dest_reg, j + 1, 24, 5, false);
    }
    if routing::increment_at(c, t, i) is Some {
        let reg = helpers::reg_move(c.kind(i), c.body(i))->Some_0.1;
        lemma_dead_is_not_read(c, Some(t), reg, k + 1, 24, 5, false);
    }
}

// ── Flags ───────────────────────────────────────────────────────────────────

/// The instruction `s` may read the flags: it depends on a condition or on the carry,
/// saves the flags, or leaves this code.
pub open spec fn may_read_flags_of(s: Seq<char>) -> bool {
    match types::kind_of(s) {
        LineKind::Jmp => true,
        LineKind::JmpIndirect => true,
        LineKind::CondJmp => true,
        LineKind::Call => true,
        LineKind::Ret => true,
        LineKind::Directive => true,
        LineKind::SetCC { .. } => true,
        LineKind::Other { .. } => "cmov"@.is_prefix_of(s) || "adc"@.is_prefix_of(s)
            || "sbb"@.is_prefix_of(s) || "rcl"@.is_prefix_of(s) || "rcr"@.is_prefix_of(s)
            || "cmc"@.is_prefix_of(s) || "pushf"@.is_prefix_of(s) || "lahf"@.is_prefix_of(s)
            || "loop"@.is_prefix_of(s),
        _ => false,
    }
}

/// Line `k` may read the flags.
pub open spec fn may_read_flags(c: Code, k: int) -> bool {
    !c.nop(k) && may_read_flags_of(c.body(k))
}

/// Line `k` gives every flag a new value: it compares, it adds, subtracts, negates or
/// combines bits, or it shifts by a constant.
pub open spec fn overwrites_flags(c: Code, k: int) -> bool {
    !c.nop(k) && (types::kind_of(c.body(k)) is Cmp || liveness::sets_flags(c.body(k)))
}

proof fn lemma_prefix(p: Seq<char>, s: Seq<char>)
    ensures
        p.is_prefix_of(s) ==> p.len() <= s.len() && forall|i: int|
            0 <= i < p.len() ==> #[trigger] s[i] == p[i],
{
    if p.is_prefix_of(s) {
        assert forall|i: int| 0 <= i < p.len() implies #[trigger] s[i] == p[i] by {
            assert(p[i] == s.subrange(0, p.len() as int)[i]);
        }
    }
}

/// What leaves the flags alone does not read them.
proof fn lemma_keepers_do_not_read(s: Seq<char>)
    requires
        liveness::keeps_flags(s),
        types::kind_of(s) is Other || types::kind_of(s) is SetCC,
    ensures
        !may_read_flags_of(s),
{
    lemma_prefix("mov"@, s);
    lemma_prefix("lea"@, s);
    lemma_prefix("pushq "@, s);
    lemma_prefix("popq "@, s);
    if may_read_flags_of(s) {
        lemma_flag_readers(s);
    }
    reveal_strlit("mov");
    reveal_strlit("lea");
    reveal_strlit("pushq ");
    reveal_strlit("popq ");
    assert("mov"@[0] == 'm' && "lea"@[0] == 'l' && "lea"@[1] == 'e');
    assert("pushq "@[0] == 'p' && "pushq "@[4] == 'q' && "popq "@[0] == 'p' && "popq "@[1] == 'o');
}

/// What gives every flag a new value does not read them.
proof fn lemma_setters_do_not_read(s: Seq<char>)
    requires
        liveness::sets_flags(s),
        types::kind_of(s) is Other || types::kind_of(s) is SetCC,
    ensures
        !may_read_flags_of(s),
{
    if may_read_flags_of(s) {
        reveal(liveness::computes_flags);
        reveal(liveness::shifts_by_constant);
        lemma_flag_readers(s);
        lemma_prefix("shl"@, s);
        lemma_prefix("shr"@, s);
        lemma_prefix("sar"@, s);
        lemma_prefix("sal"@, s);
        reveal_strlit("shl");
        reveal_strlit("shr");
        reveal_strlit("sar");
        reveal_strlit("sal");
        assert("shl"@[0] == 's' && "shl"@[1] == 'h' && "shr"@[0] == 's' && "shr"@[1] == 'h');
        assert("sar"@[0] == 's' && "sar"@[1] == 'a' && "sal"@[0] == 's' && "sal"@[1] == 'a');
        lemma_prefix("addq "@, s);
        lemma_prefix("addl "@, s);
        lemma_prefix("addw "@, s);
        lemma_prefix("addb "@, s);
        lemma_prefix("subq "@, s);
        lemma_prefix("subl "@, s);
        lemma_prefix("subw "@, s);
        lemma_prefix("subb "@, s);
        lemma_prefix("andq "@, s);
        lemma_prefix("andl "@, s);
        lemma_prefix("andw "@, s);
        lemma_prefix("andb "@, s);
        lemma_prefix("orq "@, s);
        lemma_prefix("orl "@, s);
        lemma_prefix("orw "@, s);
        lemma_prefix("orb "@, s);
        lemma_prefix("xorq "@, s);
        lemma_prefix("xorl "@, s);
        lemma_prefix("xorw "@, s);
        lemma_prefix("xorb "@, s);
        lemma_prefix("negq "@, s);
        lemma_prefix("negl "@, s);
        lemma_prefix("negw "@, s);
        lemma_prefix("negb "@, s);
        lemma_flag_readers(s);
        reveal_strlit("addq ");
        reveal_strlit("addl ");
        reveal_strlit("addw ");
        reveal_strlit("addb ");
        reveal_strlit("subq ");
        reveal_strlit("subl ");
        reveal_strlit("subw ");
        reveal_strlit("subb ");
        reveal_strlit("andq ");
        reveal_strlit("andl ");
        reveal_strlit("andw ");
        reveal_strlit("andb ");
        reveal_strlit("orq ");
        reveal_strlit("orl ");
        reveal_strlit("orw ");
        reveal_strlit("orb ");
        reveal_strlit("xorq ");
        reveal_strlit("xorl ");
        reveal_strlit("xorw ");
        reveal_strlit("xorb ");
        reveal_strlit("negq ");
        reveal_strlit("negl ");
        reveal_strlit("negw ");
        reveal_strlit("negb ");
        assert("addq "@[0] == 'a' && "addq "@[1] == 'd' && "addq "@[2] == 'd');
        assert("addl "@[0] == 'a' && "addl "@[1] == 'd' && "addl "@[2] == 'd');
        assert("addw "@[0] == 'a' && "addw "@[1] == 'd' && "addw "@[2] == 'd');
        assert("addb "@[0] == 'a' && "addb "@[1] == 'd' && "addb "@[2] == 'd');
        assert("subq "@[0] == 's' && "subq "@[1] == 'u' && "subq "@[2] == 'b');
        assert("subl "@[0] == 's' && "subl "@[1] == 'u' && "subl "@[2] == 'b');
        assert("subw "@[0] == 's' && "subw "@[1] == 'u' && "subw "@[2] == 'b');
        assert("subb "@[0] == 's' && "subb "@[1] == 'u' && "subb "@[2] == 'b');
        assert("andq "@[0] == 'a' && "andq "@[1] == 'n' && "andq "@[2] == 'd');
        assert("andl "@[0] == 'a' && "andl "@[1] == 'n' && "andl "@[2] == 'd');
        assert("andw "@[0] == 'a' && "andw "@[1] == 'n' && "andw "@[2] == 'd');
        assert("andb "@[0] == 'a' && "andb "@[1] == 'n' && "andb "@[2] == 'd');
        assert("orq "@[0] == 'o' && "orq "@[1] == 'r' && "orq "@[2] == 'q');
        assert("orl "@[0] == 'o' && "orl "@[1] == 'r' && "orl "@[2] == 'l');
        assert("orw "@[0] == 'o' && "orw "@[1] == 'r' && "orw "@[2] == 'w');
        assert("orb "@[0] == 'o' && "orb "@[1] == 'r' && "orb "@[2] == 'b');
        assert("xorq "@[0] == 'x' && "xorq "@[1] == 'o' && "xorq "@[2] == 'r');
        assert("xorl "@[0] == 'x' && "xorl "@[1] == 'o' && "xorl "@[2] == 'r');
        assert("xorw "@[0] == 'x' && "xorw "@[1] == 'o' && "xorw "@[2] == 'r');
        assert("xorb "@[0] == 'x' && "xorb "@[1] == 'o' && "xorb "@[2] == 'r');
        assert("negq "@[0] == 'n' && "negq "@[1] == 'e' && "negq "@[2] == 'g');
        assert("negl "@[0] == 'n' && "negl "@[1] == 'e' && "negl "@[2] == 'g');
        assert("negw "@[0] == 'n' && "negw "@[1] == 'e' && "negw "@[2] == 'g');
        assert("negb "@[0] == 'n' && "negb "@[1] == 'e' && "negb "@[2] == 'g');
    }
}

/// How the instructions that read the flags begin.
proof fn lemma_flag_readers(s: Seq<char>)
    requires
        types::kind_of(s) is Other || types::kind_of(s) is SetCC,
        may_read_flags_of(s),
    ensures
        s.len() >= 3,
        s[0] == 'c' || (s[0] == 'a' && s[2] == 'c') || (s[0] == 's' && (s[1] == 'b' || s[1] == 'e')) || s[0] == 'r'
            || (s[0] == 'p' && s[1] == 'u' && s.len() >= 5 && s[4] == 'f') || (s[0] == 'l' && (s[1]
            == 'a' || s[1] == 'o')),
{
    lemma_prefix("cmov"@, s);
    lemma_prefix("adc"@, s);
    lemma_prefix("sbb"@, s);
    lemma_prefix("rcl"@, s);
    lemma_prefix("rcr"@, s);
    lemma_prefix("cmc"@, s);
    lemma_prefix("pushf"@, s);
    lemma_prefix("lahf"@, s);
    lemma_prefix("loop"@, s);
    lemma_prefix("set"@, s);
    reveal_strlit("set");
    assert("set"@[0] == 's' && "set"@[1] == 'e');
    reveal_strlit("cmov");
    reveal_strlit("adc");
    reveal_strlit("sbb");
    reveal_strlit("rcl");
    reveal_strlit("rcr");
    reveal_strlit("cmc");
    reveal_strlit("pushf");
    reveal_strlit("lahf");
    reveal_strlit("loop");
    assert("cmov"@[0] == 'c' && "adc"@[0] == 'a' && "adc"@[2] == 'c' && "sbb"@[0] == 's'
        && "sbb"@[1] == 'b' && "rcl"@[0] == 'r' && "rcr"@[0] == 'r' && "cmc"@[0] == 'c');
    assert("pushf"@[0] == 'p' && "pushf"@[1] == 'u' && "pushf"@[4] == 'f' && "lahf"@[0] == 'l'
        && "lahf"@[1] == 'a' && "loop"@[0] == 'l' && "loop"@[1] == 'o');
}

/// Flags that are found dead are on no path read before they are overwritten.
pub proof fn law_dead_flags_are_not_read(c: Code, end: int, p: Seq<int>, i: int)
    requires
        c.faithful(),
        is_path(c, p),
        p.len() > 0,
        liveness::flags_dead(c, p[0], end),
        0 <= i < p.len(),
        may_read_flags(c, p[i]),
    ensures
        exists|j: int| 0 <= j < i && overwrites_flags(c, #[trigger] p[j]),
    decreases p.len(),
{
    let k = p[0];
    assert(0 <= p[0] < c.len());
    if !c.nop(k) {
        types::lemma_faithful_line(c, k);
        if liveness::sets_flags(c.body(k)) && (c.kind(k) is Other || c.kind(k) is SetCC) && may_read_flags_of(c.body(k)) {
            lemma_setters_do_not_read(c.body(k));
        }
        if liveness::keeps_flags(c.body(k)) && (c.kind(k) is Other || c.kind(k) is SetCC) && may_read_flags_of(c.body(k)) {
            lemma_keepers_do_not_read(c.body(k));
        }
    }
    if i == 0 {
        assert(false);
    } else if overwrites_flags(c, k) {
        assert(overwrites_flags(c, p[0]));
    } else {
        let q = p.skip(1);
        assert(can_follow(c, p[0], p[1]));
        assert forall|n: int| 0 < n < q.len() implies can_follow(c, q[n - 1], #[trigger] q[n]) by {
            assert(can_follow(c, p[n], p[n + 1]));
        }
        assert forall|n: int| 0 <= n < q.len() implies 0 <= #[trigger] q[n] < c.len() by {
            assert(0 <= p[n + 1] < c.len());
        }
        assert(p[1] == k + 1);
        law_dead_flags_are_not_read(c, end, q, i - 1);
        let j = choose|j: int| 0 <= j < i - 1 && overwrites_flags(c, #[trigger] q[j]);
        assert(overwrites_flags(c, p[j + 1]));
    }
}

// ── 32-bit values ───────────────────────────────────────────────────────────

/// Line `j` makes the value of `reg` by a 32-bit instruction, which leaves the sign bit
/// clear if `positive` is set.
pub open spec fn makes_value(c: Code, j: int, reg: RegId, positive: bool) -> bool {
    !c.nop(j) && helpers::dest_of(c.kind(j)) == reg && !helpers::implicit_use(c.body(j)) && if positive {
        liveness::is_write31(c.body(j))
    } else {
        liveness::is_write32(c.body(j))
    }
}

/// Line `n` is straight-line code that neither has `reg` as its destination nor uses it
/// implicitly.
pub open spec fn leaves_value(c: Code, n: int, reg: RegId) -> bool {
    c.nop(n) || (!c.infos[n].barrier() && (c.kind(n) is StoreRbp || (helpers::dest_of(c.kind(n))
        != reg && !helpers::implicit_reg(c.body(n), reg))))
}

/// A value that is known to have 32 bits was made by a 32-bit instruction, in the
/// same straight-line code, and nothing since then has the register as its
/// destination or writes it implicitly.
pub proof fn law_known_32bit_value_was_made(
    c: Code,
    k: int,
    left: int,
    reg: RegId,
    positive: bool,
)
    requires
        liveness::known_value(c, k, left, reg, positive),
    ensures
        exists|j: int|
            0 <= j <= k && #[trigger] makes_value(c, j, reg, positive) && forall|n: int|
                j < n <= k ==> #[trigger] leaves_value(c, n, reg),
    decreases k + 1,
{
    if !c.nop(k) && !(c.kind(k) is StoreRbp) && helpers::dest_of(c.kind(k)) == reg {
        assert(makes_value(c, k, reg, positive));
    } else {
        let next = if c.nop(k) {
            left
        } else {
            left - 1
        };
        law_known_32bit_value_was_made(c, k - 1, next, reg, positive);
        let j = choose|j: int|
            0 <= j <= k - 1 && #[trigger] makes_value(c, j, reg, positive) && forall|n: int|
                j < n <= k - 1 ==> #[trigger] leaves_value(c, n, reg);
        assert(leaves_value(c, k, reg));
        assert(makes_value(c, j, reg, positive));
    }
}

} // verus!
