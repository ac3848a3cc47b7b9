//! What is read from a line is what stands in it.

use vstd::prelude::*;

use super::address_folds;
use super::combined;
use super::compare_branch;
use super::equivalence;
use super::helpers;
use super::liveness;
use super::machine;
use super::narrow;
use super::routing;
use super::text;
use super::types;
use super::types::{Code, LineKind, MoveSize, RegId};

verus! {

/// The line is an instruction with two operands.
pub open spec fn two_operands(
    s: Seq<char>,
    op: Seq<char>,
    a: Seq<char>,
    sep: Seq<char>,
    b: Seq<char>,
) -> bool {
    s == op + a + sep + b
}

/// The operand is a register of the family, with white space around it or not.
pub open spec fn is_register(a: Seq<char>, reg: RegId) -> bool {
    types::family(text::trim(a)) == reg && reg < 16
}

proof fn lemma_after(s: Seq<char>, p: Seq<char>)
    ensures
        text::after(s, p) matches Some(r) ==> s == p + r,
{
    if text::after(s, p) is Some {
        assert(s =~= p + s.skip(p.len() as int));
    }
}

proof fn lemma_split(s: Seq<char>, p: Seq<char>)
    ensures
        text::split(s, p) matches Some((a, b)) ==> s == a + p + b,
{
    if let Some((a, b)) = text::split(s, p) {
        text::lemma_first_at(s, p, 0);
        assert(s =~= a + p + b);
    }
}

proof fn lemma_parts(s: Seq<char>, op: Seq<char>, sep: Seq<char>)
    ensures
        text::after(s, op) matches Some(rest) ==> (text::split(rest, sep) matches Some((a, b))
            ==> two_operands(s, op, a, sep, b)),
{
    lemma_after(s, op);
    if let Some(rest) = text::after(s, op) {
        lemma_split(rest, sep);
        if let Some((a, b)) = text::split(rest, sep) {
            assert(op + (a + sep + b) =~= op + a + sep + b);
        }
    }
}

/// The name of a test, in 64 bits or in 32.
pub open spec fn test_name(wide: bool) -> Seq<char> {
    if wide {
        "testq "@
    } else {
        "testl "@
    }
}

/// A test of a register is of that register with itself.
pub proof fn law_tests_are_of_one_register(s: Seq<char>)
    ensures
        compare_branch::test_self(s) matches Some(r) ==> exists|
            a: Seq<char>,
            b: Seq<char>,
            wide: bool,
        | #[trigger]
            two_operands(
                s,
                test_name(wide),
                a,
                ", "@,
                b,
            ) && is_register(a, r) && text::trim(a) == text::trim(b),
        narrow::tested_reg(s) matches Some(r) ==> exists|a: Seq<char>, b: Seq<char>| #[trigger]
            two_operands(s, "testq "@, a, ","@, b) && is_register(a, r) && text::trim(a)
                == text::trim(b),
{
    lemma_parts(s, "testl "@, ", "@);
    lemma_parts(s, "testq "@, ", "@);
    lemma_parts(s, "testq "@, ","@);
    if compare_branch::test_self(s) is Some {
        let rest = compare_branch::after_either(s, "testl "@, "testq "@)->0;
        let (a, b) = text::split(rest, ", "@)->0;
        let wide = !(text::after(s, "testl "@) is Some);
        assert(two_operands(s, test_name(wide), a, ", "@, b));
    }
    if narrow::tested_reg(s) is Some {
        let rest = text::after(s, "testq "@)->0;
        let (a, b) = text::split(rest, ","@)->0;
        assert(two_operands(s, "testq "@, a, ","@, b));
    }
}

/// A move between registers has the one as its first operand and the other as its second.
pub proof fn law_moves_are_from_the_first_operand(s: Seq<char>, kind: LineKind)
    ensures
        compare_branch::any_reg_mov(s) matches Some((x, y)) ==> exists|
            a: Seq<char>,
            b: Seq<char>,
            size: MoveSize,
        | #[trigger]
            two_operands(s, move_name(size), a, ", "@, b) && (size is Q || size is L)
                && is_register(a, x) && is_register(b, y),
        helpers::reg_move(kind, s) matches Some((x, y)) ==> x != y && x != 4 && x != 5 && y != 4 && y
            != 5 && exists|a: Seq<char>, b: Seq<char>| #[trigger]
            two_operands(s, "movq "@, a, ", "@, b) && is_register(a, x) && is_register(b, y),
        combined::movq_families(s) matches Some((x, y)) ==> x < 16 && y < 16 ==> exists|
            a: Seq<char>,
            b: Seq<char>,
        | #[trigger]
            two_operands(s, "movq "@, a, ","@, b) && is_register(a, x) && is_register(b, y),
        narrow::operand_families(s, "movslq "@) matches Some((x, y)) ==> x < 16 && y < 16
            ==> exists|a: Seq<char>, b: Seq<char>| #[trigger]
            two_operands(s, "movslq "@, a, ","@, b) && is_register(a, x) && is_register(b, y),
{
    lemma_parts(s, "movl "@, ", "@);
    lemma_parts(s, "movq "@, ", "@);
    lemma_parts(s, "movq "@, ","@);
    lemma_parts(s, "movslq "@, ","@);
    if compare_branch::any_reg_mov(s) is Some {
        let rest = compare_branch::after_either(s, "movl "@, "movq "@)->0;
        let (a, b) = text::split(rest, ", "@)->0;
        let size = if text::after(s, "movl "@) is Some {
            MoveSize::L
        } else {
            MoveSize::Q
        };
        assert(two_operands(s, move_name(size), a, ", "@, b));
    }
    if helpers::reg_move(kind, s) is Some {
        let (a, b) = text::split(text::after(s, "movq "@)->0, ", "@)->0;
        assert(two_operands(s, "movq "@, a, ", "@, b));
    }
    if combined::movq_families(s) is Some {
        let (a, b) = text::split(text::after(s, "movq "@)->0, ","@)->0;
        assert(two_operands(s, "movq "@, a, ","@, b));
    }
    if narrow::operand_families(s, "movslq "@) is Some {
        let (a, b) = text::split(text::after(s, "movslq "@)->0, ","@)->0;
        assert(two_operands(s, "movslq "@, a, ","@, b));
    }
}

/// The name of an instruction that masks by a number, in 64 bits or in 32.
pub open spec fn mask_name(wide: bool) -> Seq<char> {
    if wide {
        "andq $"@
    } else {
        "andl $"@
    }
}

/// A mask is of the register that is the second operand, by the number that is the first,
/// in 64 bits or in 32 by the name of the instruction.
pub proof fn law_masks_are_read_as_they_stand(s: Seq<char>)
    ensures
        compare_branch::and_imm(s) matches Some((imm, r, wide)) ==> exists|b: Seq<char>| #[trigger]
            two_operands(s, mask_name(wide), imm, ", "@, b) && is_register(b, r),
{
    lemma_parts(s, "andl $"@, ", "@);
    lemma_parts(s, "andq $"@, ", "@);
    if compare_branch::and_imm(s) is Some {
        let wide = !(text::after(s, "andl $"@) is Some);
        let rest = if wide {
            text::after(s, "andq $"@)->0
        } else {
            text::after(s, "andl $"@)->0
        };
        let (imm, b) = text::split(rest, ", "@)->0;
        let (i, r, w) = compare_branch::and_imm(s)->0;
        assert(i == imm && w == wide && is_register(b, r));
        assert(two_operands(s, mask_name(w), i, ", "@, b));
    }
}

/// An operation between registers has its name before the first blank, and the registers
/// as its operands.
pub proof fn law_operations_are_read_as_they_stand(s: Seq<char>)
    ensures
        routing::binop_regs(s) matches Some((op, x, y)) ==> exists|a: Seq<char>, b: Seq<char>|
            #[trigger]
            two_operands(s, op + " "@, a, ", "@, b) && is_register(a, x) && is_register(b, y),
{
    lemma_split(s, " "@);
    if routing::binop_regs(s) is Some {
        let (op, rest) = text::split(s, " "@)->0;
        lemma_split(rest, ", "@);
        let (a, b) = text::split(rest, ", "@)->0;
        assert(op + " "@ + (a + ", "@ + b) =~= op + " "@ + a + ", "@ + b);
        let (o, x, y) = routing::binop_regs(s)->0;
        assert(o == op && is_register(a, x) && is_register(b, y));
        assert(two_operands(s, o + " "@, a, ", "@, b));
    }
}

/// The address with two registers, put in a third.
pub open spec fn doubled(a: Seq<char>, b: Seq<char>, d: Seq<char>) -> Seq<char> {
    "leaq ("@ + a + ", "@ + b + ")"@ + ", "@ + d
}

/// The double of a register is the address with that register twice.
pub proof fn law_doubles_are_of_one_register(s: Seq<char>)
    ensures
        address_folds::leaq_double(s) matches Some((x, y)) ==> exists|
            a: Seq<char>,
            b: Seq<char>,
            d: Seq<char>,
        |
            s == #[trigger] doubled(a, b, d) && is_register(a, x) && text::trim(a) == text::trim(b)
                && is_register(d, y),
{
    lemma_after(s, "leaq ("@);
    if address_folds::leaq_double(s) is Some {
        let rest = text::after(s, "leaq ("@)->0;
        lemma_split(rest, ")"@);
        let (inner, tail) = text::split(rest, ")"@)->0;
        lemma_after(tail, ", "@);
        let d = text::after(tail, ", "@)->0;
        lemma_split(inner, ", "@);
        let (a, b) = text::split(inner, ", "@)->0;
        assert(s =~= doubled(a, b, d));
    }
}

/// The name of a move of this size.
pub open spec fn move_name(size: MoveSize) -> Seq<char> {
    match size {
        MoveSize::Q => "movq "@,
        MoveSize::L => "movl "@,
        MoveSize::W => "movw "@,
        MoveSize::B => "movb "@,
        MoveSize::SLQ => "movslq "@,
    }
}

/// The operand is the slot at this offset from the frame pointer.
pub open spec fn is_slot(a: Seq<char>, offset: i32) -> bool {
    exists|n: Seq<char>|
        text::trim(a) == #[trigger] (n + "(%rbp)"@) && if n.len() == 0 {
            offset == 0
        } else {
            text::integer(n) == Some(offset as int)
        }
}

/// Loads from the stack and stores to it are moves of their size, from the slot to the
/// register or the other way, and a move of a register to itself has it as both operands.
pub proof fn law_kinds_of_moves(s: Seq<char>)
    ensures
        match types::kind_of(s) {
            LineKind::StoreRbp { reg, offset, size } => exists|a: Seq<char>, b: Seq<char>|
                #[trigger]
                two_operands(s, move_name(size), a, ", "@, b) && types::family(text::trim(a)) == reg
                    && is_slot(b, offset) && !text::has(text::trim(a), "("@) && !(size is SLQ),
            LineKind::LoadRbp { reg, offset, size } => exists|a: Seq<char>, b: Seq<char>|
                #[trigger]
                two_operands(s, move_name(size), a, ", "@, b) && is_slot(a, offset)
                    && types::family(text::trim(b)) == reg,
            LineKind::SelfMove => exists|a: Seq<char>, b: Seq<char>, reg: RegId|
                #![trigger two_operands(s, "movq "@, a, ", "@, b), is_register(a, reg)]
                two_operands(s, "movq "@, a, ", "@, b) && text::trim(a) == text::trim(b)
                    && is_register(a, reg),
            _ => true,
        },
{
    if let Some((size, x, y)) = types::move_operands(s) {
        let op = move_name(size);
        lemma_parts(s, op, ", "@);
        let rest = text::after(s, op)->0;
        assert(text::after(s, op) is Some);
        let (a, b) = text::split(rest, ", "@)->0;
        assert(two_operands(s, op, a, ", "@, b));
        lemma_slot(a);
        lemma_slot(b);
        assert(is_register(a, types::family(x)) || types::family(x) >= 16);
    }
}

proof fn lemma_slot(a: Seq<char>)
    ensures
        types::rbp_slot(text::trim(a)) matches Some(o) ==> is_slot(a, o),
{
    let t = text::trim(a);
    if types::rbp_slot(t) is Some {
        let n = text::before(t, "(%rbp)"@)->0;
        assert(t =~= n + "(%rbp)"@);
        assert(text::trim(a) == n + "(%rbp)"@);
    }
}

/// Labels end with a colon, jumps start with `j` and calls with `call`, and of the kinds
/// that end a block of code there are no others.
pub proof fn law_kinds_of_control(s: Seq<char>)
    ensures
        s.len() > 0 && ":"@.is_suffix_of(s) <==> types::kind_of(s) is Label,
        types::kind_of(s) is Jmp ==> "jmp "@.is_prefix_of(s),
        types::kind_of(s) is CondJmp ==> "j"@.is_prefix_of(s) && !"jmp "@.is_prefix_of(s),
        types::kind_of(s) is Call ==> "call"@.is_prefix_of(s),
        types::kind_of(s) is Ret ==> s == "ret"@ || s == "retq"@,
        types::kind_of(s) is Other || types::kind_of(s) is StoreRbp || types::kind_of(s) is LoadRbp
            || types::kind_of(s) is SelfMove ==> !"j"@.is_prefix_of(s) && !"call"@.is_prefix_of(s)
            && s != "ret"@ && !"."@.is_prefix_of(s) && !":"@.is_suffix_of(s),
{
}

// ── Labels and jumps ────────────────────────────────────────────────────────

/// Line `m` is the first with the label `name`.
pub open spec fn is_first_label(c: Code, name: Seq<char>, m: int) -> bool {
    &&& 0 <= m < c.len()
    &&& c.kind(m) is Label
    &&& c.body(m) == name + ":"@
    &&& forall|n: int| 0 <= n < m && #[trigger] c.kind(n) is Label ==> c.body(n) != name + ":"@
}

/// A jump leads behind the first label that stands after its name, to the line that comes
/// next of those that are left.
pub proof fn law_jumps_lead_behind_labels(c: Code, s: Seq<char>)
    ensures
        liveness::jump_line(c, s) matches Some(k) ==> exists|
            op: Seq<char>,
            rest: Seq<char>,
            m: int,
        |
            s == #[trigger] (op + " "@ + rest) && #[trigger] is_first_label(c, text::trim(rest), m)
                && m < k <= c.len() && (k < c.len() ==> !c.nop(k)) && forall|n: int|
                m < n < k ==> #[trigger] c.nop(n),
{
    lemma_split(s, " "@);
    if liveness::jump_line(c, s) is Some {
        let (op, rest) = text::split(s, " "@)->0;
        let m = lemma_label(c, text::trim(rest), 0);
        assert(s == op + " "@ + rest);
        assert(is_first_label(c, text::trim(rest), m));
    }
}

proof fn lemma_label(c: Code, name: Seq<char>, i: int) -> (m: int)
    requires
        0 <= i,
        liveness::label_pos_from(c, name, i) is Some,
        forall|n: int| 0 <= n < i && #[trigger] c.kind(n) is Label ==> c.body(n) != name + ":"@,
    ensures
        is_first_label(c, name, m),
        ({
            let k = liveness::label_pos_from(c, name, i)->0;
            m < k <= c.len() && (k < c.len() ==> !c.nop(k)) && forall|n: int|
                m < n < k ==> #[trigger] c.nop(n)
        }),
    decreases c.len() - i,
{
    if c.kind(i) is Label && name.len() > 0 && c.body(i) == name + ":"@ {
        let k = c.live_from(i + 1);
        machine::lemma_live_bound(c, i + 1);
        if k < c.len() {
            machine::lemma_live_stops(c, i + 1);
        }
        assert forall|n: int| i < n < k implies #[trigger] c.nop(n) by {
            machine::lemma_up_to_live(c, i + 1, n);
        }
        i
    } else {
        if c.kind(i) is Label && c.body(i) == name + ":"@ {
            assert(name.len() == 0);
            lemma_empty_name(c, name, i);
        }
        lemma_label(c, name, i + 1)
    }
}

proof fn lemma_empty_name(c: Code, name: Seq<char>, i: int)
    requires
        name.len() == 0,
        0 <= i,
    ensures
        liveness::label_pos_from(c, name, i) is None,
    decreases c.len() - i,
{
    if i < c.len() {
        lemma_empty_name(c, name, i + 1);
    }
}

/// A label that some jump names may be reached, and any may where a jump goes through a
/// register or memory.
pub proof fn law_labels_of_jumps_are_reachable(c: Code, j: int, m: int)
    requires
        0 <= j < c.len(),
        0 <= m < c.len(),
        c.kind(m) is Label,
        c.kind(j) is JmpIndirect || ((c.kind(j) is Jmp || c.kind(j) is CondJmp)
            && helpers::jump_target(c.body(j)) is Some && c.body(m) == helpers::jump_target(
            c.body(j),
        )->0 + ":"@),
    ensures
        helpers::reachable_label(helpers::targets_of(c), c.body(m)),
{
    assert(c.infos[j] == c.infos[j] && c.infos[m] == c.infos[m]);
    if !(c.kind(j) is JmpIndirect) {
        let name = helpers::jump_target(c.body(j))->0;
        reveal_strlit(":");
        let s = c.body(m);
        assert(":"@.is_suffix_of(s)) by {
            assert(":"@ =~= s.subrange(s.len() - 1, s.len() as int));
        }
        assert(s.take(s.len() - 1) =~= name);
        assert(helpers::label_number(s) == helpers::dotl_number(name));
        assert(helpers::is_direct_jump(c, j));
    }
}

/// A call keeps five registers besides the stack and frame pointers, which moves are not
/// folded through.
pub proof fn law_registers_that_calls_keep(reg: RegId)
    requires
        reg < 16,
    ensures
        ({
            let name = types::reg_text(0, reg);
            &&& helpers::callee_saved(reg) <==> (name == "%rbx"@ || name == "%r12"@ || name
                == "%r13"@ || name == "%r14"@ || name == "%r15"@)
            &&& helpers::movable(reg) <==> name != "%rsp"@ && name != "%rbp"@
        }),
{
    equivalence::lemma_name(0, reg);
    equivalence::lemma_name(0, 3);
    equivalence::lemma_name(0, 4);
    equivalence::lemma_name(0, 5);
    equivalence::lemma_name(0, 12);
    equivalence::lemma_name(0, 13);
    equivalence::lemma_name(0, 14);
    equivalence::lemma_name(0, 15);
}

} // verus!
