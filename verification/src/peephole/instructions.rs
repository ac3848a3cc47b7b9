//! What is told of instructions from their names: which registers they use without naming
//! them, what they do to the flags, and how much of a register they write.

use vstd::prelude::*;

use super::equivalence;
use super::helpers;
use super::liveness;
use super::text;
use super::types;
use super::types::{ExtKind, RegId};

verus! {

/// The instruction has this name, with one of the four suffixes for its size.
pub open spec fn named(s: Seq<char>, name: Seq<char>) -> bool {
    (name + "q "@).is_prefix_of(s) || (name + "l "@).is_prefix_of(s) || (name + "w "@).is_prefix_of(
        s,
    ) || (name + "b "@).is_prefix_of(s)
}

/// Multiplications and divisions of `%rax` and `%rdx` use both, and so do the extensions of
/// the one into the other. Those of `%rax` in place use it, and instructions on strings,
/// loops and system calls use the registers that they are made for.
pub proof fn law_registers_that_are_not_named(s: Seq<char>, reg: RegId)
    requires
        !helpers::implicit_reg(s, reg),
    ensures
        reg == 0 || reg == 2 ==> {
            &&& !named(s, "div"@) && !named(s, "idiv"@) && !named(s, "mul"@)
            &&& s != "cqto"@ && s != "cltd"@ && s != "cqo"@ && s != "cdq"@ && s != "cwtd"@ && s
                != "rdtsc"@
        },
        reg == 0 ==> s != "cltq"@ && s != "cwtl"@ && s != "cbtw"@ && s != "lahf"@ && s != "sahf"@,
        reg == 0 || reg == 1 || reg == 6 || reg == 7 ==> s != "rep movsb"@ && s != "rep stosq"@ && s
            != "movsb"@ && s != "stosb"@,
        reg <= 3 ==> s != "cpuid"@,
        reg == 1 || reg == 11 || reg == 0 || reg == 7 || reg == 6 || reg == 2 || reg == 10 || reg
            == 8 || reg == 9 ==> s != "syscall"@,
        reg == 4 || reg == 5 ==> s != "leave"@,
{
    reveal(helpers::uses_pair);
    reveal(helpers::uses_accumulator);
    reveal(helpers::uses_string);
    reveal(helpers::uses_several);
    reveal(helpers::uses_four);
    lemma_begins(s, "div"@);
    lemma_begins(s, "idiv"@);
    lemma_begins(s, "mul"@);
    lemma_itself("cqto"@);
    lemma_itself("cltd"@);
    lemma_itself("cqo"@);
    lemma_itself("cdq"@);
    lemma_itself("cwtd"@);
    lemma_itself("rdtsc"@);
    lemma_itself("cltq"@);
    lemma_itself("cwtl"@);
    lemma_itself("cbtw"@);
    lemma_itself("lahf"@);
    lemma_itself("sahf"@);
    lemma_itself("cpuid"@);
    lemma_itself("syscall"@);
    lemma_itself("leave"@);
    reveal_strlit("rep movsb");
    reveal_strlit("rep stosq");
    reveal_strlit("movsb");
    reveal_strlit("stosb");
    reveal_strlit("rep");
    reveal_strlit("stos");
    reveal_strlit("movs");
    reveal_strlit(" ");
    assert("rep"@ =~= "rep movsb"@.subrange(0, 3));
    assert("rep"@ =~= "rep stosq"@.subrange(0, 3));
    assert("stos"@ =~= "stosb"@.subrange(0, 4));
    assert("movs"@ =~= "movsb"@.subrange(0, 4));
    if s == "movsb"@ && text::has(s, " "@) {
        let i = choose|i: int| text::occurs_at(s, " "@, i);
        assert(s.subrange(i, i + 1)[0] == ' ');
    }
}

proof fn lemma_itself(a: Seq<char>)
    ensures
        a.is_prefix_of(a),
{
    assert(a =~= a.subrange(0, a.len() as int));
}

proof fn lemma_begins(s: Seq<char>, name: Seq<char>)
    ensures
        named(s, name) ==> name.is_prefix_of(s),
{
    reveal_strlit("q ");
    reveal_strlit("l ");
    reveal_strlit("w ");
    reveal_strlit("b ");
    lemma_first_part(s, name, "q "@);
    lemma_first_part(s, name, "l "@);
    lemma_first_part(s, name, "w "@);
    lemma_first_part(s, name, "b "@);
}

proof fn lemma_first_part(s: Seq<char>, a: Seq<char>, b: Seq<char>)
    ensures
        (a + b).is_prefix_of(s) ==> a.is_prefix_of(s),
{
    if (a + b).is_prefix_of(s) {
        assert forall|i: int| 0 <= i < a.len() implies s[i] == a[i] by {
            assert((a + b)[i] == s.subrange(0, (a + b).len() as int)[i]);
        }
        assert(a =~= s.subrange(0, a.len() as int));
    }
}

/// What leaves the flags alone is a move, a computation of an address, or works on the
/// stack: arithmetic, shifts, comparisons and tests do not.
pub proof fn law_arithmetic_does_not_keep_flags(s: Seq<char>)
    requires
        liveness::keeps_flags(s),
    ensures
        s.len() >= 3,
        (s[0] == 'm' && s[1] == 'o' && s[2] == 'v') || (s[0] == 'l' && s[1] == 'e' && s[2] == 'a')
            || (s[0] == 'p' && (s[1] == 'u' || s[1] == 'o')),
        !liveness::sets_flags(s),
{
    reveal_strlit("mov");
    reveal_strlit("lea");
    reveal_strlit("pushq ");
    reveal_strlit("popq ");
    lemma_chars("mov"@, s);
    lemma_chars("lea"@, s);
    lemma_chars("pushq "@, s);
    lemma_chars("popq "@, s);
    if liveness::sets_flags(s) {
        law_flags_are_set_by_arithmetic(s);
    }
}

proof fn lemma_chars(a: Seq<char>, s: Seq<char>)
    ensures
        a.is_prefix_of(s) ==> a.len() <= s.len() && forall|i: int|
            0 <= i < a.len() ==> #[trigger] s[i] == a[i],
{
    if a.is_prefix_of(s) {
        assert forall|i: int| 0 <= i < a.len() implies #[trigger] s[i] == a[i] by {
            assert(a[i] == s.subrange(0, a.len() as int)[i]);
        }
    }
}

/// Flags are given new values by sums, differences, combinations of bits and negation,
/// each with a size, and by shifts. What counts up or down leaves the carry as it is, a
/// complement and a rotation leave the zero flag, and none of them is told to.
pub proof fn law_flags_are_set_by_arithmetic(s: Seq<char>)
    requires
        liveness::sets_flags(s),
    ensures
        s.len() >= 3,
        ({
            let a = s[0];
            let b = s[1];
            let c = s[2];
            ||| a == 'a' && b == 'd' && c == 'd'
            ||| a == 's' && b == 'u' && c == 'b'
            ||| a == 'a' && b == 'n' && c == 'd'
            ||| a == 'o' && b == 'r' && (c == 'q' || c == 'l' || c == 'w' || c == 'b')
            ||| a == 'x' && b == 'o' && c == 'r'
            ||| a == 'n' && b == 'e' && c == 'g'
            ||| a == 's' && b == 'h' && (c == 'l' || c == 'r')
            ||| a == 's' && b == 'a' && (c == 'l' || c == 'r')
        }),
{
    reveal(liveness::computes_flags);
    reveal(liveness::shifts_by_constant);
    lemma_sized_chars("add"@, s);
    lemma_sized_chars("sub"@, s);
    lemma_sized_chars("and"@, s);
    lemma_sized_chars("or"@, s);
    lemma_sized_chars("xor"@, s);
    lemma_sized_chars("neg"@, s);
    reveal_strlit("add");
    reveal_strlit("sub");
    reveal_strlit("and");
    reveal_strlit("or");
    reveal_strlit("xor");
    reveal_strlit("neg");
    lemma_texts();
    reveal_strlit("shl");
    reveal_strlit("shr");
    reveal_strlit("sar");
    reveal_strlit("sal");
    lemma_chars("shl"@, s);
    lemma_chars("shr"@, s);
    lemma_chars("sar"@, s);
    lemma_chars("sal"@, s);
}

/// The first characters of an instruction with a size.
proof fn lemma_sized_chars(name: Seq<char>, s: Seq<char>)
    ensures
        named(s, name) ==> {
            &&& s.len() >= name.len() + 2
            &&& forall|i: int| 0 <= i < name.len() ==> #[trigger] s[i] == name[i]
            &&& (s[name.len() as int] == 'q' || s[name.len() as int] == 'l' || s[name.len() as int]
                == 'w' || s[name.len() as int] == 'b')
        },
{
    reveal_strlit("q ");
    reveal_strlit("l ");
    reveal_strlit("w ");
    reveal_strlit("b ");
    lemma_chars(name + "q "@, s);
    lemma_chars(name + "l "@, s);
    lemma_chars(name + "w "@, s);
    lemma_chars(name + "b "@, s);
    if named(s, name) {
        let n = name.len() as int;
        assert((name + "q "@)[n] == 'q' && (name + "l "@)[n] == 'l' && (name + "w "@)[n] == 'w' && (
        name + "b "@)[n] == 'b');
        assert forall|i: int| 0 <= i < name.len() implies #[trigger] s[i] == name[i] by {
            assert((name + "q "@)[i] == name[i] && (name + "l "@)[i] == name[i] && (name + "w "@)[i]
                == name[i] && (name + "b "@)[i] == name[i]);
        }
    }
}

proof fn lemma_texts()
    ensures
        "addq "@ == "add"@ + "q "@ && "addl "@ == "add"@ + "l "@ && "addw "@ == "add"@ + "w "@
            && "addb "@ == "add"@ + "b "@,
        "subq "@ == "sub"@ + "q "@ && "subl "@ == "sub"@ + "l "@ && "subw "@ == "sub"@ + "w "@
            && "subb "@ == "sub"@ + "b "@,
        "andq "@ == "and"@ + "q "@ && "andl "@ == "and"@ + "l "@ && "andw "@ == "and"@ + "w "@
            && "andb "@ == "and"@ + "b "@,
        "orq "@ == "or"@ + "q "@ && "orl "@ == "or"@ + "l "@ && "orw "@ == "or"@ + "w "@ && "orb "@
            == "or"@ + "b "@,
        "xorq "@ == "xor"@ + "q "@ && "xorl "@ == "xor"@ + "l "@ && "xorw "@ == "xor"@ + "w "@
            && "xorb "@ == "xor"@ + "b "@,
        "negq "@ == "neg"@ + "q "@ && "negl "@ == "neg"@ + "l "@ && "negw "@ == "neg"@ + "w "@
            && "negb "@ == "neg"@ + "b "@,
{
    reveal_strlit("q ");
    reveal_strlit("l ");
    reveal_strlit("w ");
    reveal_strlit("b ");
    reveal_strlit("add");
    reveal_strlit("sub");
    reveal_strlit("and");
    reveal_strlit("or");
    reveal_strlit("xor");
    reveal_strlit("neg");
    reveal_strlit("addq ");
    reveal_strlit("addl ");
    reveal_strlit("addw ");
    reveal_strlit("addb ");
    reveal_strlit("subq ");
    reveal_strlit("subl ");
    reveal_strlit("subw ");
    reveal_strlit("subb ");
    reveal_strlit("andq ");
    reveal_strlit("andl ");
    reveal_strlit("andw ");
    reveal_strlit("andb ");
    reveal_strlit("orq ");
    reveal_strlit("orl ");
    reveal_strlit("orw ");
    reveal_strlit("orb ");
    reveal_strlit("xorq ");
    reveal_strlit("xorl ");
    reveal_strlit("xorw ");
    reveal_strlit("xorb ");
    reveal_strlit("negq ");
    reveal_strlit("negl ");
    reveal_strlit("negw ");
    reveal_strlit("negb ");
    assert("addq "@ =~= "add"@ + "q "@);
    assert("addl "@ =~= "add"@ + "l "@);
    assert("addw "@ =~= "add"@ + "w "@);
    assert("addb "@ =~= "add"@ + "b "@);
    assert("subq "@ =~= "sub"@ + "q "@);
    assert("subl "@ =~= "sub"@ + "l "@);
    assert("subw "@ =~= "sub"@ + "w "@);
    assert("subb "@ =~= "sub"@ + "b "@);
    assert("andq "@ =~= "and"@ + "q "@);
    assert("andl "@ =~= "and"@ + "l "@);
    assert("andw "@ =~= "and"@ + "w "@);
    assert("andb "@ =~= "and"@ + "b "@);
    assert("orq "@ =~= "or"@ + "q "@);
    assert("orl "@ =~= "or"@ + "l "@);
    assert("orw "@ =~= "or"@ + "w "@);
    assert("orb "@ =~= "or"@ + "b "@);
    assert("xorq "@ =~= "xor"@ + "q "@);
    assert("xorl "@ =~= "xor"@ + "l "@);
    assert("xorw "@ =~= "xor"@ + "w "@);
    assert("xorb "@ =~= "xor"@ + "b "@);
    assert("negq "@ =~= "neg"@ + "q "@);
    assert("negl "@ =~= "neg"@ + "l "@);
    assert("negw "@ =~= "neg"@ + "w "@);
    assert("negb "@ =~= "neg"@ + "b "@);
}

// ── Sizes ───────────────────────────────────────────────────────────────────

/// The name of the instruction ends before position `n`.
pub open spec fn name_ends(s: Seq<char>, n: int) -> bool {
    &&& 1 <= n < s.len()
    &&& s[n] == ' '
    &&& forall|i: int| 0 <= i < n ==> #[trigger] s[i] != ' '
}

proof fn lemma_name(s: Seq<char>, p: Seq<char>)
    requires
        p.is_prefix_of(s),
        p.len() >= 2,
        p.last() == ' ',
        forall|i: int| 0 <= i < p.len() - 1 ==> #[trigger] p[i] != ' ',
    ensures
        name_ends(s, p.len() - 1),
        s[p.len() - 2] == p[p.len() - 2],
{
    lemma_chars(p, s);
}

/// What is told to clear the upper half of its destination is of 32 bits by its name.
pub proof fn law_narrow_writes_are_of_32_bits(s: Seq<char>)
    requires
        liveness::is_write32(s),
    ensures
        exists|n: int| #[trigger] name_ends(s, n) && s[n - 1] == 'l',
{
    reveal(liveness::is_write32);
    reveal_strlit("andl ");
    assert("andl "@.last() == ' ' && "andl "@[3] == 'l');
    if "andl "@.is_prefix_of(s) {
        lemma_name(s, "andl "@);
        assert(name_ends(s, 4));
    }
    reveal_strlit("addl ");
    assert("addl "@.last() == ' ' && "addl "@[3] == 'l');
    if "addl "@.is_prefix_of(s) {
        lemma_name(s, "addl "@);
        assert(name_ends(s, 4));
    }
    reveal_strlit("subl ");
    assert("subl "@.last() == ' ' && "subl "@[3] == 'l');
    if "subl "@.is_prefix_of(s) {
        lemma_name(s, "subl "@);
        assert(name_ends(s, 4));
    }
    reveal_strlit("orl ");
    assert("orl "@.last() == ' ' && "orl "@[2] == 'l');
    if "orl "@.is_prefix_of(s) {
        lemma_name(s, "orl "@);
        assert(name_ends(s, 3));
    }
    reveal_strlit("xorl ");
    assert("xorl "@.last() == ' ' && "xorl "@[3] == 'l');
    if "xorl "@.is_prefix_of(s) {
        lemma_name(s, "xorl "@);
        assert(name_ends(s, 4));
    }
    reveal_strlit("shll ");
    assert("shll "@.last() == ' ' && "shll "@[3] == 'l');
    if "shll "@.is_prefix_of(s) {
        lemma_name(s, "shll "@);
        assert(name_ends(s, 4));
    }
    reveal_strlit("shrl ");
    assert("shrl "@.last() == ' ' && "shrl "@[3] == 'l');
    if "shrl "@.is_prefix_of(s) {
        lemma_name(s, "shrl "@);
        assert(name_ends(s, 4));
    }
    reveal_strlit("sarl ");
    assert("sarl "@.last() == ' ' && "sarl "@[3] == 'l');
    if "sarl "@.is_prefix_of(s) {
        lemma_name(s, "sarl "@);
        assert(name_ends(s, 4));
    }
    reveal_strlit("imull ");
    assert("imull "@.last() == ' ' && "imull "@[4] == 'l');
    if "imull "@.is_prefix_of(s) {
        lemma_name(s, "imull "@);
        assert(name_ends(s, 5));
    }
    reveal_strlit("movl ");
    assert("movl "@.last() == ' ' && "movl "@[3] == 'l');
    if "movl "@.is_prefix_of(s) {
        lemma_name(s, "movl "@);
        assert(name_ends(s, 4));
    }
    reveal_strlit("movzbl ");
    assert("movzbl "@.last() == ' ' && "movzbl "@[5] == 'l');
    if "movzbl "@.is_prefix_of(s) {
        lemma_name(s, "movzbl "@);
        assert(name_ends(s, 6));
    }
    reveal_strlit("movzwl ");
    assert("movzwl "@.last() == ' ' && "movzwl "@[5] == 'l');
    if "movzwl "@.is_prefix_of(s) {
        lemma_name(s, "movzwl "@);
        assert(name_ends(s, 6));
    }
}

/// What leaves 31 bits leaves 32.
pub proof fn law_positive_writes_are_of_32_bits(s: Seq<char>)
    requires
        liveness::is_write31(s),
    ensures
        liveness::is_write32(s),
{
    reveal(liveness::is_write31);
    reveal(liveness::is_write32);
    reveal_strlit("andl $");
    reveal_strlit("movl $");
    reveal_strlit("shrl $");
    reveal_strlit("andl ");
    reveal_strlit("movl ");
    reveal_strlit("shrl ");
    reveal_strlit("$");
    assert("andl $"@ =~= "andl "@ + "$"@);
    assert("movl $"@ =~= "movl "@ + "$"@);
    assert("shrl $"@ =~= "shrl "@ + "$"@);
    lemma_first_part(s, "andl "@, "$"@);
    lemma_first_part(s, "movl "@, "$"@);
    lemma_first_part(s, "shrl "@, "$"@);
}

/// A constant or a mask that is told to leave 31 bits is itself of 31 bits, and so is a
/// shift that drops at least the sign.
pub proof fn law_positive_numbers(s: Seq<char>, op: Seq<char>, n: int, rest: Seq<char>)
    requires
        liveness::is_write31(s),
        op == "andl $"@ || op == "movl $"@ || op == "shrl $"@,
        text::after(s, op) == Some(rest),
        liveness::first_number(rest) == Some(n),
    ensures
        op == "shrl $"@ ==> 1 <= n <= 31,
        op != "shrl $"@ ==> 0 <= n <= 0x7FFF_FFFF,
{
    reveal(liveness::is_write31);
    reveal_strlit("andl $");
    reveal_strlit("movl $");
    reveal_strlit("shrl $");
    reveal_strlit("movzbl ");
    reveal_strlit("movzwl ");
    reveal_strlit("xorl ");
    lemma_chars("andl $"@, s);
    lemma_chars("movl $"@, s);
    lemma_chars("shrl $"@, s);
    lemma_chars("movzbl "@, s);
    lemma_chars("movzwl "@, s);
    lemma_chars("xorl "@, s);
    assert("andl $"@[0] == 'a' && "movl $"@[0] == 'm' && "shrl $"@[0] == 's' && "xorl "@[0] == 'x');
    assert("movl $"@[3] == 'l' && "movzbl "@[3] == 'z' && "movzwl "@[3] == 'z');
}

/// What is told to fill a register is a move or the computation of an address, of 32 or
/// 64 bits by its name: a register is not filled by a byte or a word, nor by arithmetic.
pub proof fn law_registers_are_filled_by_moves(s: Seq<char>)
    requires
        helpers::fills_register(s),
    ensures
        liveness::keeps_flags(s),
        "movabs"@.is_prefix_of(s) || exists|n: int| #[trigger]
            name_ends(s, n) && (s[n - 1] == 'l' || s[n - 1] == 'q'),
{
    reveal(helpers::fills_register);
    reveal_strlit("movq ");
    assert("movq "@.last() == ' ' && "movq "@[3] == 'q');
    if "movq "@.is_prefix_of(s) {
        lemma_name(s, "movq "@);
        assert(name_ends(s, 4));
    }
    reveal_strlit("movl ");
    assert("movl "@.last() == ' ' && "movl "@[3] == 'l');
    if "movl "@.is_prefix_of(s) {
        lemma_name(s, "movl "@);
        assert(name_ends(s, 4));
    }
    reveal_strlit("movzbl ");
    assert("movzbl "@.last() == ' ' && "movzbl "@[5] == 'l');
    if "movzbl "@.is_prefix_of(s) {
        lemma_name(s, "movzbl "@);
        assert(name_ends(s, 6));
    }
    reveal_strlit("movzbq ");
    assert("movzbq "@.last() == ' ' && "movzbq "@[5] == 'q');
    if "movzbq "@.is_prefix_of(s) {
        lemma_name(s, "movzbq "@);
        assert(name_ends(s, 6));
    }
    reveal_strlit("movzwl ");
    assert("movzwl "@.last() == ' ' && "movzwl "@[5] == 'l');
    if "movzwl "@.is_prefix_of(s) {
        lemma_name(s, "movzwl "@);
        assert(name_ends(s, 6));
    }
    reveal_strlit("movzwq ");
    assert("movzwq "@.last() == ' ' && "movzwq "@[5] == 'q');
    if "movzwq "@.is_prefix_of(s) {
        lemma_name(s, "movzwq "@);
        assert(name_ends(s, 6));
    }
    reveal_strlit("movslq ");
    assert("movslq "@.last() == ' ' && "movslq "@[5] == 'q');
    if "movslq "@.is_prefix_of(s) {
        lemma_name(s, "movslq "@);
        assert(name_ends(s, 6));
    }
    reveal_strlit("movsbq ");
    assert("movsbq "@.last() == ' ' && "movsbq "@[5] == 'q');
    if "movsbq "@.is_prefix_of(s) {
        lemma_name(s, "movsbq "@);
        assert(name_ends(s, 6));
    }
    reveal_strlit("movsbl ");
    assert("movsbl "@.last() == ' ' && "movsbl "@[5] == 'l');
    if "movsbl "@.is_prefix_of(s) {
        lemma_name(s, "movsbl "@);
        assert(name_ends(s, 6));
    }
    reveal_strlit("leaq ");
    assert("leaq "@.last() == ' ' && "leaq "@[3] == 'q');
    if "leaq "@.is_prefix_of(s) {
        lemma_name(s, "leaq "@);
        assert(name_ends(s, 4));
    }
    reveal_strlit("leal ");
    assert("leal "@.last() == ' ' && "leal "@[3] == 'l');
    if "leal "@.is_prefix_of(s) {
        lemma_name(s, "leal "@);
        assert(name_ends(s, 4));
    }
    reveal_strlit("movabs");
    reveal_strlit("mov");
    reveal_strlit("lea");
    lemma_chars("movq "@, s);
    lemma_chars("movl "@, s);
    lemma_chars("movzbl "@, s);
    lemma_chars("movzbq "@, s);
    lemma_chars("movzwl "@, s);
    lemma_chars("movzwq "@, s);
    lemma_chars("movslq "@, s);
    lemma_chars("movsbq "@, s);
    lemma_chars("movsbl "@, s);
    lemma_chars("leaq "@, s);
    lemma_chars("leal "@, s);
    lemma_chars("movabs"@, s);
    assert("mov"@.is_prefix_of(s) || "lea"@.is_prefix_of(s)) by {
        if s[0] == 'm' {
            assert("mov"@ =~= s.subrange(0, 3));
        } else {
            assert("lea"@ =~= s.subrange(0, 3));
        }
    }
}

/// The part that an instruction plays in extensions is told from its name and its last
/// operand, and the extensions of `%rax` in place from the whole text.
pub proof fn law_parts_in_extensions(s: Seq<char>)
    ensures
        match types::ext_of(s) {
            ExtKind::MovzbqAlRax => s == "movzbq %al, %rax"@,
            ExtKind::MovzwqAxRax => s == "movzwq %ax, %rax"@,
            ExtKind::MovsbqAlRax => s == "movsbq %al, %rax"@,
            ExtKind::MovslqEaxRax => s == "movslq %eax, %rax"@,
            ExtKind::MovlEaxEax => s == "movl %eax, %eax"@,
            ExtKind::Cltq => s == "cltq"@,
            ExtKind::ProducerDiv32 => "divl "@.is_prefix_of(s) || "idivl "@.is_prefix_of(s),
            ExtKind::ProducerMovzbqToRax => "movzbq "@.is_prefix_of(s) && ", %rax"@.is_suffix_of(s),
            ExtKind::ProducerMovzwqToRax => "movzwq "@.is_prefix_of(s) && ", %rax"@.is_suffix_of(s),
            ExtKind::ProducerMovsbqToRax => "movsbq "@.is_prefix_of(s) && ", %rax"@.is_suffix_of(s),
            ExtKind::ProducerMovslqToRax => "movslq "@.is_prefix_of(s) && ", %rax"@.is_suffix_of(s),
            ExtKind::ProducerMovqMemToRax => "movq "@.is_prefix_of(s) && ", %rax"@.is_suffix_of(s)
                && text::has(s, "("@),
            ExtKind::ProducerMovqRegToRax => "movq %"@.is_prefix_of(s) && ", %rax"@.is_suffix_of(s),
            ExtKind::ProducerMovlToEax => "movl "@.is_prefix_of(s) && ", %eax"@.is_suffix_of(s),
            ExtKind::ProducerMovzbToEax => "movzbl "@.is_prefix_of(s) && ", %eax"@.is_suffix_of(s),
            ExtKind::ProducerMovzwToEax => "movzwl "@.is_prefix_of(s) && ", %eax"@.is_suffix_of(s),
            ExtKind::ProducerArith32 => "%eax"@.is_suffix_of(s) && exists|n: int| #[trigger]
                name_ends(s, n) && s[n - 1] == 'l',
            _ => true,
        },
{
    if types::is_arith32(s) {
        reveal_strlit("addl ");
        assert("addl "@.last() == ' ' && "addl "@[3] == 'l');
        if "addl "@.is_prefix_of(s) {
            lemma_name(s, "addl "@);
            assert(name_ends(s, 4));
        }
        reveal_strlit("subl ");
        assert("subl "@.last() == ' ' && "subl "@[3] == 'l');
        if "subl "@.is_prefix_of(s) {
            lemma_name(s, "subl "@);
            assert(name_ends(s, 4));
        }
        reveal_strlit("imull ");
        assert("imull "@.last() == ' ' && "imull "@[4] == 'l');
        if "imull "@.is_prefix_of(s) {
            lemma_name(s, "imull "@);
            assert(name_ends(s, 5));
        }
        reveal_strlit("andl ");
        assert("andl "@.last() == ' ' && "andl "@[3] == 'l');
        if "andl "@.is_prefix_of(s) {
            lemma_name(s, "andl "@);
            assert(name_ends(s, 4));
        }
        reveal_strlit("orl ");
        assert("orl "@.last() == ' ' && "orl "@[2] == 'l');
        if "orl "@.is_prefix_of(s) {
            lemma_name(s, "orl "@);
            assert(name_ends(s, 3));
        }
        reveal_strlit("xorl ");
        assert("xorl "@.last() == ' ' && "xorl "@[3] == 'l');
        if "xorl "@.is_prefix_of(s) {
            lemma_name(s, "xorl "@);
            assert(name_ends(s, 4));
        }
        reveal_strlit("shll ");
        assert("shll "@.last() == ' ' && "shll "@[3] == 'l');
        if "shll "@.is_prefix_of(s) {
            lemma_name(s, "shll "@);
            assert(name_ends(s, 4));
        }
        reveal_strlit("shrl ");
        assert("shrl "@.last() == ' ' && "shrl "@[3] == 'l');
        if "shrl "@.is_prefix_of(s) {
            lemma_name(s, "shrl "@);
            assert(name_ends(s, 4));
        }
        reveal_strlit("sarl ");
        assert("sarl "@.last() == ' ' && "sarl "@[3] == 'l');
        if "sarl "@.is_prefix_of(s) {
            lemma_name(s, "sarl "@);
            assert(name_ends(s, 4));
        }
        reveal_strlit("negl ");
        assert("negl "@.last() == ' ' && "negl "@[3] == 'l');
        if "negl "@.is_prefix_of(s) {
            lemma_name(s, "negl "@);
            assert(name_ends(s, 4));
        }
        reveal_strlit("notl ");
        assert("notl "@.last() == ' ' && "notl "@[3] == 'l');
        if "notl "@.is_prefix_of(s) {
            lemma_name(s, "notl "@);
            assert(name_ends(s, 4));
        }
    }
}

// ── Operands ────────────────────────────────────────────────────────────────

/// What is told to give its last operand a value that does not depend on the one it had
/// fills it, and does not name the register before its last comma. Clearing `%rax` does
/// so too.
pub proof fn law_new_values_do_not_depend_on_old(s: Seq<char>, reg: RegId)
    requires
        helpers::sets_anew(s, reg),
    ensures
        s == "xorl %eax, %eax"@ || (helpers::fills_register(s) && exists|
            a: Seq<char>,
            b: Seq<char>,
        |
            s == #[trigger] (a + ", "@ + b) && !helpers::names_family(a, reg) && !text::has(
                b,
                ", "@,
            )),
{
    let sep = ", "@;
    if s != "xorl %eax, %eax"@ {
        let (a, b) = text::rsplit(s, sep)->0;
        let n = s.len() - sep.len();
        lemma_last(s, sep, n);
        let k = text::last_at(s, sep, n)->0;
        reveal_strlit(", ");
        assert(s =~= a + sep + b);
        if text::has(b, sep) {
            let i = choose|i: int| text::occurs_at(b, sep, i);
            assert(b.subrange(i, i + 2) =~= s.subrange(k + 2 + i, k + 4 + i));
            assert(text::occurs_at(s, sep, k + 2 + i));
        }
    }
}

proof fn lemma_last(s: Seq<char>, p: Seq<char>, i: int)
    requires
        i <= s.len() - p.len(),
    ensures
        text::last_at(s, p, i) matches Some(k) ==> {
            &&& text::occurs_at(s, p, k)
            &&& 0 <= k <= i
            &&& forall|j: int| k < j <= i ==> !text::occurs_at(s, p, j)
        },
    decreases i + 1,
{
    if i >= 0 && !text::occurs_at(s, p, i) {
        lemma_last(s, p, i - 1);
    }
}

/// A register is named by a text if and only if a percent sign and a name of it stand
/// somewhere in the text.
pub proof fn law_registers_are_named_after_a_percent_sign(s: Seq<char>, reg: RegId)
    requires
        reg < 16,
    ensures
        helpers::names_family(s, reg) <==> exists|i: int|
            0 <= i < s.len() && s[i] == '%' && types::family_of_name(#[trigger] s.skip(i + 1)) == reg,
{
    lemma_named_from(s, 0, reg);
}

proof fn lemma_named_from(s: Seq<char>, i: int, reg: RegId)
    requires
        reg < 16,
        0 <= i,
    ensures
        types::refs_from(s, i) & (1u16 << reg) != 0 <==> exists|k: int|
            i <= k < s.len() && s[k] == '%' && types::family_of_name(#[trigger] s.skip(k + 1))
                == reg,
    decreases s.len() - i,
{
    let all = types::refs_from(s, i);
    let later = types::refs_from(s, i + 1);
    let f = types::family_of_name(s.skip(i + 1));
    assert(0u16 & (1u16 << reg) == 0 && (reg < 16 && f < 16 ==> ((later | (1u16 << f)) & (1u16 << reg)
        != 0 <==> (later & (1u16 << reg) != 0 || f == reg)))) by (bit_vector);
    if i < s.len() {
        lemma_named_from(s, i + 1, reg);
        if s[i] == '%' && f == reg {
            assert(types::family_of_name(s.skip(i + 1)) == reg);
        }
        if exists|k: int|
            i <= k < s.len() && s[k] == '%' && types::family_of_name(#[trigger] s.skip(k + 1))
                == reg {
            let k = choose|k: int|
                i <= k < s.len() && s[k] == '%' && types::family_of_name(#[trigger] s.skip(k + 1))
                    == reg;
            if k > i {
                assert(types::family_of_name(s.skip(k + 1)) == reg);
            }
        }
    }
}

/// Each register is known by its four names, and no two have a name in common.
pub proof fn law_registers_are_known_by_their_names(
    size: usize,
    reg: RegId,
    other_size: usize,
    other: RegId,
)
    requires
        size < 4,
        other_size < 4,
        reg < 16,
        other < 16,
    ensures
        types::family(types::reg_text(size, reg)) == reg,
        types::reg_text(size, reg) == types::reg_text(other_size, other) ==> reg == other,
{
    lemma_known(size, reg);
    lemma_known(other_size, other);
}

proof fn lemma_known(size: usize, reg: RegId)
    requires
        size < 4,
        reg < 16,
    ensures
        types::family(types::reg_text(size, reg)) == reg,
{
    if size < 2 {
        equivalence::lemma_name(size, reg);
    } else if size == 2 {
        equivalence::lemma_names_16(reg);
    } else {
        equivalence::lemma_names_8(reg);
    }
}

} // verus!
