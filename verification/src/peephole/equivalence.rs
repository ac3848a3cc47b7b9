//! What single instructions do to the registers, and that the folds of moves and
//! arithmetic keep it.

use vstd::prelude::*;

use super::address_folds;
use super::helpers;
use super::helpers::Targets;
use super::narrow;
use super::routing;
use super::text;
use super::types;
use super::types::{Code, RegId};

verus! {

// ── Instructions ────────────────────────────────────────────────────────────

/// An integer in 64 bits.
pub open spec fn wrap(n: int) -> u64 {
    (n % 0x1_0000_0000_0000_0000) as u64
}

/// The opcode and the two operands of an instruction.
pub open spec fn parsed(s: Seq<char>) -> Option<(Seq<char>, Seq<char>, Seq<char>)> {
    match text::split(s, " "@) {
        Some((op, rest)) => match text::split(rest, ", "@) {
            Some((a, b)) => Some((op, a, b)),
            None => None,
        },
        None => None,
    }
}

/// What an operand is worth: an immediate, a general-purpose register, or something
/// that does not depend on those. Operands in memory are not followed.
pub open spec fn worth(
    a: Seq<char>,
    regs: Seq<u64>,
    other: spec_fn(Seq<char>) -> u64,
) -> Option<u64> {
    if text::has(a, "("@) {
        None
    } else if a.len() > 0 && a[0] == '$' {
        match text::integer(text::trim(a.skip(1))) {
            Some(n) => Some(wrap(n)),
            None => Some(other(a)),
        }
    } else if types::gp(types::family(text::trim(a))) {
        Some(regs[types::family(text::trim(a)) as int])
    } else {
        Some(other(a))
    }
}

/// The low half of a register.
pub open spec fn low(a: u64) -> u32 {
    (a % 0x1_0000_0000) as u32
}

/// What an operation leaves in its destination, which held `old`.
pub open spec fn result(op: Seq<char>, v: u64, old: u64) -> Option<u64> {
    if op == "movq"@ {
        Some(v)
    } else if op == "addq"@ {
        Some(wrap(v + old))
    } else if op == "subq"@ {
        Some(wrap(old - v))
    } else if op == "imulq"@ {
        Some(wrap(v * old))
    } else if op == "orq"@ {
        Some(v | old)
    } else if op == "xorq"@ {
        Some(v ^ old)
    } else if op == "andq"@ {
        Some(v & old)
    } else if op == "addl"@ {
        Some(low(wrap(low(v) + low(old))) as u64)
    } else if op == "imull"@ {
        Some(low(wrap(low(v) * low(old))) as u64)
    } else if op == "orl"@ {
        Some((low(v) | low(old)) as u64)
    } else if op == "xorl"@ {
        Some((low(v) ^ low(old)) as u64)
    } else if op == "andl"@ {
        Some((low(v) & low(old)) as u64)
    } else {
        None
    }
}

/// The address that `DISP(%BASE)` or `DISP(%BASE, %INDEX)` stands for, and what comes
/// after it.
pub open spec fn address(s: Seq<char>, regs: Seq<u64>) -> Option<(u64, Seq<char>)> {
    match text::split(s, "("@) {
        Some((disp, tail)) => match text::split(tail, ")"@) {
            Some((inner, rest)) => {
                let n = if disp.len() == 0 {
                    Some(0int)
                } else {
                    text::integer(disp)
                };
                let base = match text::split(inner, ", "@) {
                    Some((x, y)) => if types::gp(types::family(x)) && types::gp(
                        types::family(y),
                    ) {
                        Some(regs[types::family(x) as int] + regs[types::family(y) as int])
                    } else {
                        None
                    },
                    None => if types::gp(types::family(inner)) {
                        Some(regs[types::family(inner) as int] as int)
                    } else {
                        None
                    },
                };
                match (n, base) {
                    (Some(n), Some(b)) => Some((wrap(b + n), rest)),
                    _ => None,
                }
            },
            None => None,
        },
        None => None,
    }
}

/// The registers after an address computation.
pub open spec fn after_lea(rest: Seq<char>, regs: Seq<u64>) -> Option<Seq<u64>> {
    match address(rest, regs) {
        Some((v, more)) => match text::after(more, ", "@) {
            Some(b) => if types::gp(types::family(text::trim(b))) {
                Some(regs.update(types::family(text::trim(b)) as int, v))
            } else {
                None
            },
            None => None,
        },
        None => None,
    }
}

/// The registers after an instruction, if it is one that is followed: a move, an
/// operation on a register, or an address computation.
pub open spec fn effect(
    s: Seq<char>,
    regs: Seq<u64>,
    other: spec_fn(Seq<char>) -> u64,
) -> Option<Seq<u64>> {
    if "leaq "@.is_prefix_of(s) {
        after_lea(s.skip(5), regs)
    } else {
        match parsed(s) {
            Some((op, a, b)) => {
                let d = types::family(text::trim(b));
                if types::gp(d) && !text::has(b, "("@) {
                    match worth(a, regs, other) {
                        Some(v) => match result(op, v, regs[d as int]) {
                            Some(w) => Some(regs.update(d as int, w)),
                            None => None,
                        },
                        None => None,
                    }
                } else {
                    None
                }
            },
            None => None,
        }
    }
}

/// The registers after another instruction.
pub open spec fn followed_by(
    r: Option<Seq<u64>>,
    s: Seq<char>,
    other: spec_fn(Seq<char>) -> u64,
) -> Option<Seq<u64>> {
    match r {
        Some(regs) => effect(s, regs, other),
        None => None,
    }
}

/// The same registers but for one.
pub open spec fn same_but(a: Seq<u64>, b: Seq<u64>, reg: RegId) -> bool {
    &&& a.len() == b.len()
    &&& forall|r: int| 0 <= r < a.len() && r != reg ==> #[trigger] a[r] == b[r]
}

// ── Texts ───────────────────────────────────────────────────────────────────

/// A separator is found where it was put, if what comes before does not hold its
/// first character.
pub proof fn lemma_split_at(a: Seq<char>, sep: Seq<char>, b: Seq<char>)
    requires
        sep.len() > 0,
        forall|k: int| 0 <= k < a.len() ==> #[trigger] a[k] != sep[0],
    ensures
        text::split(a + sep + b, sep) == Some((a, b)),
{
    let whole = a + sep + b;
    let n = a.len() as int;
    assert(whole.subrange(n, n + sep.len()) =~= sep);
    assert(text::occurs_at(whole, sep, n));
    text::lemma_first_at(whole, sep, 0);
    assert forall|j: int| 0 <= j < n implies !text::occurs_at(whole, sep, j) by {
        if text::occurs_at(whole, sep, j) {
            assert(whole.subrange(j, j + sep.len())[0] == whole[j]);
            assert(whole[j] == a[j]);
        }
    }
    assert(text::first_at(whole, sep, 0) == Some(n));
    assert(whole.take(n) =~= a);
    assert(whole.skip(n + sep.len()) =~= b);
}

/// A comma is found where it was put, if there is none before it.
proof fn lemma_split_comma(a: Seq<char>, b: Seq<char>)
    requires
        text::first_at(a, ", "@, 0) is None,
    ensures
        text::split(a + ", "@ + b, ", "@) == Some((a, b)),
{
    reveal_strlit(", ");
    let sep = ", "@;
    let whole = a + sep + b;
    let n = a.len() as int;
    assert(whole.subrange(n, n + 2) =~= sep);
    assert(text::occurs_at(whole, sep, n));
    text::lemma_first_at(whole, sep, 0);
    text::lemma_first_at(a, sep, 0);
    assert forall|j: int| 0 <= j < n implies !text::occurs_at(whole, sep, j) by {
        if text::occurs_at(whole, sep, j) {
            let part = whole.subrange(j, j + 2);
            assert(part[0] == ',' && part[1] == ' ');
            if j + 2 <= n {
                assert(a.subrange(j, j + 2) =~= part);
                assert(text::occurs_at(a, sep, j));
            } else {
                assert(part[1] == whole[n] && whole[n] == ',');
            }
        }
    }
    assert(text::first_at(whole, sep, 0) == Some(n));
    assert(whole.take(n) =~= a);
    assert(whole.skip(n + 2) =~= b);
}

/// What comes before the first comma holds none.
proof fn lemma_before_comma(s: Seq<char>)
    ensures
        text::split(s, ", "@) matches Some((a, b)) ==> text::first_at(a, ", "@, 0) is None && s == a
            + ", "@ + b,
{
    reveal_strlit(", ");
    let sep = ", "@;
    text::lemma_first_at(s, sep, 0);
    if let Some((a, b)) = text::split(s, sep) {
        let k = text::first_at(s, sep, 0)->0;
        text::lemma_first_at(a, sep, 0);
        if let Some(j) = text::first_at(a, sep, 0) {
            assert(s.subrange(j, j + 2) =~= a.subrange(j, j + 2));
            assert(text::occurs_at(s, sep, j));
            assert(j < k);
        }
        assert(s.subrange(k, k + 2) =~= sep);
        assert(s =~= a + sep + b);
    }
}

/// An immediate without its `$` is split off where the whole is.
proof fn lemma_dollar_split(t: Seq<char>)
    ensures
        text::split(t, ", "@) matches Some((a, b)) ==> text::split("$"@ + t, ", "@) == Some(
            ("$"@ + a, b),
        ),
{
    if let Some((a, b)) = text::split(t, ", "@) {
        lemma_before_comma(t);
        reveal_strlit("$");
        reveal_strlit(", ");
        let x = "$"@ + a;
        text::lemma_first_at(x, ", "@, 0);
        text::lemma_first_at(a, ", "@, 0);
        if let Some(j) = text::first_at(x, ", "@, 0) {
            assert(x.subrange(j, j + 2)[0] == x[j]);
            assert(j > 0);
            assert(a.subrange(j - 1, j + 1) =~= x.subrange(j, j + 2));
            assert(text::occurs_at(a, ", "@, j - 1));
        }
        lemma_split_comma(x, b);
        assert("$"@ + t =~= x + ", "@ + b);
    }
}

/// No blanks, commas, percent signs or parentheses.
pub open spec fn bare(s: Seq<char>) -> bool {
    forall|k: int|
        0 <= k < s.len() ==> (#[trigger] s[k]) != ' ' && s[k] != ',' && s[k] != '(' && s[k] != ')'
            && s[k] != '%'
}

/// The name of a register: a percent sign and letters or digits.
pub proof fn lemma_name(size: usize, fam: RegId)
    requires
        size < 2,
        fam < 16,
    ensures
        types::reg_text(size, fam).len() >= 3,
        types::reg_text(size, fam)[0] == '%',
        bare(types::reg_text(size, fam).skip(1)),
        forall|k: int|
            1 <= k < types::reg_text(size, fam).len() ==> helpers::is_name_char(
                #[trigger] types::reg_text(size, fam)[k],
            ),
        types::family(types::reg_text(size, fam)) == fam,
        text::trim(types::reg_text(size, fam)) == types::reg_text(size, fam),
        !text::has(types::reg_text(size, fam), "("@),
{
    let t = types::reg_text(size, fam);
    if size == 0 {
        lemma_names_64(fam);
    } else {
        lemma_names_32(fam);
    }
    assert(t.skip(1).len() == t.len() - 1);
    assert forall|k: int| 0 <= k < t.skip(1).len() implies (#[trigger] t.skip(1)[k]) != ' '
        && t.skip(1)[k] != ',' && t.skip(1)[k] != '(' && t.skip(1)[k] != ')' && t.skip(1)[k]
        != '%' by {
        assert(t.skip(1)[k] == t[k + 1]);
        assert(helpers::is_name_char(t[k + 1]));
    }
    assert(helpers::is_name_char(t[t.len() - 1]));
    assert(!text::is_space(t[0]) && !text::is_space(t.last()));
    if text::has(t, "("@) {
        reveal_strlit("(");
        let j = choose|j: int| text::occurs_at(t, "("@, j);
        assert(text::occurs_at(t, "("@, j));
        assert(t.subrange(j, j + 1)[0] == t[j]);
        if j > 0 {
            assert(helpers::is_name_char(t[j]));
        }
    }
}

proof fn lemma_names_64(fam: RegId)
    requires
        fam < 16,
    ensures
        types::reg_text(0, fam).len() >= 3,
        types::reg_text(0, fam)[0] == '%',
        forall|k: int|
            1 <= k < types::reg_text(0, fam).len() ==> helpers::is_name_char(
                #[trigger] types::reg_text(0, fam)[k],
            ),
        types::family(types::reg_text(0, fam)) == fam,
{
    reveal_strlit("%rax");
    reveal_strlit("%rcx");
    reveal_strlit("%rdx");
    reveal_strlit("%rbx");
    reveal_strlit("%rsp");
    reveal_strlit("%rbp");
    reveal_strlit("%rsi");
    reveal_strlit("%rdi");
    reveal_strlit("%r8");
    reveal_strlit("%r9");
    reveal_strlit("%r10");
    reveal_strlit("%r11");
    reveal_strlit("%r12");
    reveal_strlit("%r13");
    reveal_strlit("%r14");
    reveal_strlit("%r15");
    let t = types::reg_text(0, fam);
    assert(t.skip(1)[0] == t[1] && t.skip(1)[1] == t[2]);
    if t.len() > 3 {
        assert(t.skip(1)[2] == t[3]);
    }
}

proof fn lemma_names_32(fam: RegId)
    requires
        fam < 16,
    ensures
        types::reg_text(1, fam).len() >= 3,
        types::reg_text(1, fam)[0] == '%',
        forall|k: int|
            1 <= k < types::reg_text(1, fam).len() ==> helpers::is_name_char(
                #[trigger] types::reg_text(1, fam)[k],
            ),
        types::family(types::reg_text(1, fam)) == fam,
{
    reveal_strlit("%eax");
    reveal_strlit("%ecx");
    reveal_strlit("%edx");
    reveal_strlit("%ebx");
    reveal_strlit("%esp");
    reveal_strlit("%ebp");
    reveal_strlit("%esi");
    reveal_strlit("%edi");
    reveal_strlit("%r8d");
    reveal_strlit("%r9d");
    reveal_strlit("%r10d");
    reveal_strlit("%r11d");
    reveal_strlit("%r12d");
    reveal_strlit("%r13d");
    reveal_strlit("%r14d");
    reveal_strlit("%r15d");
    let t = types::reg_text(1, fam);
    assert(t.skip(1)[0] == t[1] && t.skip(1)[1] == t[2] && t.skip(1)[2] == t[3]);
}

/// The opcode is what comes before the first blank.
proof fn lemma_opcode(op: Seq<char>, rest: Seq<char>)
    requires
        forall|k: int| 0 <= k < op.len() ==> #[trigger] op[k] != ' ',
    ensures
        text::split(op + " "@ + rest, " "@) == Some((op, rest)),
{
    reveal_strlit(" ");
    lemma_split_at(op, " "@, rest);
}

/// An instruction that starts with a known opcode.
proof fn lemma_known_opcode(s: Seq<char>)
    ensures
        text::after(s, "movq "@) matches Some(rest) ==> text::split(s, " "@) == Some(
            ("movq"@, rest),
        ) && !"leaq "@.is_prefix_of(s),
        text::after(s, "addq "@) matches Some(rest) ==> text::split(s, " "@) == Some(
            ("addq"@, rest),
        ) && !"leaq "@.is_prefix_of(s),
        text::after(s, "addq $"@) matches Some(rest) ==> text::split(s, " "@) == Some(
            ("addq"@, "$"@ + rest),
        ) && !"leaq "@.is_prefix_of(s),
        text::after(s, "subq $"@) matches Some(rest) ==> text::split(s, " "@) == Some(
            ("subq"@, "$"@ + rest),
        ) && !"leaq "@.is_prefix_of(s),
{
    reveal_strlit("movq ");
    reveal_strlit("addq ");
    reveal_strlit("leaq ");
    reveal_strlit("movq");
    reveal_strlit("addq");
    reveal_strlit("subq");
    reveal_strlit("addq $");
    reveal_strlit("subq $");
    reveal_strlit(" ");
    reveal_strlit("$");
    if "leaq "@.is_prefix_of(s) {
        assert(s.subrange(0, 5)[0] == 'l');
        assert(s[0] == 'l');
    }
    if let Some(rest) = text::after(s, "movq "@) {
        assert(s.subrange(0, 5) =~= "movq "@);
        assert(s[0] == s.subrange(0, 5)[0]);
        assert("movq "@ =~= "movq"@ + " "@);
        assert(s =~= "movq "@ + rest);
        lemma_opcode("movq"@, rest);
    }
    if let Some(rest) = text::after(s, "addq "@) {
        assert(s.subrange(0, 5) =~= "addq "@);
        assert(s[0] == s.subrange(0, 5)[0]);
        assert("addq "@ =~= "addq"@ + " "@);
        assert(s =~= "addq "@ + rest);
        lemma_opcode("addq"@, rest);
    }
    if let Some(rest) = text::after(s, "addq $"@) {
        assert(s.subrange(0, 6) =~= "addq $"@);
        assert(s[0] == s.subrange(0, 6)[0]);
        assert("addq $"@ =~= "addq"@ + " "@ + "$"@);
        assert(s =~= "addq $"@ + rest);
        assert(s =~= "addq"@ + " "@ + ("$"@ + rest));
        lemma_opcode("addq"@, "$"@ + rest);
    }
    if let Some(rest) = text::after(s, "subq $"@) {
        assert(s.subrange(0, 6) =~= "subq $"@);
        assert(s[0] == s.subrange(0, 6)[0]);
        assert("subq $"@ =~= "subq"@ + " "@ + "$"@);
        assert(s =~= "subq $"@ + rest);
        assert(s =~= "subq"@ + " "@ + ("$"@ + rest));
        lemma_opcode("subq"@, "$"@ + rest);
    }
}

/// The line that was put is read back without its indent.
pub proof fn lemma_put_body(c: Code, i: int, x: Seq<char>)
    requires
        0 <= i < c.texts.len(),
        c.texts.len() == c.infos.len(),
        x.len() > 0,
        x[0] != ' ' && x[0] != '\t',
    ensures
        c.put(i, "    "@ + x).body(i) == x,
{
    reveal_strlit("    ");
    let line = "    "@ + x;
    assert(line.skip(1).skip(1).skip(1).skip(1) =~= x);
    assert(line[0] == ' ' && line.skip(1)[0] == ' ' && line.skip(1).skip(1)[0] == ' '
        && line.skip(1).skip(1).skip(1)[0] == ' ');
    reveal_with_fuel(types::blanks, 6);
    assert(types::blanks(line) == 4);
    assert(line.skip(4) =~= x);
}

/// Integers of 64 bits are read back from their decimal form.
proof fn lemma_integer_of_decimal(n: int)
    requires
        i64::MIN <= n <= i64::MAX,
    ensures
        text::integer(text::decimal(n)) == Some(n),
        text::decimal(n).len() > 0,
        bare(text::decimal(n)),
{
    let s = text::decimal(n);
    if n < 0 {
        text::lemma_digits_read_back((-n) as nat);
        let d = text::digits((-n) as nat);
        assert(s.skip(1) =~= d);
        assert forall|k: int| 0 <= k < s.len() implies (#[trigger] s[k]) != ' ' && s[k] != ','
            && s[k] != '(' && s[k] != ')' && s[k] != '%' by {
            if k > 0 {
                assert(s[k] == d[k - 1]);
                assert(text::is_digit(d[k - 1]));
            }
        }
    } else {
        text::lemma_digits_read_back(n as nat);
        assert(text::is_digit(s[0]));
        assert forall|k: int| 0 <= k < s.len() implies (#[trigger] s[k]) != ' ' && s[k] != ','
            && s[k] != '(' && s[k] != ')' && s[k] != '%' by {
            assert(text::is_digit(s[k]));
        }
    }
}

// ── Folds into an address computation ───────────────────────────────────────

/// What a move between registers does.
proof fn lemma_move_effect(
    c: Code,
    i: int,
    regs: Seq<u64>,
    other: spec_fn(Seq<char>) -> u64,
)
    requires
        helpers::reg_move(c.kind(i), c.body(i)) is Some,
        effect(c.body(i), regs, other) is Some,
    ensures
        ({
            let (src, dst) = helpers::reg_move(c.kind(i), c.body(i))->0;
            effect(c.body(i), regs, other) == Some(regs.update(dst as int, regs[src as int]))
        }),
{
    let s = c.body(i);
    lemma_known_opcode(s);
    let rest = text::after(s, "movq "@)->0;
    let (a, b) = text::split(rest, ", "@)->0;
    assert(parsed(s) == Some(("movq"@, a, b)));
    reveal_strlit("movq");
    if a.len() > 0 && a[0] == '$' {
        lemma_trim_start(a);
    }
}

/// Trimming keeps a first character that is no white space.
proof fn lemma_trim_start(a: Seq<char>)
    requires
        a.len() > 0,
        !text::is_space(a[0]),
    ensures
        text::trim(a).len() > 0,
        text::trim(a)[0] == a[0],
    decreases a.len(),
{
    assert(text::trim_left(a) == a);
    if text::is_space(a.last()) {
        let b = a.drop_last();
        assert(b.len() > 0);
        assert(b[0] == a[0]);
        lemma_trim_start(b);
        assert(text::trim_left(b) == b);
    }
}

/// The address computation for a sum of a register with itself.
proof fn lemma_double_effect(a: RegId, b: RegId, regs: Seq<u64>, other: spec_fn(Seq<char>) -> u64)
    requires
        a < 16,
        b < 16,
        regs.len() == 16,
    ensures
        ({
            let x = types::reg_text(0, a);
            let s = "leaq ("@ + x + ", "@ + x + "), "@ + types::reg_text(0, b);
            effect(s, regs, other) == Some(
                regs.update(b as int, wrap(regs[a as int] + regs[a as int])),
            )
        }),
{
    reveal_strlit("leaq (");
    reveal_strlit("leaq ");
    reveal_strlit(", ");
    reveal_strlit("), ");
    reveal_strlit("(");
    reveal_strlit(")");
    let x = types::reg_text(0, a);
    let y = types::reg_text(0, b);
    lemma_name(0, a);
    lemma_name(0, b);
    let s = "leaq ("@ + x + ", "@ + x + "), "@ + y;
    let inner = x + ", "@ + x;
    let tail = inner + ")"@ + (", "@ + y);
    let none = Seq::<char>::empty();
    assert(s.subrange(0, 5) =~= "leaq "@);
    assert(s.skip(5) =~= none + "("@ + tail);
    lemma_split_at(none, "("@, tail);
    assert forall|k: int| 0 <= k < inner.len() implies #[trigger] inner[k] != ')' by {
        if 0 < k < x.len() {
            assert(inner[k] == x.skip(1)[k - 1]);
        } else if k > x.len() + 2 {
            assert(inner[k] == x.skip(1)[k - x.len() - 3]);
        }
    }
    lemma_split_at(inner, ")"@, ", "@ + y);
    assert forall|k: int| 0 <= k < x.len() implies #[trigger] x[k] != ',' by {
        if k > 0 {
            assert(x[k] == x.skip(1)[k - 1]);
        }
    }
    lemma_split_at(x, ", "@, x);
    let more = ", "@ + y;
    assert(more.subrange(0, 2) =~= ", "@);
    assert(more.skip(2) =~= y);
}

/// The address computation for a sum with an immediate.
proof fn lemma_offset_effect(
    n: int,
    a: RegId,
    b: RegId,
    regs: Seq<u64>,
    other: spec_fn(Seq<char>) -> u64,
)
    requires
        i64::MIN <= n <= i64::MAX,
        a < 16,
        b < 16,
        regs.len() == 16,
    ensures
        ({
            let s = "leaq "@ + text::decimal(n) + "("@ + types::reg_text(0, a) + "), "@
                + types::reg_text(0, b);
            effect(s, regs, other) == Some(regs.update(b as int, wrap(regs[a as int] + n)))
        }),
{
    reveal_strlit("leaq ");
    reveal_strlit(", ");
    reveal_strlit("), ");
    reveal_strlit("(");
    reveal_strlit(")");
    let x = types::reg_text(0, a);
    let y = types::reg_text(0, b);
    let d = text::decimal(n);
    lemma_name(0, a);
    lemma_name(0, b);
    lemma_integer_of_decimal(n);
    let s = "leaq "@ + d + "("@ + x + "), "@ + y;
    let tail = x + ")"@ + (", "@ + y);
    assert(s.subrange(0, 5) =~= "leaq "@);
    assert(s.skip(5) =~= d + "("@ + tail);
    lemma_split_at(d, "("@, tail);
    assert forall|k: int| 0 <= k < x.len() implies #[trigger] x[k] != ')' && x[k] != ',' by {
        if k > 0 {
            assert(x[k] == x.skip(1)[k - 1]);
        }
    }
    lemma_split_at(x, ")"@, ", "@ + y);
    text::lemma_first_at(x, ", "@, 0);
    if let Some(j) = text::first_at(x, ", "@, 0) {
        assert(x.subrange(j, j + 2)[0] == x[j]);
    }
    let more = ", "@ + y;
    assert(more.subrange(0, 2) =~= ", "@);
    assert(more.skip(2) =~= y);
}

/// A doubled copy is the same sum, however it is computed: where the two lines that
/// are folded are followed, the line in their place leaves the same registers.
pub proof fn law_double_keeps_registers(
    c: Code,
    i: int,
    regs: Seq<u64>,
    other: spec_fn(Seq<char>) -> u64,
)
    requires
        c.wf(),
        0 <= i < c.len(),
        address_folds::double_at(c, i) is Some,
        regs.len() == 16,
        followed_by(
            effect(c.body(i), regs, other),
            c.body(c.live_from(i + 1)),
            other,
        ) is Some,
    ensures
        ({
            let j = c.live_from(i + 1);
            effect((address_folds::double_at(c, i)->Some_0.0).body(j), regs, other) == followed_by(
                effect(c.body(i), regs, other),
                c.body(j),
                other,
            )
        }),
{
    let j = c.live_from(i + 1);
    lemma_live_after(c, i + 1);
    let (a, b) = address_folds::foldable_move(c, i)->0;
    lemma_move_effect(c, i, regs, other);
    let mid = regs.update(b as int, regs[a as int]);
    let s = c.body(j);
    lemma_known_opcode(s);
    let rest = text::after(s, "addq "@)->0;
    let (x, y) = text::split(rest, ", "@)->0;
    reveal_strlit("addq");
    reveal_strlit("movq");
    assert("addq"@[0] == 'a' && "movq"@[0] == 'm');
    if x.len() > 0 && x[0] == '$' {
        lemma_trim_start(x);
    }
    assert(effect(s, mid, other) == Some(
        mid.update(b as int, wrap(mid[a as int] + mid[b as int])),
    ));
    let line = "leaq ("@ + types::reg_text(0, a) + ", "@ + types::reg_text(0, a) + "), "@
        + types::reg_text(0, b);
    reveal_strlit("leaq (");
    reveal_strlit("    leaq (");
    reveal_strlit("    ");
    assert("    leaq ("@ + types::reg_text(0, a) + ", "@ + types::reg_text(0, a) + "), "@
        + types::reg_text(0, b) =~= "    "@ + line);
    lemma_put_body(c.remove(i), j, line);
    lemma_double_effect(a, b, regs, other);
    assert(mid.update(b as int, wrap(regs[a as int] + regs[a as int])) =~= regs.update(
        b as int,
        wrap(regs[a as int] + regs[a as int]),
    ));
}

/// The first line that was not removed comes no earlier.
pub proof fn lemma_live_after(c: Code, i: int)
    requires
        0 <= i,
    ensures
        c.live_from(i) >= i,
    decreases c.len() - i,
{
    if i < c.len() && c.nop(i) {
        lemma_live_after(c, i + 1);
    }
}

/// Sums may be cut down to 64 bits at any point.
proof fn lemma_wrap(n: int, x: u64)
    ensures
        wrap(wrap(n) + x) == wrap(x + n),
        wrap(x - wrap(-n)) == wrap(x + n),
{
    let m = 0x1_0000_0000_0000_0000int;
    assert((n % m + x) % m == (x + n) % m) by (nonlinear_arith)
        requires
            m == 0x1_0000_0000_0000_0000int,
    ;
    assert((x - (-n) % m) % m == (x + n) % m) by (nonlinear_arith)
        requires
            m == 0x1_0000_0000_0000_0000int,
    ;
}

/// What is added fits in 64 bits.
proof fn lemma_added_range(s: Seq<char>, b: RegId)
    ensures
        address_folds::added(s, b) matches Some(n) ==> i64::MIN <= n <= i64::MAX,
{
    if let Some(rest) = text::after(s, "addq $"@) {
        if let Some((x, _)) = text::split(rest, ", "@) {
            text::lemma_integer_range(text::trim(x));
        }
    }
    if let Some(rest) = text::after(s, "subq $"@) {
        if let Some((x, _)) = text::split(rest, ", "@) {
            text::lemma_integer_range(text::trim(x));
        }
    }
}

/// What adding or subtracting an immediate does.
proof fn lemma_immediate_effect(
    s: Seq<char>,
    b: RegId,
    regs: Seq<u64>,
    other: spec_fn(Seq<char>) -> u64,
)
    requires
        address_folds::added(s, b) is Some,
        b < 16,
        effect(s, regs, other) is Some,
    ensures
        effect(s, regs, other) == Some(
            regs.update(b as int, wrap(regs[b as int] + address_folds::added(s, b)->0)),
        ),
{
    let n = address_folds::added(s, b)->0;
    lemma_known_opcode(s);
    reveal_strlit("addq");
    reveal_strlit("subq");
    reveal_strlit("movq");
    reveal_strlit("$");
    assert("addq"@[0] == 'a' && "movq"@[0] == 'm' && "subq"@[0] == 's');
    lemma_wrap(n, regs[b as int]);
    if "addq $"@.is_prefix_of(s) {
        let t = text::after(s, "addq $"@)->0;
        let (x, y) = text::split(t, ", "@)->0;
        lemma_dollar_split(t);
        assert(("$"@ + x).skip(1) =~= x);
        assert(parsed(s) == Some(("addq"@, "$"@ + x, y)));
        assert(worth("$"@ + x, regs, other) == Some(wrap(n)));
    } else {
        let t = text::after(s, "subq $"@)->0;
        let (x, y) = text::split(t, ", "@)->0;
        lemma_dollar_split(t);
        assert(("$"@ + x).skip(1) =~= x);
        assert(parsed(s) == Some(("subq"@, "$"@ + x, y)));
        assert(worth("$"@ + x, regs, other) == Some(wrap(-n)));
    }
}

/// An immediate that is added to a copy, or subtracted from it, is a displacement:
/// where the two lines that are folded are followed, the line in their place leaves
/// the same registers.
pub proof fn law_addimm_keeps_registers(
    c: Code,
    i: int,
    regs: Seq<u64>,
    other: spec_fn(Seq<char>) -> u64,
)
    requires
        c.wf(),
        0 <= i < c.len(),
        address_folds::addimm_at(c, i) is Some,
        regs.len() == 16,
        followed_by(
            effect(c.body(i), regs, other),
            c.body(c.live_from(i + 1)),
            other,
        ) is Some,
    ensures
        ({
            let j = c.live_from(i + 1);
            effect((address_folds::addimm_at(c, i)->Some_0.0).body(j), regs, other) == followed_by(
                effect(c.body(i), regs, other),
                c.body(j),
                other,
            )
        }),
{
    let j = c.live_from(i + 1);
    lemma_live_after(c, i + 1);
    let (a, b) = address_folds::foldable_move(c, i)->0;
    lemma_move_effect(c, i, regs, other);
    let mid = regs.update(b as int, regs[a as int]);
    let s = c.body(j);
    let n = address_folds::added(s, b)->0;
    lemma_immediate_effect(s, b, mid, other);
    lemma_added_range(s, b);
    let line = "leaq "@ + text::decimal(n) + "("@ + types::reg_text(0, a) + "), "@
        + types::reg_text(0, b);
    reveal_strlit("leaq ");
    reveal_strlit("    leaq ");
    reveal_strlit("    ");
    assert("    leaq "@ + text::decimal(n) + "("@ + types::reg_text(0, a) + "), "@
        + types::reg_text(0, b) =~= "    "@ + line);
    lemma_put_body(c.remove(i), j, line);
    lemma_offset_effect(n, a, b, regs, other);
    assert(mid.update(b as int, wrap(regs[a as int] + n)) =~= regs.update(
        b as int,
        wrap(regs[a as int] + n),
    ));
}

// ── Folds of detours ────────────────────────────────────────────────────────

/// Trimmed text has no white space at its ends, so trimming it again changes nothing.
pub proof fn lemma_trim_twice(s: Seq<char>)
    ensures
        text::trim(text::trim(s)) == text::trim(s),
{
    let l = text::trim_left(s);
    lemma_trim_left_ends(s);
    lemma_trim_right_ends(l);
}

proof fn lemma_trim_left_ends(s: Seq<char>)
    ensures
        text::trim_left(s).len() > 0 ==> !text::is_space(text::trim_left(s)[0]),
    decreases s.len(),
{
    if s.len() > 0 && text::is_space(s[0]) {
        lemma_trim_left_ends(s.skip(1));
    }
}

proof fn lemma_trim_right_ends(s: Seq<char>)
    ensures
        text::trim_right(s).len() > 0 ==> !text::is_space(text::trim_right(s).last())
            && text::trim_right(s)[0] == s[0],
        text::trim_right(text::trim_right(s)) == text::trim_right(s),
    decreases s.len(),
{
    if s.len() > 0 && text::is_space(s.last()) {
        lemma_trim_right_ends(s.drop_last());
    }
}

/// A move that was put together is read as it was.
proof fn lemma_parsed_move(a: Seq<char>, b: Seq<char>)
    requires
        text::first_at(a, ", "@, 0) is None,
    ensures
        parsed("movq "@ + a + ", "@ + b) == Some(("movq"@, a, b)),
        !"leaq "@.is_prefix_of("movq "@ + a + ", "@ + b),
{
    reveal_strlit("movq ");
    let s = "movq "@ + a + ", "@ + b;
    assert(s.subrange(0, 5) =~= "movq "@);
    assert(s.skip(5) =~= a + ", "@ + b);
    lemma_known_opcode(s);
    lemma_split_comma(a, b);
}

/// There is no comma in the name of a register.
proof fn lemma_name_has_no_comma(size: usize, fam: RegId)
    requires
        size < 2,
        fam < 16,
    ensures
        text::first_at(types::reg_text(size, fam), ", "@, 0) is None,
{
    let x = types::reg_text(size, fam);
    lemma_name(size, fam);
    text::lemma_first_at(x, ", "@, 0);
    if let Some(j) = text::first_at(x, ", "@, 0) {
        reveal_strlit(", ");
        assert(x.subrange(j, j + 2)[0] == x[j]);
        if j > 0 {
            assert(x[j] == x.skip(1)[j - 1]);
        }
    }
}

/// What a move from a named register does.
proof fn lemma_named_move(
    from: RegId,
    b: Seq<char>,
    to: RegId,
    regs: Seq<u64>,
    other: spec_fn(Seq<char>) -> u64,
)
    requires
        from < 16,
        types::family(text::trim(b)) == to < 16,
        !text::has(b, "("@),
        regs.len() == 16,
    ensures
        effect("movq "@ + types::reg_text(0, from) + ", "@ + b, regs, other) == Some(
            regs.update(to as int, regs[from as int]),
        ),
{
    lemma_name(0, from);
    lemma_name_has_no_comma(0, from);
    lemma_parsed_move(types::reg_text(0, from), b);
}

/// A value that is routed through a temporary and one that goes straight to its
/// register leave the same registers but for the temporary, where the two lines that
/// are folded are followed.
pub proof fn law_routing_keeps_registers(
    c: Code,
    t: Targets,
    i: int,
    regs: Seq<u64>,
    other: spec_fn(Seq<char>) -> u64,
)
    requires
        c.wf(),
        0 <= i < c.len(),
        routing::routing_at(c, t, i) is Some,
        regs.len() == 16,
        followed_by(
            effect(c.body(i), regs, other),
            c.body(c.live_from(i + 1)),
            other,
        ) is Some,
    ensures
        ({
            let j = c.live_from(i + 1);
            let new = effect((routing::routing_at(c, t, i)->Some_0.0).body(j), regs, other);
            let before = followed_by(effect(c.body(i), regs, other), c.body(j), other);
            new is Some && same_but(new->0, before->0, helpers::dest_of(c.kind(i)))
        }),
{
    let j = c.live_from(i + 1);
    lemma_live_after(c, i + 1);
    let temp = c.kind(i)->dest_reg;
    let first = c.body(i);
    let src = routing::routed_source(first, temp)->0;
    let rest = text::after(first, "movq "@)->0;
    let tmp = types::reg_text(0, temp);
    lemma_known_opcode(first);
    lemma_before_comma(rest);
    lemma_name(0, temp);
    assert(parsed(first) == Some(("movq"@, src, tmp)));
    let v = worth(src, regs, other)->0;
    let mid = regs.update(temp as int, v);
    assert(effect(first, regs, other) == Some(mid));
    let second = c.body(j);
    let d = text::after(second, "movq "@ + tmp + ", "@)->0;
    let (dest, fam) = routing::routed_dest(second, temp)->0;
    let lead = "movq "@ + tmp + ", "@;
    assert(second.subrange(0, lead.len() as int) =~= lead);
    assert(second =~= lead + d);
    lemma_name_has_no_comma(0, temp);
    lemma_parsed_move(tmp, d);
    lemma_named_move(temp, d, fam, mid, other);
    assert(effect(second, mid, other) == Some(mid.update(fam as int, v)));
    let line = "movq "@ + src + ", "@ + dest;
    reveal_strlit("movq ");
    reveal_strlit("    movq ");
    reveal_strlit("    ");
    assert("    movq "@ + src + ", "@ + dest =~= "    "@ + line);
    lemma_put_body(c.remove(i), j, line);
    lemma_parsed_move(src, dest);
    lemma_trim_twice(d);
    assert(effect(line, regs, other) == Some(regs.update(fam as int, v)));
}

/// What adding or subtracting an immediate, given as text, does.
proof fn lemma_arith_effect(
    s: Seq<char>,
    op: Seq<char>,
    imm: Seq<char>,
    b: Seq<char>,
    reg: RegId,
    regs: Seq<u64>,
    other: spec_fn(Seq<char>) -> u64,
)
    requires
        op == "addq"@ || op == "subq"@,
        text::after(s, op + " $"@) matches Some(rest) && text::split(rest, ", "@) == Some((imm, b)),
        types::family(text::trim(b)) == reg < 16,
        !text::has(b, "("@),
        regs.len() == 16,
    ensures
        effect(s, regs, other) == (match worth("$"@ + imm, regs, other) {
            Some(v) => Some(regs.update(reg as int, result(op, v, regs[reg as int])->0)),
            None => None,
        }),
        result(op, 0, 0) is Some,
{
    reveal_strlit("addq");
    reveal_strlit("subq");
    reveal_strlit("movq");
    reveal_strlit("addq $");
    reveal_strlit("subq $");
    reveal_strlit(" $");
    assert("addq"@[0] == 'a' && "movq"@[0] == 'm' && "subq"@[0] == 's');
    assert("addq"@ + " $"@ =~= "addq $"@);
    assert("subq"@ + " $"@ =~= "subq $"@);
    lemma_known_opcode(s);
    let rest = text::after(s, op + " $"@)->0;
    lemma_dollar_split(rest);
    assert(parsed(s) == Some((op, "$"@ + imm, b)));
}

/// The operation of an addition or a subtraction of an immediate.
spec fn arith_op(s: Seq<char>, y: Seq<char>) -> Seq<char> {
    if routing::immediate_text(s, "addq $"@, y) is Some {
        "addq"@
    } else {
        "subq"@
    }
}

/// How such an instruction is put together.
proof fn lemma_arith_parts(s: Seq<char>, y: Seq<char>)
    requires
        routing::arith_imm(s, y) is Some,
    ensures
        ({
            let (lead, imm) = routing::arith_imm(s, y)->0;
            &&& lead == arith_op(s, y) + " $"@
            &&& lead.len() == 6 && (lead[0] == 'a' || lead[0] == 's')
            &&& text::after(s, lead) matches Some(rest) && text::split(rest, ", "@) matches Some(
                (a, b),
            ) && a == imm && text::trim(b) == y && text::first_at(imm, ", "@, 0) is None && parsed(s)
                == Some((arith_op(s, y), "$"@ + imm, b))
            &&& !"leaq "@.is_prefix_of(s)
        }),
{
    reveal_strlit("addq");
    reveal_strlit("subq");
    reveal_strlit(" $");
    reveal_strlit("addq $");
    reveal_strlit("subq $");
    assert("addq"@ + " $"@ =~= "addq $"@);
    assert("subq"@ + " $"@ =~= "subq $"@);
    let (lead, _) = routing::arith_imm(s, y)->0;
    let rest = text::after(s, lead)->0;
    lemma_known_opcode(s);
    lemma_dollar_split(rest);
    lemma_before_comma(rest);
}

/// What an addition or a subtraction of an immediate does that was put together.
proof fn lemma_arith_line(
    op: Seq<char>,
    imm: Seq<char>,
    reg: RegId,
    regs: Seq<u64>,
    other: spec_fn(Seq<char>) -> u64,
)
    requires
        op == "addq"@ || op == "subq"@,
        text::first_at(imm, ", "@, 0) is None,
        reg < 16,
        regs.len() == 16,
    ensures
        effect(op + " $"@ + imm + ", "@ + types::reg_text(0, reg), regs, other) == (match worth(
            "$"@ + imm,
            regs,
            other,
        ) {
            Some(v) => Some(regs.update(reg as int, result(op, v, regs[reg as int])->0)),
            None => None,
        }),
{
    let lead = op + " $"@;
    let x = types::reg_text(0, reg);
    let line = lead + imm + ", "@ + x;
    lemma_name(0, reg);
    assert(line.subrange(0, lead.len() as int) =~= lead);
    assert(line.skip(lead.len() as int) =~= imm + ", "@ + x);
    lemma_split_comma(imm, x);
    lemma_arith_effect(line, op, imm, x, reg, regs, other);
}

/// An immediate does not depend on the registers.
proof fn lemma_immediate_worth(
    imm: Seq<char>,
    a: Seq<u64>,
    b: Seq<u64>,
    other: spec_fn(Seq<char>) -> u64,
)
    ensures
        worth("$"@ + imm, a, other) == worth("$"@ + imm, b, other),
{
    reveal_strlit("$");
    assert(("$"@ + imm)[0] == '$');
}

/// A register that is changed in a copy and one that is changed in place leave the
/// same registers but for the copy, where the three lines that are folded are
/// followed.
pub proof fn law_increment_keeps_registers(
    c: Code,
    t: Targets,
    i: int,
    regs: Seq<u64>,
    other: spec_fn(Seq<char>) -> u64,
)
    requires
        c.wf(),
        0 <= i < c.len(),
        routing::increment_at(c, t, i) is Some,
        regs.len() == 16,
        followed_by(
            effect(c.body(i), regs, other),
            c.body(c.live_from(i + 1)),
            other,
        ) is Some,
    ensures
        ({
            let j = c.live_from(i + 1);
            let k = c.live_from(j + 1);
            let new = effect((routing::increment_at(c, t, i)->Some_0.0).body(k), regs, other);
            let before = followed_by(
                followed_by(effect(c.body(i), regs, other), c.body(j), other),
                c.body(k),
                other,
            );
            new is Some && before is Some && same_but(
                new->0,
                before->0,
                helpers::reg_move(c.kind(i), c.body(i))->Some_0.1,
            )
        }),
{
    let j = c.live_from(i + 1);
    let k = c.live_from(j + 1);
    lemma_live_after(c, i + 1);
    lemma_live_after(c, j + 1);
    let (src, tmp) = helpers::reg_move(c.kind(i), c.body(i))->0;
    let x = types::reg_text(0, src);
    let y = types::reg_text(0, tmp);
    lemma_name(0, src);
    lemma_name(0, tmp);
    lemma_move_effect(c, i, regs, other);
    let r1 = regs.update(tmp as int, regs[src as int]);
    let second = c.body(j);
    let (lead, imm) = routing::arith_imm(second, y)->0;
    let op = arith_op(second, y);
    lemma_arith_parts(second, y);
    let rest = text::after(second, lead)->0;
    let b = text::split(rest, ", "@)->Some_0.1;
    lemma_arith_effect(second, op, imm, b, tmp, r1, other);
    lemma_immediate_worth(imm, r1, regs, other);
    let v = worth("$"@ + imm, regs, other)->0;
    let w = result(op, v, regs[src as int])->0;
    let r2 = r1.update(tmp as int, w);
    assert(effect(second, r1, other) == Some(r2));
    lemma_named_move(tmp, x, src, r2, other);
    let line = lead + imm + ", "@ + x;
    assert("    "@ + lead + imm + ", "@ + x =~= "    "@ + line);
    lemma_put_body(c.remove(i).remove(j), k, line);
    lemma_arith_line(op, imm, src, regs, other);
}

// ── Swapped operands ────────────────────────────────────────────────────────

pub proof fn lemma_names_16(fam: RegId)
    requires
        fam < 16,
    ensures
        types::family(types::reg_text(2, fam)) == fam,
{
    reveal_strlit("%ax");
    reveal_strlit("%cx");
    reveal_strlit("%dx");
    reveal_strlit("%bx");
    reveal_strlit("%sp");
    reveal_strlit("%bp");
    reveal_strlit("%si");
    reveal_strlit("%di");
    reveal_strlit("%r8w");
    reveal_strlit("%r9w");
    reveal_strlit("%r10w");
    reveal_strlit("%r11w");
    reveal_strlit("%r12w");
    reveal_strlit("%r13w");
    reveal_strlit("%r14w");
    reveal_strlit("%r15w");
    let t = types::reg_text(2, fam);
    assert(t.skip(1)[0] == t[1] && t.skip(1)[1] == t[2]);
    if t.len() > 3 {
        assert(t.skip(1)[2] == t[3]);
    }
}

pub proof fn lemma_names_8(fam: RegId)
    requires
        fam < 16,
    ensures
        types::family(types::reg_text(3, fam)) == fam,
{
    reveal_strlit("%al");
    reveal_strlit("%cl");
    reveal_strlit("%dl");
    reveal_strlit("%bl");
    reveal_strlit("%spl");
    reveal_strlit("%bpl");
    reveal_strlit("%sil");
    reveal_strlit("%dil");
    reveal_strlit("%r8b");
    reveal_strlit("%r9b");
    reveal_strlit("%r10b");
    reveal_strlit("%r11b");
    reveal_strlit("%r12b");
    reveal_strlit("%r13b");
    reveal_strlit("%r14b");
    reveal_strlit("%r15b");
    let t = types::reg_text(3, fam);
    assert(t.skip(1)[0] == t[1] && t.skip(1)[1] == t[2]);
    if t.len() > 3 {
        assert(t.skip(1)[2] == t[3]);
    }
}

/// A register has another name at another size.
proof fn lemma_sizes_differ(fam: RegId)
    requires
        fam < 16,
    ensures
        types::reg_text(0, fam) != types::reg_text(1, fam),
{
    reveal_strlit("%rax");
    reveal_strlit("%rcx");
    reveal_strlit("%rdx");
    reveal_strlit("%rbx");
    reveal_strlit("%rsp");
    reveal_strlit("%rbp");
    reveal_strlit("%rsi");
    reveal_strlit("%rdi");
    reveal_strlit("%r8");
    reveal_strlit("%r9");
    reveal_strlit("%r10");
    reveal_strlit("%r11");
    reveal_strlit("%r12");
    reveal_strlit("%r13");
    reveal_strlit("%r14");
    reveal_strlit("%r15");
    reveal_strlit("%eax");
    reveal_strlit("%ecx");
    reveal_strlit("%edx");
    reveal_strlit("%ebx");
    reveal_strlit("%esp");
    reveal_strlit("%ebp");
    reveal_strlit("%esi");
    reveal_strlit("%edi");
    reveal_strlit("%r8d");
    reveal_strlit("%r9d");
    reveal_strlit("%r10d");
    reveal_strlit("%r11d");
    reveal_strlit("%r12d");
    reveal_strlit("%r13d");
    reveal_strlit("%r14d");
    reveal_strlit("%r15d");
    let a = types::reg_text(0, fam);
    let b = types::reg_text(1, fam);
    assert(a.len() != b.len() || a[1] != b[1]);
}

/// The name of the register is replaced, and that of another is not.
proof fn lemma_rename(size: usize, from: RegId, to: RegId, reg: RegId)
    requires
        size < 2,
        from < 16,
        to < 16,
        reg < 16,
    ensures
        helpers::rename(types::reg_text(size, reg), from, to) == types::reg_text(
            size,
            if reg == from {
                to
            } else {
                reg
            },
        ),
{
    lemma_name(size, reg);
    lemma_name(0, from);
    lemma_name(1, from);
    lemma_names_16(from);
    lemma_names_8(from);
    lemma_sizes_differ(from);
}

/// Text without registers is kept.
proof fn lemma_renamed_text(s: Seq<char>, i: int, n: nat, from: RegId, to: RegId)
    requires
        0 <= i,
        i + n <= s.len(),
        forall|k: int| i <= k < i + n ==> #[trigger] s[k] != '%',
    ensures
        helpers::renamed(s, i, from, to) == s.subrange(i, i + n) + helpers::renamed(
            s,
            i + n,
            from,
            to,
        ),
    decreases n,
{
    let after = helpers::renamed(s, i + n, from, to);
    if n == 0 {
        assert(s.subrange(i, i) + after =~= after);
    } else {
        lemma_renamed_text(s, i + 1, (n - 1) as nat, from, to);
        assert(s[i] != '%');
        assert(seq![s[i]] + (s.subrange(i + 1, i + n) + after) =~= s.subrange(i, i + n) + after);
    }
}

proof fn lemma_name_ends_at(s: Seq<char>, i: int, e: int)
    requires
        0 <= i <= e <= s.len(),
        forall|k: int| i <= k < e ==> helpers::is_name_char(#[trigger] s[k]),
        e == s.len() || !helpers::is_name_char(s[e]),
    ensures
        helpers::name_end(s, i) == e,
    decreases e - i,
{
    if i < e {
        assert(helpers::is_name_char(s[i]));
        lemma_name_ends_at(s, i + 1, e);
    }
}

/// A register in the text is replaced as its name is.
proof fn lemma_renamed_name(
    s: Seq<char>,
    i: int,
    size: usize,
    reg: RegId,
    from: RegId,
    to: RegId,
)
    requires
        size < 2,
        reg < 16,
        from < 16,
        to < 16,
        0 <= i,
        i + types::reg_text(size, reg).len() <= s.len(),
        s.subrange(i, i + types::reg_text(size, reg).len()) == types::reg_text(size, reg),
        i + types::reg_text(size, reg).len() == s.len() || !helpers::is_name_char(
            s[i + types::reg_text(size, reg).len()],
        ),
    ensures
        helpers::renamed(s, i, from, to) == types::reg_text(
            size,
            if reg == from {
                to
            } else {
                reg
            },
        ) + helpers::renamed(s, i + types::reg_text(size, reg).len(), from, to),
{
    let name = types::reg_text(size, reg);
    let e = i + name.len();
    lemma_name(size, reg);
    assert(s[i] == s.subrange(i, e)[0]);
    assert forall|k: int| i + 1 <= k < e implies helpers::is_name_char(#[trigger] s[k]) by {
        assert(s[k] == s.subrange(i, e)[k - i]);
    }
    lemma_name_ends_at(s, i + 1, e);
    lemma_rename(size, from, to, reg);
}

/// Of an operation between two registers one operand is replaced.
proof fn lemma_renamed_operation(
    op: Seq<char>,
    size: usize,
    temp: RegId,
    a: RegId,
    b: RegId,
)
    requires
        size < 2,
        temp < 16,
        a < 16,
        b < 16,
        a != temp,
        bare(op),
    ensures
        helpers::renamed(
            op + " "@ + types::reg_text(size, temp) + ", "@ + types::reg_text(size, a),
            0,
            temp,
            b,
        ) == op + " "@ + types::reg_text(size, b) + ", "@ + types::reg_text(size, a),
{
    reveal_strlit(" ");
    reveal_strlit(", ");
    let x = types::reg_text(size, temp);
    let y = types::reg_text(size, a);
    let z = types::reg_text(size, b);
    lemma_name(size, temp);
    lemma_name(size, a);
    let s = op + " "@ + x + ", "@ + y;
    let p1 = (op.len() + 1) as nat;
    let p2 = p1 + x.len();
    let p3 = p2 + 2;
    let end = p3 + y.len();
    lemma_renamed_text(s, 0, p1, temp, b);
    assert(s.subrange(0, p1 as int) =~= op + " "@);
    assert(s.subrange(p1 as int, p2 as int) =~= x);
    assert(s[p2 as int] == ',');
    lemma_renamed_name(s, p1 as int, size, temp, temp, b);
    assert(s[p2 as int + 1] == ' ');
    lemma_renamed_text(s, p2 as int, 2, temp, b);
    assert(s.subrange(p2 as int, p3 as int) =~= ", "@);
    assert(s.subrange(p3 as int, end as int) =~= y);
    lemma_renamed_name(s, p3 as int, size, a, temp, b);
    assert(helpers::renamed(s, end as int, temp, b) =~= Seq::empty());
    assert((op + " "@) + (z + (", "@ + (y + Seq::empty()))) =~= op + " "@ + z + ", "@ + y);
}

/// The operations that are taken to be commutative are.
proof fn lemma_commutative(op: Seq<char>, x: u64, y: u64)
    requires
        routing::commutative(op),
    ensures
        result(op, x, y) == result(op, y, x),
{
    let a = low(x);
    let b = low(y);
    reveal_strlit("movq");
    reveal_strlit("subq");
    reveal_strlit("addq");
    reveal_strlit("orq");
    reveal_strlit("xorq");
    reveal_strlit("andq");
    reveal_strlit("imulq");
    reveal_strlit("addl");
    reveal_strlit("orl");
    reveal_strlit("xorl");
    reveal_strlit("andl");
    reveal_strlit("imull");
    reveal_strlit("addw");
    reveal_strlit("orw");
    reveal_strlit("xorw");
    reveal_strlit("andw");
    assert("movq"@[0] == 'm' && "subq"@[0] == 's');
    assert(x | y == y | x) by (bit_vector);
    assert(x ^ y == y ^ x) by (bit_vector);
    assert(x & y == y & x) by (bit_vector);
    assert(a | b == b | a) by (bit_vector);
    assert(a ^ b == b ^ a) by (bit_vector);
    assert(a & b == b & a) by (bit_vector);
    assert(x * y == y * x) by (nonlinear_arith);
    assert(a * b == b * a) by (nonlinear_arith);
}

/// What an operation between two named registers does.
proof fn lemma_operation_effect(
    op: Seq<char>,
    size: usize,
    from: RegId,
    to: RegId,
    regs: Seq<u64>,
    other: spec_fn(Seq<char>) -> u64,
)
    requires
        size < 2,
        from < 16,
        to < 16,
        regs.len() == 16,
        bare(op),
        op != "leaq"@,
    ensures
        ({
            let s = op + " "@ + types::reg_text(size, from) + ", "@ + types::reg_text(size, to);
            &&& effect(s, regs, other) == (match result(op, regs[from as int], regs[to as int]) {
                Some(w) => Some(regs.update(to as int, w)),
                None => None,
            })
            &&& parsed(s) == Some((op, types::reg_text(size, from), types::reg_text(size, to)))
        }),
{
    let x = types::reg_text(size, from);
    let y = types::reg_text(size, to);
    lemma_name(size, from);
    lemma_name(size, to);
    lemma_name_has_no_comma(size, from);
    let s = op + " "@ + x + ", "@ + y;
    assert(s =~= op + " "@ + (x + ", "@ + y));
    lemma_opcode(op, x + ", "@ + y);
    lemma_split_comma(x, y);
    if "leaq "@.is_prefix_of(s) {
        reveal_strlit("leaq ");
        reveal_strlit("leaq");
        reveal_strlit(" ");
        assert(s.subrange(0, 5) =~= "leaq "@);
        assert(s[4] == s.subrange(0, 5)[4]);
        if op.len() > 4 {
            assert(s[4] == op[4]);
        } else {
            if op.len() < 4 {
                let n = op.len() as int;
                assert(s[n] == " "@[0]);
                assert(s[n] == s.subrange(0, 5)[n]);
            }
            assert(op =~= "leaq"@) by {
                assert forall|k: int| 0 <= k < 4 implies op[k] == "leaq"@[k] by {
                    assert(s[k] == s.subrange(0, 5)[k]);
                    assert(s[k] == op[k]);
                }
            }
        }
    }
}

/// The names of the operations that are followed.
proof fn lemma_operation_name(op: Seq<char>)
    requires
        result(op, 0, 0) is Some,
    ensures
        bare(op),
        op.len() > 0,
        op[0] != ' ' && op[0] != '\t',
        op != "leaq"@,
{
    reveal_strlit("movq");
    reveal_strlit("addq");
    reveal_strlit("subq");
    reveal_strlit("imulq");
    reveal_strlit("orq");
    reveal_strlit("xorq");
    reveal_strlit("andq");
    reveal_strlit("addl");
    reveal_strlit("imull");
    reveal_strlit("orl");
    reveal_strlit("xorl");
    reveal_strlit("andl");
    reveal_strlit("leaq");
    assert("leaq"@[0] == 'l');
}

/// An operation whose operands are swapped through a temporary and one that takes
/// them as they are leave the same registers but for the temporary. The operation is
/// one of 64 or 32 bits, and its line is written as usual.
pub proof fn law_commutative_keeps_registers(
    c: Code,
    t: Targets,
    i: int,
    op: Seq<char>,
    size: usize,
    regs: Seq<u64>,
    other: spec_fn(Seq<char>) -> u64,
)
    requires
        c.wf(),
        0 <= i < c.len(),
        routing::commutative_at(c, t, i) is Some,
        regs.len() == 16,
        size < 2,
        result(op, 0, 0) is Some,
        ({
            let j = c.live_from(i + 1);
            let k = c.live_from(j + 1);
            let (a, temp) = address_folds::foldable_move(c, i)->0;
            &&& c.body(k) == op + " "@ + types::reg_text(size, temp) + ", "@ + types::reg_text(
                size,
                a,
            )
            &&& helpers::reg_move(c.kind(j), c.body(j))->Some_0.1 == a
            &&& followed_by(effect(c.body(i), regs, other), c.body(j), other) is Some
        }),
    ensures
        ({
            let j = c.live_from(i + 1);
            let k = c.live_from(j + 1);
            let new = effect((routing::commutative_at(c, t, i)->Some_0.0).body(k), regs, other);
            let before = followed_by(
                followed_by(effect(c.body(i), regs, other), c.body(j), other),
                c.body(k),
                other,
            );
            new is Some && before is Some && same_but(
                new->0,
                before->0,
                address_folds::foldable_move(c, i)->Some_0.1,
            )
        }),
{
    let j = c.live_from(i + 1);
    let k = c.live_from(j + 1);
    lemma_live_after(c, i + 1);
    lemma_live_after(c, j + 1);
    let (a, temp) = address_folds::foldable_move(c, i)->0;
    let b = routing::overwriting_source(c, j, a, temp)->0;
    lemma_operation_name(op);
    lemma_move_effect(c, i, regs, other);
    let r1 = regs.update(temp as int, regs[a as int]);
    lemma_move_effect(c, j, r1, other);
    let r2 = r1.update(a as int, regs[b as int]);
    lemma_operation_effect(op, size, temp, a, r2, other);
    lemma_commutative(op, regs[a as int], regs[b as int]);
    lemma_renamed_operation(op, size, temp, a, b);
    let line = op + " "@ + types::reg_text(size, b) + ", "@ + types::reg_text(size, a);
    lemma_put_body(c.remove(i).remove(j), k, line);
    lemma_operation_effect(op, size, b, a, regs, other);
}

// ── Masks ───────────────────────────────────────────────────────────────────

/// An operation of an immediate on a register that was put together is read as it
/// was.
proof fn lemma_masked(
    op: Seq<char>,
    n: int,
    size: usize,
    fam: RegId,
    regs: Seq<u64>,
    other: spec_fn(Seq<char>) -> u64,
)
    requires
        op == "andq"@ || op == "andl"@,
        0 <= n <= 0x7FFF_FFFF,
        size < 2,
        fam < 16,
        regs.len() == 16,
    ensures
        effect(
            op + " $"@ + text::decimal(n) + ", "@ + types::reg_text(size, fam),
            regs,
            other,
        ) == Some(regs.update(fam as int, result(op, n as u64, regs[fam as int])->0)),
        result(op, n as u64, regs[fam as int]) is Some,
{
    reveal_strlit("andq");
    reveal_strlit("andl");
    reveal_strlit("leaq ");
    reveal_strlit(" $");
    reveal_strlit(" ");
    reveal_strlit("$");
    reveal_strlit(", ");
    let d = text::decimal(n);
    let x = types::reg_text(size, fam);
    lemma_integer_of_decimal(n);
    lemma_name(size, fam);
    let a = "$"@ + d;
    let s = op + " $"@ + d + ", "@ + x;
    assert(s =~= op + " "@ + (a + ", "@ + x));
    lemma_opcode(op, a + ", "@ + x);
    assert forall|k: int| 0 <= k < a.len() implies #[trigger] a[k] != ',' && a[k] != '(' by {
        if k > 0 {
            assert(a[k] == d[k - 1]);
        }
    }
    lemma_split_at(a, ", "@, x);
    assert(a.skip(1) =~= d);
    lemma_decimal_is_trim(n);
    if text::has(a, "("@) {
        reveal_strlit("(");
        let j = choose|j: int| text::occurs_at(a, "("@, j);
        assert(text::occurs_at(a, "("@, j));
        assert(a.subrange(j, j + 1)[0] == a[j]);
    }
    assert(worth(a, regs, other) == Some(wrap(n)));
    if "leaq "@.is_prefix_of(s) {
        assert(s.subrange(0, 5)[0] == s[0]);
    }
    lemma_mask_names(op);
}

proof fn lemma_mask_names(op: Seq<char>)
    requires
        op == "andq"@ || op == "andl"@,
    ensures
        op == "andq"@ ==> forall|v: u64, o: u64| #[trigger] result(op, v, o) == Some(v & o),
        op == "andl"@ ==> forall|v: u64, o: u64| #[trigger]
            result(op, v, o) == Some((low(v) & low(o)) as u64),
{
    reveal_strlit("movq");
    reveal_strlit("addq");
    reveal_strlit("subq");
    reveal_strlit("imulq");
    reveal_strlit("orq");
    reveal_strlit("xorq");
    reveal_strlit("andq");
    reveal_strlit("addl");
    reveal_strlit("imull");
    reveal_strlit("orl");
    reveal_strlit("xorl");
    reveal_strlit("andl");
    assert("andq"@[0] == 'a' && "andq"@[1] == 'n' && "andq"@[3] == 'q');
    assert("andl"@[0] == 'a' && "andl"@[1] == 'n' && "andl"@[3] == 'l');
    assert("addq"@[1] == 'd' && "addl"@[1] == 'd' && "movq"@[0] == 'm' && "subq"@[0] == 's');
    assert("xorq"@[0] == 'x' && "xorl"@[0] == 'x');
}

/// The decimal form of an integer has no white space at its ends.
proof fn lemma_decimal_is_trim(n: int)
    requires
        0 <= n <= i64::MAX,
    ensures
        text::trim(text::decimal(n)) == text::decimal(n),
{
    text::lemma_digits_read_back(n as nat);
    let d = text::decimal(n);
    assert(text::is_digit(d[0]));
    assert(text::is_digit(d.last()));
}

/// A mask of up to 31 bits may be applied to the low half of a register alone: the
/// 32-bit form that a line `andq $N, %REG` is narrowed to leaves the same registers.
pub proof fn law_narrowed_mask_keeps_registers(
    n: int,
    fam: RegId,
    regs: Seq<u64>,
    other: spec_fn(Seq<char>) -> u64,
)
    requires
        0 <= n <= 0x7FFF_FFFF,
        fam < 16,
        regs.len() == 16,
    ensures
        ({
            let s = "andq $"@ + text::decimal(n) + ", "@ + types::reg_text(0, fam);
            let new = "andl $"@ + text::decimal(n) + ", "@ + types::reg_text(1, fam);
            &&& narrow::narrow_and(s) == Some("    "@ + new)
            &&& effect(new, regs, other) == effect(s, regs, other)
        }),
{
    reveal_strlit("andq");
    reveal_strlit("andl");
    reveal_strlit("andq $");
    reveal_strlit("andl $");
    reveal_strlit("    andl $");
    reveal_strlit("    ");
    reveal_strlit(" $");
    reveal_strlit(", ");
    reveal_strlit(",");
    let d = text::decimal(n);
    let x = types::reg_text(0, fam);
    let s = "andq $"@ + d + ", "@ + x;
    let new = "andl $"@ + d + ", "@ + types::reg_text(1, fam);
    assert("andq $"@ =~= "andq"@ + " $"@);
    assert("andl $"@ =~= "andl"@ + " $"@);
    lemma_masked("andq"@, n, 0, fam, regs, other);
    lemma_masked("andl"@, n, 1, fam, regs, other);
    lemma_mask_names("andq"@);
    lemma_mask_names("andl"@);
    let v = n as u64;
    let o = regs[fam as int];
    assert(v & o == ((v % 0x1_0000_0000) as u32 & (o % 0x1_0000_0000) as u32) as u64) by (
        bit_vector)
        requires
            v <= 0x7FFF_FFFF,
    ;
    lemma_integer_of_decimal(n);
    lemma_decimal_is_trim(n);
    lemma_name(0, fam);
    let tail = " "@ + x;
    reveal_strlit(" ");
    assert(s.subrange(0, 6) =~= "andq $"@);
    assert(s.skip(6) =~= d + ","@ + tail);
    lemma_split_at(d, ","@, tail);
    assert(tail.skip(1) =~= x);
    assert(text::trim_left(tail) == text::trim_left(x)) by {
        reveal_with_fuel(text::trim_left, 2);
    }
    assert("    andl $"@ + d + ", "@ + types::reg_text(1, fam) =~= "    "@ + new);
}

} // verus!
