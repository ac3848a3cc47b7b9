//! Small parsers and tables that the passes share.

use vstd::prelude::*;

use super::text;
use super::text::{
    contains, parse_digits, push_decimal, rsplit_once, same, split_once, starts_with,
    strip_prefix, strip_suffix, to_chars, trim_text,
};
use super::types;
use super::types::{
    is_valid_gp_reg, reg_name, register_family_fast, register_refs, Code, LineInfo, LineKind,
    LineStore, RegId, REG_GP_MAX, REG_NONE,
};

verus! {

// ── Registers ───────────────────────────────────────────────────────────────

/// Is the register kept across calls?
pub open spec fn callee_saved(reg: RegId) -> bool {
    reg == 3 || 12 <= reg <= 15
}

/// Is the register kept across calls?
pub fn is_callee_saved_reg(reg: RegId) -> (r: bool)
    ensures
        r == callee_saved(reg),
{
    reg == 3 || (12 <= reg && reg <= 15)
}

/// The register that a line writes, as far as its kind tells.
pub open spec fn dest_of(kind: LineKind) -> RegId {
    match kind {
        LineKind::Other { dest_reg } => dest_reg,
        LineKind::LoadRbp { reg, .. } => reg,
        LineKind::SetCC { reg } => reg,
        LineKind::Pop { reg } => reg,
        _ => REG_NONE,
    }
}

/// The register that a line writes, as far as its kind tells.
pub fn get_dest_reg(info: &LineInfo) -> (r: RegId)
    ensures
        r == dest_of(info.kind),
{
    match info.kind {
        LineKind::Other { dest_reg } => dest_reg,
        LineKind::LoadRbp { reg, .. } => reg,
        LineKind::SetCC { reg } => reg,
        LineKind::Pop { reg } => reg,
        _ => REG_NONE,
    }
}

/// Does the instruction use `%rax` and `%rdx` without naming them?
#[verifier::opaque]
pub open spec fn uses_pair(s: Seq<char>) -> bool {
    "div"@.is_prefix_of(s) || "idiv"@.is_prefix_of(s) || "mul"@.is_prefix_of(s) || (
    "imul"@.is_prefix_of(s) && !text::has(s, ","@)) || "cltd"@.is_prefix_of(s)
        || "cqto"@.is_prefix_of(s) || "cqo"@.is_prefix_of(s) || "cdq"@.is_prefix_of(s)
        || "cwtd"@.is_prefix_of(s) || "rdtsc"@.is_prefix_of(s)
}

/// Does the instruction use `%rax` without naming it?
#[verifier::opaque]
pub open spec fn uses_accumulator(s: Seq<char>) -> bool {
    "cltq"@.is_prefix_of(s) || "cwtl"@.is_prefix_of(s) || "cbtw"@.is_prefix_of(s)
        || "lahf"@.is_prefix_of(s) || "sahf"@.is_prefix_of(s)
}

/// Does the instruction work on a string, by `%rax`, `%rcx`, `%rsi` and `%rdi`?
#[verifier::opaque]
pub open spec fn uses_string(s: Seq<char>) -> bool {
    "rep"@.is_prefix_of(s) || "stos"@.is_prefix_of(s) || "lods"@.is_prefix_of(s)
        || "scas"@.is_prefix_of(s) || (("movs"@.is_prefix_of(s) || "cmps"@.is_prefix_of(s))
        && !text::has(s, " "@))
}

/// Does the instruction count in `%rcx` without naming it?
#[verifier::opaque]
pub open spec fn uses_counter(s: Seq<char>) -> bool {
    "loop"@.is_prefix_of(s) || "jrcxz"@.is_prefix_of(s) || "jecxz"@.is_prefix_of(s)
}

/// Does the instruction exchange its operands, or hold the bus while it works on them?
#[verifier::opaque]
pub open spec fn exchanges(s: Seq<char>) -> bool {
    "cmpxchg"@.is_prefix_of(s) || "xchg"@.is_prefix_of(s) || "xadd"@.is_prefix_of(s)
        || "lock"@.is_prefix_of(s)
}

/// Does the instruction exchange its operand if that is equal to `%rax`?
#[verifier::opaque]
pub open spec fn exchanges_if_equal(s: Seq<char>) -> bool {
    ("cmpxchg"@.is_prefix_of(s) || "lock"@.is_prefix_of(s)) && text::has(s, "cmpxchg"@)
}

/// Does the instruction fill `%rax`, `%rbx`, `%rcx` and `%rdx`, or work on all of them?
#[verifier::opaque]
pub open spec fn uses_four(s: Seq<char>) -> bool {
    "cpuid"@.is_prefix_of(s) || (("cmpxchg"@.is_prefix_of(s) || "lock"@.is_prefix_of(s)) && (
    text::has(s, "cmpxchg8b"@) || text::has(s, "cmpxchg16b"@)))
}

/// Does the instruction use registers of which its name alone does not tell, and is `reg`
/// among them? One that exchanges its operands writes more than the last of them.
#[verifier::opaque]
pub open spec fn uses_several(s: Seq<char>, reg: RegId) -> bool {
    ||| exchanges(s) && types::gp(reg) && names_family(s, reg)
    ||| exchanges_if_equal(s) && reg == 0
    ||| uses_four(s) && reg <= 3
    ||| "syscall"@.is_prefix_of(s) && reg <= 11 && reg != 3 && reg != 4 && reg != 5
    ||| "leave"@.is_prefix_of(s) && (reg == 4 || reg == 5)
}

/// Does the instruction read and write more than its last operand, or registers that
/// depend on more than its name?
#[verifier::opaque]
pub open spec fn uses_many(s: Seq<char>) -> bool {
    exchanges(s) || "cpuid"@.is_prefix_of(s) || "syscall"@.is_prefix_of(s)
        || "leave"@.is_prefix_of(s)
}

/// Does the instruction use the register other than as an operand that it names?
pub open spec fn implicit_reg(s: Seq<char>, reg: RegId) -> bool {
    ((reg == 0 || reg == 2) && uses_pair(s)) || (reg == 0 && uses_accumulator(s)) || ((reg == 0
        || reg == 1 || reg == 6 || reg == 7) && uses_string(s)) || (reg == 1 && uses_counter(s))
        || uses_several(s, reg)
}

/// Does the instruction use registers that it does not name?
pub open spec fn implicit_use(s: Seq<char>) -> bool {
    uses_pair(s) || uses_accumulator(s) || uses_string(s) || uses_counter(s) || uses_many(s)
}

/// What uses no register that it does not name does not use any of them so.
pub proof fn lemma_no_implicit_use(s: Seq<char>, reg: RegId)
    requires
        !implicit_use(s),
    ensures
        !implicit_reg(s, reg),
{
    reveal(uses_many);
    reveal(uses_several);
    reveal(exchanges);
    reveal(exchanges_if_equal);
    reveal(uses_four);
}

/// Does the instruction extend `%rax` into `%rdx`?
#[verifier::opaque]
pub open spec fn extends_into_pair(s: Seq<char>) -> bool {
    "cltd"@.is_prefix_of(s) || "cqto"@.is_prefix_of(s) || "cqo"@.is_prefix_of(s)
        || "cdq"@.is_prefix_of(s) || "cwtd"@.is_prefix_of(s)
}

/// Does the instruction load from a string?
#[verifier::opaque]
pub open spec fn loads_string(s: Seq<char>) -> bool {
    "lods"@.is_prefix_of(s) || ("rep"@.is_prefix_of(s) && text::has(s, "lods"@))
}

/// Does the instruction write `%rax` other than as its last operand?
#[verifier::opaque]
pub open spec fn writes_rax(s: Seq<char>) -> bool {
    ||| uses_pair(s) && !extends_into_pair(s)
    ||| uses_accumulator(s) && !"sahf"@.is_prefix_of(s)
    ||| loads_string(s)
    ||| uses_several(s, 0)
}

fn works_on_pair(s: &str) -> (r: bool)
    ensures
        r == uses_pair(s@),
{
    proof {
        reveal(uses_pair);
    }
    starts_with(s, "div") || starts_with(s, "idiv") || starts_with(s, "mul") || (starts_with(
        s,
        "imul",
    ) && !contains(s, ",")) || starts_with(s, "cltd") || starts_with(s, "cqto") || starts_with(
        s,
        "cqo",
    ) || starts_with(s, "cdq") || starts_with(s, "cwtd") || starts_with(s, "rdtsc")
}

fn works_on_accumulator(s: &str) -> (r: bool)
    ensures
        r == uses_accumulator(s@),
{
    proof {
        reveal(uses_accumulator);
    }
    starts_with(s, "cltq") || starts_with(s, "cwtl") || starts_with(s, "cbtw") || starts_with(
        s,
        "lahf",
    ) || starts_with(s, "sahf")
}

fn works_on_string(s: &str) -> (r: bool)
    ensures
        r == uses_string(s@),
{
    proof {
        reveal(uses_string);
    }
    starts_with(s, "rep") || starts_with(s, "stos") || starts_with(s, "lods") || starts_with(
        s,
        "scas",
    ) || ((starts_with(s, "movs") || starts_with(s, "cmps")) && !contains(s, " "))
}

fn works_on_counter(s: &str) -> (r: bool)
    ensures
        r == uses_counter(s@),
{
    proof {
        reveal(uses_counter);
    }
    starts_with(s, "loop") || starts_with(s, "jrcxz") || starts_with(s, "jecxz")
}

fn does_exchange(s: &str) -> (r: bool)
    ensures
        r == exchanges(s@),
{
    proof {
        reveal(exchanges);
    }
    starts_with(s, "cmpxchg") || starts_with(s, "xchg") || starts_with(s, "xadd") || starts_with(
        s,
        "lock",
    )
}

fn works_on_several(s: &str, reg: RegId) -> (r: bool)
    ensures
        r == uses_several(s@, reg),
{
    proof {
        reveal(uses_several);
        reveal(exchanges_if_equal);
        reveal(uses_four);
    }
    let held = starts_with(s, "cmpxchg") || starts_with(s, "lock");
    (does_exchange(s) && is_valid_gp_reg(reg) && mentions_family(s, reg)) || (held && contains(
        s,
        "cmpxchg",
    ) && reg == 0) || ((starts_with(s, "cpuid") || (held && (contains(s, "cmpxchg8b") || contains(
        s,
        "cmpxchg16b",
    )))) && reg <= 3) || (starts_with(s, "syscall") && reg <= 11 && reg != 3 && reg != 4 && reg
        != 5) || (starts_with(s, "leave") && (reg == 4 || reg == 5))
}

fn works_on_many(s: &str) -> (r: bool)
    ensures
        r == uses_many(s@),
{
    proof {
        reveal(uses_many);
    }
    does_exchange(s) || starts_with(s, "cpuid") || starts_with(s, "syscall") || starts_with(
        s,
        "leave",
    )
}

/// Does the instruction use the register other than as an operand that it names?
pub fn uses_implicitly(s: &str, reg: RegId) -> (r: bool)
    ensures
        r == implicit_reg(s@, reg),
{
    ((reg == 0 || reg == 2) && works_on_pair(s)) || (reg == 0 && works_on_accumulator(s)) || ((reg
        == 0 || reg == 1 || reg == 6 || reg == 7) && works_on_string(s)) || (reg == 1
        && works_on_counter(s)) || works_on_several(s, reg)
}

/// Does the instruction use registers that it does not name?
pub fn has_implicit_reg_usage(trimmed: &str) -> (r: bool)
    ensures
        r == implicit_use(trimmed@),
{
    works_on_pair(trimmed) || works_on_accumulator(trimmed) || works_on_string(trimmed)
        || works_on_counter(trimmed) || works_on_many(trimmed)
}

/// Does the instruction write `%rax` other than as its last operand?
pub fn also_writes_rax(s: &str) -> (r: bool)
    ensures
        r == writes_rax(s@),
{
    proof {
        reveal(writes_rax);
        reveal(extends_into_pair);
        reveal(loads_string);
    }
    (works_on_pair(s) && !(starts_with(s, "cltd") || starts_with(s, "cqto") || starts_with(s, "cqo")
        || starts_with(s, "cdq") || starts_with(s, "cwtd"))) || (works_on_accumulator(s)
        && !starts_with(s, "sahf")) || starts_with(s, "lods") || (starts_with(s, "rep") && contains(
        s,
        "lods",
    )) || works_on_several(s, 0)
}

// ── Operands ────────────────────────────────────────────────────────────────

/// Does `s` name a register of this family?
pub open spec fn names_family(s: Seq<char>, reg: RegId) -> bool {
    types::refs_from(s, 0) & (1u16 << reg) != 0
}

/// Does `s` name a register of this family?
pub fn mentions_family(s: &str, reg: RegId) -> (r: bool)
    requires
        types::gp(reg),
    ensures
        r == names_family(s@, reg),
{
    register_refs(s) & (1u16 << reg) != 0
}

/// Does the instruction store a value in the whole of the register that is its last
/// operand, as moves of 32 and 64 bits and computations of an address do?
#[verifier::opaque]
pub open spec fn fills_register(s: Seq<char>) -> bool {
    "movq "@.is_prefix_of(s) || "movl "@.is_prefix_of(s) || "movabs"@.is_prefix_of(s)
        || "movzbl "@.is_prefix_of(s) || "movzbq "@.is_prefix_of(s) || "movzwl "@.is_prefix_of(s)
        || "movzwq "@.is_prefix_of(s) || "movslq "@.is_prefix_of(s) || "movsbq "@.is_prefix_of(s)
        || "movsbl "@.is_prefix_of(s) || "leaq "@.is_prefix_of(s) || "leal "@.is_prefix_of(s)
}

/// Does the instruction store a value in the whole of the register that is its last
/// operand?
pub fn fills_a_register(s: &str) -> (r: bool)
    ensures
        r == fills_register(s@),
{
    proof {
        reveal(fills_register);
    }
    starts_with(s, "movq ") || starts_with(s, "movl ") || starts_with(s, "movabs") || starts_with(
        s,
        "movzbl ",
    ) || starts_with(s, "movzbq ") || starts_with(s, "movzwl ") || starts_with(s, "movzwq ")
        || starts_with(s, "movslq ") || starts_with(s, "movsbq ") || starts_with(s, "movsbl ")
        || starts_with(s, "leaq ") || starts_with(s, "leal ")
}

/// Does the instruction, whose last operand is `reg`, give it a value that does not
/// depend on the one it had?
pub open spec fn sets_anew(s: Seq<char>, reg: RegId) -> bool {
    s == "xorl %eax, %eax"@ || (fills_register(s) && match text::rsplit(s, ", "@) {
        Some((src, _)) => !names_family(src, reg),
        None => false,
    })
}

/// Does the instruction, whose last operand is `reg`, give it a value that does not
/// depend on the one it had?
pub fn gives_new_value(s: &str, reg: RegId) -> (r: bool)
    requires
        types::gp(reg),
    ensures
        r == sets_anew(s@, reg),
{
    same(s, "xorl %eax, %eax") || (fills_a_register(s) && match rsplit_once(s, ", ") {
        Some((src, _)) => !mentions_family(src, reg),
        None => false,
    })
}

/// A register that moves may be folded through: not the stack or frame pointer.
pub open spec fn movable(reg: RegId) -> bool {
    types::gp(reg) && reg != 4 && reg != 5
}

/// The families of `movq %src, %dst` between two different movable registers.
pub open spec fn reg_move(kind: LineKind, s: Seq<char>) -> Option<(RegId, RegId)> {
    if kind is Other && types::gp(kind->dest_reg) {
        match text::after(s, "movq "@) {
            Some(rest) => match text::split(rest, ", "@) {
                Some((a, b)) => {
                    let src = types::family(text::trim(a));
                    let dst = types::family(text::trim(b));
                    if !text::has(a, "("@) && !text::has(b, "("@) && movable(src) && movable(dst)
                        && src != dst {
                        Some((src, dst))
                    } else {
                        None
                    }
                },
                None => None,
            },
            None => None,
        }
    } else {
        None
    }
}

/// The families of `movq %src, %dst` between two different movable registers.
pub fn parse_reg_to_reg_movq(info: &LineInfo, trimmed: &str) -> (r: Option<(RegId, RegId)>)
    ensures
        r == reg_move(info.kind, trimmed@),
        r matches Some((s, d)) ==> movable(s) && movable(d),
{
    if let LineKind::Other { dest_reg } = info.kind {
        if is_valid_gp_reg(dest_reg) {
            if let Some(rest) = strip_prefix(trimmed, "movq ") {
                if let Some((a, b)) = split_once(rest, ", ") {
                    let src = register_family_fast(trim_text(a));
                    let dst = register_family_fast(trim_text(b));
                    if !contains(a, "(") && !contains(b, "(") && is_movable(src) && is_movable(dst)
                        && src != dst {
                        return Some((src, dst));
                    }
                }
            }
        }
    }
    None
}

/// Is this a register that moves may be folded through?
pub fn is_movable(reg: RegId) -> (r: bool)
    ensures
        r == movable(reg),
{
    reg <= REG_GP_MAX && reg != 4 && reg != 5
}

// ── Renaming a register ─────────────────────────────────────────────────────

/// Can `c` be part of a register name?
pub open spec fn is_name_char(c: char) -> bool {
    ('a' <= c && c <= 'z') || ('A' <= c && c <= 'Z') || ('0' <= c && c <= '9')
}

/// The end of the name that starts at `i`.
pub open spec fn name_end(s: Seq<char>, i: int) -> int
    decreases s.len() - i,
{
    if 0 <= i < s.len() && is_name_char(s[i]) {
        name_end(s, i + 1)
    } else {
        i
    }
}

/// A register name with its family changed, at the same size.
pub open spec fn rename(token: Seq<char>, from: RegId, to: RegId) -> Seq<char> {
    if token == types::reg_text(0, from) {
        types::reg_text(0, to)
    } else if token == types::reg_text(1, from) {
        types::reg_text(1, to)
    } else if token == types::reg_text(2, from) {
        types::reg_text(2, to)
    } else if token == types::reg_text(3, from) {
        types::reg_text(3, to)
    } else {
        token
    }
}

/// `s` from position `i` on, with the registers of one family renamed.
pub open spec fn renamed(s: Seq<char>, i: int, from: RegId, to: RegId) -> Seq<char>
    decreases s.len() - i,
{
    if i < 0 || i >= s.len() {
        Seq::empty()
    } else if s[i] == '%' {
        proof {
            lemma_name_end(s, i + 1);
        }
        rename(s.subrange(i, name_end(s, i + 1)), from, to) + renamed(
            s,
            name_end(s, i + 1),
            from,
            to,
        )
    } else {
        seq![s[i]] + renamed(s, i + 1, from, to)
    }
}

/// A name ends at or after its start, within the text.
pub proof fn lemma_name_end(s: Seq<char>, i: int)
    requires
        0 <= i <= s.len(),
    ensures
        i <= name_end(s, i) <= s.len(),
    decreases s.len() - i,
{
    if i < s.len() && is_name_char(s[i]) {
        lemma_name_end(s, i + 1);
    }
}

fn char_is_name(c: char) -> (r: bool)
    ensures
        r == is_name_char(c),
{
    ('a' <= c && c <= 'z') || ('A' <= c && c <= 'Z') || ('0' <= c && c <= '9')
}

fn rename_token<'a>(token: &'a str, from: RegId, to: RegId) -> (r: &'a str)
    requires
        types::gp(from),
        types::gp(to),
    ensures
        r@ == rename(token@, from, to),
{
    if same(token, reg_name(0, from)) {
        reg_name(0, to)
    } else if same(token, reg_name(1, from)) {
        reg_name(1, to)
    } else if same(token, reg_name(2, from)) {
        reg_name(2, to)
    } else if same(token, reg_name(3, from)) {
        reg_name(3, to)
    } else {
        token
    }
}

/// `line` with the registers of one family renamed to another.
pub fn replace_reg_family(line: &str, from: RegId, to: RegId) -> (r: String)
    requires
        types::gp(from),
        types::gp(to),
    ensures
        r@ == renamed(line@, 0, from, to),
{
    let v = to_chars(line);
    let n = v.len();
    let mut out = String::new();
    let mut i: usize = 0;
    proof {
        assert(out@ + renamed(line@, 0, from, to) =~= renamed(line@, 0, from, to));
    }
    while i < n
        invariant
            v@ == line@,
            n == line@.len(),
            i <= n,
            types::gp(from),
            types::gp(to),
            renamed(line@, 0, from, to) == out@ + renamed(line@, i as int, from, to),
        decreases n - i,
    {
        let ghost before = out@;
        if v[i] == '%' {
            let mut e: usize = i + 1;
            proof {
                lemma_name_end(line@, i + 1);
            }
            while e < n && char_is_name(v[e])
                invariant
                    v@ == line@,
                    n == line@.len(),
                    i < e <= n,
                    name_end(line@, i + 1) == name_end(line@, e as int),
                decreases n - e,
            {
                e += 1;
            }
            let token = line.substring_char(i, e);
            out.append(rename_token(token, from, to));
            proof {
                assert(out@ + renamed(line@, e as int, from, to) =~= before + renamed(
                    line@,
                    i as int,
                    from,
                    to,
                ));
            }
            i = e;
        } else {
            out.append(line.substring_char(i, i + 1));
            proof {
                assert(line@.subrange(i as int, i + 1) =~= seq![line@[i as int]]);
                assert(out@ + renamed(line@, i + 1, from, to) =~= before + renamed(
                    line@,
                    i as int,
                    from,
                    to,
                ));
            }
            i += 1;
        }
    }
    assert(out@ + renamed(line@, i as int, from, to) =~= out@);
    out
}

// ── Conditions ──────────────────────────────────────────────────────────────

/// The condition that holds exactly when `cc` does not; `cc` itself where there
/// is none.
pub open spec fn inverted(cc: Seq<char>) -> Seq<char> {
    if cc == "e"@ {
        "ne"@
    } else if cc == "ne"@ {
        "e"@
    } else if cc == "l"@ {
        "ge"@
    } else if cc == "ge"@ {
        "l"@
    } else if cc == "g"@ {
        "le"@
    } else if cc == "le"@ {
        "g"@
    } else if cc == "b"@ {
        "ae"@
    } else if cc == "ae"@ {
        "b"@
    } else if cc == "a"@ {
        "be"@
    } else if cc == "be"@ {
        "a"@
    } else if cc == "s"@ {
        "ns"@
    } else if cc == "ns"@ {
        "s"@
    } else if cc == "o"@ {
        "no"@
    } else if cc == "no"@ {
        "o"@
    } else if cc == "p"@ {
        "np"@
    } else if cc == "np"@ {
        "p"@
    } else if cc == "z"@ {
        "nz"@
    } else if cc == "nz"@ {
        "z"@
    } else {
        cc
    }
}

/// The condition that holds exactly when `cc` does not.
pub fn invert_cc<'a>(cc: &'a str) -> (r: &'a str)
    ensures
        r@ == inverted(cc@),
{
    if same(cc, "e") {
        "ne"
    } else if same(cc, "ne") {
        "e"
    } else if same(cc, "l") {
        "ge"
    } else if same(cc, "ge") {
        "l"
    } else if same(cc, "g") {
        "le"
    } else if same(cc, "le") {
        "g"
    } else if same(cc, "b") {
        "ae"
    } else if same(cc, "ae") {
        "b"
    } else if same(cc, "a") {
        "be"
    } else if same(cc, "be") {
        "a"
    } else if same(cc, "s") {
        "ns"
    } else if same(cc, "ns") {
        "s"
    } else if same(cc, "o") {
        "no"
    } else if same(cc, "no") {
        "o"
    } else if same(cc, "p") {
        "np"
    } else if same(cc, "np") {
        "p"
    } else if same(cc, "z") {
        "nz"
    } else if same(cc, "nz") {
        "z"
    } else {
        cc
    }
}

/// The condition of a `setCC`.
pub open spec fn setcc_cond(s: Seq<char>) -> Option<Seq<char>> {
    match text::after(s, "set"@) {
        Some(rest) => match text::split(rest, " "@) {
            Some((cc, _)) => Some(cc),
            None => None,
        },
        None => None,
    }
}

/// The condition of a `setCC`.
pub fn parse_setcc(s: &str) -> (r: Option<&str>)
    ensures
        text::piece(r) == setcc_cond(s@),
{
    match strip_prefix(s, "set") {
        Some(rest) => match split_once(rest, " ") {
            Some((cc, _)) => Some(cc),
            None => None,
        },
        None => None,
    }
}

// ── Labels and jumps ────────────────────────────────────────────────────────

/// The number of `.LBB<number>`.
pub open spec fn dotl_number(s: Seq<char>) -> Option<u32> {
    match text::after(s, ".LBB"@) {
        Some(rest) => match text::number(rest) {
            Some(n) => if n < u32::MAX {
                Some(n as u32)
            } else {
                None
            },
            None => None,
        },
        None => None,
    }
}

/// The number of `.LBB<number>:`.
pub open spec fn label_number(s: Seq<char>) -> Option<u32> {
    match text::before(s, ":"@) {
        Some(name) => dotl_number(name),
        None => None,
    }
}

/// `.LBB<number>`.
pub open spec fn dotl(n: u32) -> Seq<char> {
    ".LBB"@ + text::decimal(n as int)
}

/// Where a direct jump goes.
pub open spec fn jump_target(s: Seq<char>) -> Option<Seq<char>> {
    match text::split(s, " "@) {
        Some((_, rest)) => {
            let t = text::trim(rest);
            if "*"@.is_prefix_of(t) {
                None
            } else {
                Some(t)
            }
        },
        None => None,
    }
}

/// The number of the label that a jump goes to.
pub open spec fn jump_number(s: Seq<char>) -> Option<u32> {
    match jump_target(s) {
        Some(t) => dotl_number(t),
        None => None,
    }
}

/// The number of `.LBB<number>`.
pub fn parse_dotl_number(s: &str) -> (r: Option<u32>)
    ensures
        r == dotl_number(s@),
        r matches Some(n) ==> n < u32::MAX,
{
    match strip_prefix(s, ".LBB") {
        Some(rest) => parse_digits(rest),
        None => None,
    }
}

/// The number of `.LBB<number>:`.
pub fn parse_label_number(s: &str) -> (r: Option<u32>)
    ensures
        r == label_number(s@),
        r matches Some(n) ==> n < u32::MAX,
{
    match strip_suffix(s, ":") {
        Some(name) => parse_dotl_number(name),
        None => None,
    }
}

/// Appends `.LBB<number>`.
pub fn push_dotl(out: &mut String, n: u32)
    ensures
        final(out)@ == old(out)@ + dotl(n),
{
    out.append(".LBB");
    push_decimal(out, n as i64);
    assert(out@ =~= old(out)@ + dotl(n));
}

/// Where a direct jump goes.
pub fn extract_jump_target(s: &str) -> (r: Option<&str>)
    ensures
        text::piece(r) == jump_target(s@),
{
    match split_once(s, " ") {
        Some((_, rest)) => {
            let t = trim_text(rest);
            if starts_with(t, "*") {
                None
            } else {
                Some(t)
            }
        },
        None => None,
    }
}

/// The number of the label that a jump goes to.
pub fn jump_label_number(s: &str) -> (r: Option<u32>)
    ensures
        r == jump_number(s@),
        r matches Some(n) ==> n < u32::MAX,
{
    match extract_jump_target(s) {
        Some(t) => parse_dotl_number(t),
        None => None,
    }
}

// ── Lines ───────────────────────────────────────────────────────────────────

/// The text of line `i` from its first non-blank character on.
pub fn body_of<'a>(store: &'a LineStore, infos: &[LineInfo], i: usize) -> (r: &'a str)
    requires
        types::code(*store, infos@).wf(),
        i < infos@.len(),
    ensures
        r@ == types::code(*store, infos@).body(i as int),
{
    infos[i].trimmed(store.get(i))
}

/// The first line from `i` on that was not removed, or the end.
pub fn next_live(infos: &[LineInfo], i: usize) -> (r: usize)
    requires
        i <= infos@.len(),
    ensures
        forall|c: Code| c.infos == infos@ ==> #[trigger] c.live_from(i as int) == r,
        i <= r <= infos@.len(),
        r < infos@.len() ==> !(infos@[r as int].kind is Nop),
{
    let mut j: usize = i;
    while j < infos.len() && infos[j].is_nop()
        invariant
            i <= j <= infos@.len(),
            forall|c: Code| c.infos == infos@ ==> #[trigger] c.live_from(i as int) == c.live_from(
                j as int,
            ),
        decreases infos@.len() - j,
    {
        j += 1;
    }
    j
}

/// The first line from `j` on that was not removed and is not empty, or the end.
pub open spec fn code_from(c: Code, j: int) -> int
    decreases c.len() - j,
{
    if 0 <= j < c.len() && (c.nop(j) || c.kind(j) is Empty) {
        code_from(c, j + 1)
    } else {
        j
    }
}

/// The first line from `from` on that was not removed and is not empty, or the end.
pub fn next_code(store: &LineStore, infos: &[LineInfo], from: usize) -> (r: usize)
    requires
        from <= infos@.len(),
    ensures
        from <= r <= infos@.len(),
        r == code_from(types::code(*store, infos@), from as int),
{
    let ghost c = types::code(*store, infos@);
    let len = infos.len();
    let mut j: usize = from;
    while j < len && (infos[j].is_nop() || matches!(infos[j].kind, LineKind::Empty))
        invariant
            c == types::code(*store, infos@),
            len == infos@.len(),
            from <= j <= len,
            code_from(c, from as int) == code_from(c, j as int),
        decreases len - j,
    {
        j += 1;
    }
    j
}

/// The next `max` lines from `i` on that were not removed.
pub open spec fn live_lines(c: Code, i: int, max: nat) -> Seq<usize>
    decreases max,
{
    let j = c.live_from(i);
    if max == 0 || j >= c.len() {
        Seq::empty()
    } else {
        seq![j as usize] + live_lines(c, j + 1, (max - 1) as nat)
    }
}

/// The next `max` lines from `start` on that were not removed.
pub fn collect_non_nop_indices(store: &LineStore, infos: &[LineInfo], start: usize, max: usize) -> (r:
    Vec<usize>)
    requires
        types::code(*store, infos@).wf(),
        start <= infos@.len(),
    ensures
        r@ == live_lines(types::code(*store, infos@), start as int, max as nat),
        r@.len() <= max,
        forall|k: int| 0 <= k < r@.len() ==> start <= #[trigger] r@[k] < infos@.len(),
{
    let ghost c = types::code(*store, infos@);
    let mut out: Vec<usize> = Vec::new();
    let mut i: usize = start;
    let mut left: usize = max;
    proof {
        assert(out@ + live_lines(c, start as int, max as nat) =~= live_lines(
            c,
            start as int,
            max as nat,
        ));
    }
    while left > 0
        invariant
            c == types::code(*store, infos@),
            start <= i <= infos@.len(),
            left <= max,
            out@.len() == max - left,
            forall|k: int| 0 <= k < out@.len() ==> start <= #[trigger] out@[k] < infos@.len(),
            live_lines(c, start as int, max as nat) == out@ + live_lines(c, i as int, left as nat),
        decreases left,
    {
        let j = next_live(infos, i);
        assert(c.live_from(i as int) == j);
        if j >= infos.len() {
            assert(out@ + live_lines(c, i as int, left as nat) =~= out@);
            return out;
        }
        let ghost before = out@;
        out.push(j);
        proof {
            assert(out@ + live_lines(c, j + 1, (left - 1) as nat) =~= before + live_lines(
                c,
                i as int,
                left as nat,
            ));
        }
        i = j + 1;
        left -= 1;
    }
    assert(out@ + live_lines(c, i as int, 0) =~= out@);
    out
}

// ── Jump targets ────────────────────────────────────────────────────────────

/// The labels that jumps may reach.
#[verifier::ext_equal]
pub struct Targets {
    /// Numbered labels that a jump may reach.
    pub numbered: Set<u32>,
    /// Some jump goes to a label without a number, or nowhere known.
    pub other: bool,
}

/// Line `i` is a direct jump.
pub open spec fn is_direct_jump(c: Code, i: int) -> bool {
    c.kind(i) is Jmp || c.kind(i) is CondJmp
}

/// Some line of `c` jumps to label `n`.
pub open spec fn some_jump_to(c: Code, n: u32) -> bool {
    exists|i: int|
        #![trigger c.infos[i]]
        0 <= i < c.len() && is_direct_jump(c, i) && jump_number(c.body(i)) == Some(n)
}

/// Some line of `c` jumps through a register or memory.
pub open spec fn some_indirect_jump(c: Code) -> bool {
    exists|i: int| #![trigger c.infos[i]] 0 <= i < c.len() && c.kind(i) is JmpIndirect
}

/// Some line of `c` jumps to a label without a number.
pub open spec fn some_unnumbered_jump(c: Code) -> bool {
    exists|i: int|
        #![trigger c.infos[i]]
        0 <= i < c.len() && is_direct_jump(c, i) && jump_number(c.body(i)) is None
}

/// Some label of `c` has the number `n` or a greater one.
pub open spec fn some_label_from(c: Code, n: u32) -> bool {
    exists|i: int|
        #![trigger c.infos[i]]
        0 <= i < c.len() && c.kind(i) is Label && label_number(c.body(i)) is Some && n
            <= label_number(c.body(i))->0
}

/// The labels that the jumps of `c` may reach. An indirect jump may reach any.
pub open spec fn targets_of(c: Code) -> Targets {
    Targets {
        numbered: Set::new(
            |n: u32| some_label_from(c, n) && (some_jump_to(c, n) || some_indirect_jump(c)),
        ),
        other: some_unnumbered_jump(c) || some_indirect_jump(c),
    }
}

/// May a jump reach the label with this text?
pub open spec fn reachable_label(t: Targets, s: Seq<char>) -> bool {
    match label_number(s) {
        Some(n) => t.numbered.contains(n),
        None => t.other,
    }
}

/// The labels that jumps may reach.
pub struct JumpTargets {
    pub is_jump_target: Vec<bool>,
    pub has_non_numeric_jump_targets: bool,
}

impl View for JumpTargets {
    type V = Targets;

    open spec fn view(&self) -> Targets {
        Targets {
            numbered: Set::new(
                |n: u32| n < self.is_jump_target@.len() && self.is_jump_target@[n as int],
            ),
            other: self.has_non_numeric_jump_targets,
        }
    }
}

impl JumpTargets {
    /// May a jump reach the label with this text?
    pub fn may_reach(&self, label: &str) -> (r: bool)
        ensures
            r == reachable_label(self@, label@),
    {
        match parse_label_number(label) {
            Some(n) => (n as usize) < self.is_jump_target.len() && self.is_jump_target[n as usize],
            None => self.has_non_numeric_jump_targets,
        }
    }
}

/// One more than the greatest label number, or 0.
pub fn label_table_size(store: &LineStore, infos: &[LineInfo]) -> (r: usize)
    requires
        types::code(*store, infos@).wf(),
    ensures
        forall|n: u32| (n < r) == #[trigger] some_label_from(types::code(*store, infos@), n),
        r <= u32::MAX,
{
    let ghost c = types::code(*store, infos@);
    let mut size: usize = 0;
    let mut i: usize = 0;
    while i < infos.len()
        invariant
            c == types::code(*store, infos@),
            c.wf(),
            i <= infos@.len(),
            size <= u32::MAX,
            forall|k: int|
                #![trigger c.infos[k]]
                0 <= k < i && c.kind(k) is Label && label_number(c.body(k)) is Some ==> label_number(
                    c.body(k),
                )->0 < size,
            size > 0 ==> exists|k: int|
                #![trigger c.infos[k]]
                0 <= k < i && c.kind(k) is Label && label_number(c.body(k)) is Some && label_number(
                    c.body(k),
                )->0 == size - 1,
        decreases infos@.len() - i,
    {
        assert(c.infos[i as int] == infos@[i as int]);
        if matches!(infos[i].kind, LineKind::Label) {
            if let Some(n) = parse_label_number(body_of(store, infos, i)) {
                if (n as usize) >= size {
                    size = n as usize + 1;
                }
            }
        }
        i += 1;
    }
    assert forall|n: u32| (n < size) == #[trigger] some_label_from(c, n) by {
        if n < size {
            let k = choose|k: int|
                #![trigger c.infos[k]]
                0 <= k < i && c.kind(k) is Label && label_number(c.body(k)) is Some && label_number(
                    c.body(k),
                )->0 == size - 1;
            assert(c.infos[k] == infos@[k]);
        }
    }
    size
}

/// The labels that the jumps of a function may reach.
#[verifier::rlimit(30)]
pub fn collect_jump_targets(store: &LineStore, infos: &[LineInfo]) -> (r: JumpTargets)
    requires
        types::code(*store, infos@).wf(),
    ensures
        r@ == targets_of(types::code(*store, infos@)),
{
    let ghost c = types::code(*store, infos@);
    let size = label_table_size(store, infos);
    let mut table: Vec<bool> = Vec::new();
    while table.len() < size
        invariant
            table@.len() <= size,
            forall|k: int| 0 <= k < table@.len() ==> !(#[trigger] table@[k]),
        decreases size - table@.len(),
    {
        table.push(false);
    }
    let mut unnumbered = false;
    let mut indirect = false;
    let mut i: usize = 0;
    while i < infos.len()
        invariant
            c == types::code(*store, infos@),
            c.wf(),
            i <= infos@.len(),
            table@.len() == size,
            size <= u32::MAX,
            forall|n: int|
                0 <= n < size ==> #[trigger] table@[n] == (exists|k: int|
                    #![trigger c.infos[k]]
                    0 <= k < i && is_direct_jump(c, k) && jump_number(c.body(k)) == Some(n as u32)),
            unnumbered == (exists|k: int|
                #![trigger c.infos[k]]
                0 <= k < i && is_direct_jump(c, k) && jump_number(c.body(k)) is None),
            indirect == (exists|k: int|
                #![trigger c.infos[k]]
                0 <= k < i && c.kind(k) is JmpIndirect),
        decreases infos@.len() - i,
    {
        assert(c.infos[i as int] == infos@[i as int]);
        let ghost before = table@;
        match infos[i].kind {
            LineKind::Jmp | LineKind::CondJmp => {
                match jump_label_number(body_of(store, infos, i)) {
                    Some(n) => {
                        if (n as usize) < size {
                            table[n as usize] = true;
                        }
                    },
                    None => {
                        unnumbered = true;
                    },
                }
            },
            LineKind::JmpIndirect => {
                indirect = true;
            },
            _ => {},
        }
        assert forall|n: int| 0 <= n < size implies #[trigger] table@[n] == (exists|k: int|
            #![trigger c.infos[k]]
            0 <= k < i + 1 && is_direct_jump(c, k) && jump_number(c.body(k)) == Some(n as u32)) by {
            if before[n] {
                let k = choose|k: int|
                    #![trigger c.infos[k]]
                    0 <= k < i && is_direct_jump(c, k) && jump_number(c.body(k)) == Some(n as u32);
                assert(c.infos[k] == infos@[k]);
            }
        }
        i += 1;
    }
    if indirect {
        let mut k: usize = 0;
        while k < size
            invariant
                k <= size,
                table@.len() == size,
                forall|n: int| 0 <= n < k ==> #[trigger] table@[n],
            decreases size - k,
        {
            table[k] = true;
            k += 1;
        }
    }
    let r = JumpTargets {
        is_jump_target: table,
        has_non_numeric_jump_targets: unnumbered || indirect,
    };
    proof {
        assert forall|n: u32|
            r@.numbered.contains(n) == #[trigger] targets_of(c).numbered.contains(n) by {
            assert((n < size) == some_label_from(c, n));
        }
        assert(r@.numbered =~= targets_of(c).numbered);
    }
    r
}

// ── Laws ────────────────────────────────────────────────────────────────────

/// The flags that conditions depend on.
pub struct Flags {
    pub zero: bool,
    pub sign: bool,
    pub overflow: bool,
    pub carry: bool,
    pub parity: bool,
}

/// Does a condition hold?
pub open spec fn condition(cc: Seq<char>, f: Flags) -> Option<bool> {
    if cc == "e"@ || cc == "z"@ {
        Some(f.zero)
    } else if cc == "ne"@ || cc == "nz"@ {
        Some(!f.zero)
    } else if cc == "l"@ {
        Some(f.sign != f.overflow)
    } else if cc == "ge"@ {
        Some(f.sign == f.overflow)
    } else if cc == "g"@ {
        Some(!f.zero && f.sign == f.overflow)
    } else if cc == "le"@ {
        Some(f.zero || f.sign != f.overflow)
    } else if cc == "b"@ {
        Some(f.carry)
    } else if cc == "ae"@ {
        Some(!f.carry)
    } else if cc == "a"@ {
        Some(!f.carry && !f.zero)
    } else if cc == "be"@ {
        Some(f.carry || f.zero)
    } else if cc == "s"@ {
        Some(f.sign)
    } else if cc == "ns"@ {
        Some(!f.sign)
    } else if cc == "o"@ {
        Some(f.overflow)
    } else if cc == "no"@ {
        Some(!f.overflow)
    } else if cc == "p"@ {
        Some(f.parity)
    } else if cc == "np"@ {
        Some(!f.parity)
    } else {
        None
    }
}

/// An inverted condition holds exactly when the condition does not, and inverting it
/// again gives the condition back.
pub proof fn law_inverted_condition_is_the_opposite(cc: Seq<char>, f: Flags)
    requires
        condition(cc, f) is Some,
    ensures
        condition(inverted(cc), f) == Some(!condition(cc, f)->0),
        inverted(inverted(cc)) == cc,
{
    lemma_condition_names();
}

/// Where the name of a condition is in the alphabet, for telling names apart.
pub open spec fn name_key(s: Seq<char>) -> int {
    if s.len() == 1 {
        s[0] as int
    } else {
        s[0] as int * 1000 + s[1] as int
    }
}

pub proof fn lemma_condition_names()
    ensures
        name_key("e"@) == 101,
        name_key("ne"@) == 110101,
        name_key("l"@) == 108,
        name_key("ge"@) == 103101,
        name_key("g"@) == 103,
        name_key("le"@) == 108101,
        name_key("b"@) == 98,
        name_key("ae"@) == 97101,
        name_key("a"@) == 97,
        name_key("be"@) == 98101,
        name_key("s"@) == 115,
        name_key("ns"@) == 110115,
        name_key("o"@) == 111,
        name_key("no"@) == 110111,
        name_key("p"@) == 112,
        name_key("np"@) == 110112,
        name_key("z"@) == 122,
        name_key("nz"@) == 110122,
{
    reveal_strlit("e");
    reveal_strlit("ne");
    reveal_strlit("l");
    reveal_strlit("ge");
    reveal_strlit("g");
    reveal_strlit("le");
    reveal_strlit("b");
    reveal_strlit("ae");
    reveal_strlit("a");
    reveal_strlit("be");
    reveal_strlit("s");
    reveal_strlit("ns");
    reveal_strlit("o");
    reveal_strlit("no");
    reveal_strlit("p");
    reveal_strlit("np");
    reveal_strlit("z");
    reveal_strlit("nz");
}

/// What follows the first blank of a jump to `name` is `name`.
proof fn lemma_jump_to(name: Seq<char>)
    requires
        name.len() > 0,
        name[0] == '.',
        !text::is_space(name.last()),
    ensures
        jump_target("jmp "@ + name) == Some(name),
{
    reveal_strlit(" ");
    reveal_strlit("*");
    reveal_strlit("jmp ");
    let jump = "jmp "@ + name;
    assert forall|j: int| 0 <= j < 3 implies !text::occurs_at(jump, " "@, j) by {
        assert(jump.subrange(j, j + 1)[0] == jump[j]);
    }
    assert(jump.subrange(3, 4) =~= " "@);
    assert(text::occurs_at(jump, " "@, 3));
    text::lemma_first_at(jump, " "@, 0);
    assert(text::first_at(jump, " "@, 0) == Some(3int));
    assert(jump.skip(4) =~= name);
    assert(text::trim(name) == name);
    if "*"@.is_prefix_of(name) {
        assert(name.subrange(0, 1)[0] == '*');
    }
}

/// The label of a number is read back as that number, alone, where it is defined and
/// where it is jumped to.
pub proof fn law_label_number_round_trip(n: u32)
    requires
        n < u32::MAX,
    ensures
        dotl_number(dotl(n)) == Some(n),
        label_number(dotl(n) + ":"@) == Some(n),
        jump_number("jmp "@ + dotl(n)) == Some(n),
{
    reveal_strlit(".LBB");
    text::lemma_digits_read_back(n as nat);
    let d = text::decimal(n as int);
    let name = dotl(n);
    assert(name.skip(4) =~= d);
    assert(name.take(4) =~= ".LBB"@);
    assert(dotl_number(name) == Some(n));
    assert(label_number(name + ":"@) == Some(n)) by {
        reveal_strlit(":");
        let label = name + ":"@;
        assert(label.skip(label.len() - 1) =~= ":"@);
        assert(label.take(label.len() - 1) =~= name);
    }
    assert(name[0] == '.');
    assert(name.last() == d.last());
    assert(text::is_digit(d.last()));
    lemma_jump_to(name);
}

} // verus!
