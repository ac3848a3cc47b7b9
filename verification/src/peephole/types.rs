//! Lines of assembly, their classification, and the store that holds them.

use vstd::prelude::*;

use super::text;
use super::text::{
    contains, ends_with, parse_i64, rsplit_once, same, split_once, starts_with, strip_prefix,
    strip_suffix, to_chars, trim_text,
};

verus! {

/// A register family: all the names of one general-purpose register.
///
/// 0 rax, 1 rcx, 2 rdx, 3 rbx, 4 rsp, 5 rbp, 6 rsi, 7 rdi, then r8 to r15.
pub type RegId = u8;

/// Not a general-purpose register.
pub const REG_NONE: RegId = 255;

/// The last register family.
pub const REG_GP_MAX: RegId = 15;

/// The width of a move between a register and a stack slot.
#[derive(Clone, Copy, Debug, PartialEq, Eq, Structural)]
pub enum MoveSize {
    Q,
    L,
    W,
    B,
    /// Sign-extending load, 32 to 64 bits.
    SLQ,
}

/// What a line is.
#[derive(Clone, Copy, Debug, PartialEq, Eq, Structural)]
pub enum LineKind {
    /// Removed; the text is still in the store.
    Nop,
    Empty,
    /// A store to `offset(%rbp)`.
    StoreRbp { reg: RegId, offset: i32, size: MoveSize },
    /// A load from `offset(%rbp)`.
    LoadRbp { reg: RegId, offset: i32, size: MoveSize },
    /// `movq %reg, %reg`.
    SelfMove,
    Label,
    Jmp,
    JmpIndirect,
    CondJmp,
    Call,
    Ret,
    Push { reg: RegId },
    Pop { reg: RegId },
    SetCC { reg: RegId },
    /// A compare or a test.
    Cmp,
    Directive,
    /// Any other instruction, with the register that its last operand names.
    Other { dest_reg: RegId },
}

/// The part that a line plays in extension patterns on `%rax`.
#[derive(Clone, Copy, Debug, PartialEq, Eq, Structural)]
pub enum ExtKind {
    /// None of the below.
    Plain,
    /// `movzbq %al, %rax`
    MovzbqAlRax,
    /// `movzwq %ax, %rax`
    MovzwqAxRax,
    /// `movsbq %al, %rax`
    MovsbqAlRax,
    /// `movslq %eax, %rax`
    MovslqEaxRax,
    /// `movl %eax, %eax`
    MovlEaxEax,
    /// `cltq`
    Cltq,
    /// `movzbq ..., %rax`
    ProducerMovzbqToRax,
    /// `movzwq ..., %rax`
    ProducerMovzwqToRax,
    /// `movsbq ..., %rax`
    ProducerMovsbqToRax,
    /// `movslq ..., %rax`
    ProducerMovslqToRax,
    /// `movq $..., %rax`, of 32 bits
    ProducerMovqConstRax,
    /// 32-bit arithmetic into `%eax`
    ProducerArith32,
    /// `movl ..., %eax`
    ProducerMovlToEax,
    /// `movzbl ..., %eax`
    ProducerMovzbToEax,
    /// `movzwl ..., %eax`
    ProducerMovzwToEax,
    /// `divl` or `idivl`
    ProducerDiv32,
    /// `movq %reg, %rax`
    ProducerMovqRegToRax,
    /// `movq mem, %rax`
    ProducerMovqMemToRax,
}

/// What is known of a line without reading its text again.
#[derive(Clone, Copy, Debug, PartialEq, Eq, Structural)]
pub struct LineInfo {
    pub kind: LineKind,
    pub ext_kind: ExtKind,
    /// Number of leading blanks.
    pub trim_start: usize,
    /// Bit `r` is set if the line names a register of family `r`.
    pub reg_refs: u16,
}

impl LineInfo {
    /// Can this information belong to a line with this text? The blanks are
    /// part of the text, and a removed line plays no part in any pattern.
    pub open spec fn fits(self, text: Seq<char>) -> bool {
        &&& self.trim_start <= text.len()
        &&& self.kind is Nop ==> self.ext_kind is Plain
    }

    /// Does the line stop a local scan?
    pub open spec fn barrier(self) -> bool {
        self.kind is Label || self.kind is Jmp || self.kind is JmpIndirect || self.kind is CondJmp
            || self.kind is Call || self.kind is Ret || self.kind is Directive
    }

    /// Does the line name a register of this family?
    pub open spec fn refs(self, reg: RegId) -> bool {
        self.reg_refs & (1u16 << reg) != 0
    }

    pub fn is_nop(&self) -> (r: bool)
        ensures
            r == (self.kind is Nop),
    {
        matches!(self.kind, LineKind::Nop)
    }

    pub fn is_barrier(&self) -> (r: bool)
        ensures
            r == self.barrier(),
    {
        matches!(
            self.kind,
            LineKind::Label | LineKind::Jmp | LineKind::JmpIndirect | LineKind::CondJmp
            | LineKind::Call | LineKind::Ret | LineKind::Directive
        )
    }

    /// Does the line name a register of this family?
    pub fn references(&self, reg: RegId) -> (r: bool)
        requires
            reg < 16,
        ensures
            r == self.refs(reg),
    {
        self.reg_refs & (1u16 << reg) != 0
    }

    /// The text of the line from its first non-blank character on.
    pub fn trimmed<'a>(&self, line: &'a str) -> (r: &'a str)
        requires
            self.fits(line@),
        ensures
            r@ == line@.skip(self.trim_start as int),
    {
        let n = line.unicode_len();
        let r = line.substring_char(self.trim_start, n);
        assert(r@ == line@.skip(self.trim_start as int));
        r
    }
}

// ── Registers ───────────────────────────────────────────────────────────────

/// The name of a register: size 0 is 64 bits, 1 is 32, 2 is 16 and 3 is 8.
pub open spec fn reg_text(size: usize, fam: RegId) -> Seq<char> {
    if size == 0 {
        match fam {
            0 => "%rax"@,
            1 => "%rcx"@,
            2 => "%rdx"@,
            3 => "%rbx"@,
            4 => "%rsp"@,
            5 => "%rbp"@,
            6 => "%rsi"@,
            7 => "%rdi"@,
            8 => "%r8"@,
            9 => "%r9"@,
            10 => "%r10"@,
            11 => "%r11"@,
            12 => "%r12"@,
            13 => "%r13"@,
            14 => "%r14"@,
            _ => "%r15"@,
        }
    } else if size == 1 {
        match fam {
            0 => "%eax"@,
            1 => "%ecx"@,
            2 => "%edx"@,
            3 => "%ebx"@,
            4 => "%esp"@,
            5 => "%ebp"@,
            6 => "%esi"@,
            7 => "%edi"@,
            8 => "%r8d"@,
            9 => "%r9d"@,
            10 => "%r10d"@,
            11 => "%r11d"@,
            12 => "%r12d"@,
            13 => "%r13d"@,
            14 => "%r14d"@,
            _ => "%r15d"@,
        }
    } else if size == 2 {
        match fam {
            0 => "%ax"@,
            1 => "%cx"@,
            2 => "%dx"@,
            3 => "%bx"@,
            4 => "%sp"@,
            5 => "%bp"@,
            6 => "%si"@,
            7 => "%di"@,
            8 => "%r8w"@,
            9 => "%r9w"@,
            10 => "%r10w"@,
            11 => "%r11w"@,
            12 => "%r12w"@,
            13 => "%r13w"@,
            14 => "%r14w"@,
            _ => "%r15w"@,
        }
    } else {
        match fam {
            0 => "%al"@,
            1 => "%cl"@,
            2 => "%dl"@,
            3 => "%bl"@,
            4 => "%spl"@,
            5 => "%bpl"@,
            6 => "%sil"@,
            7 => "%dil"@,
            8 => "%r8b"@,
            9 => "%r9b"@,
            10 => "%r10b"@,
            11 => "%r11b"@,
            12 => "%r12b"@,
            13 => "%r13b"@,
            14 => "%r14b"@,
            _ => "%r15b"@,
        }
    }
}

/// The name of a register, by size and family.
pub fn reg_name(size: usize, fam: RegId) -> (r: &'static str)
    requires
        size < 4,
        fam <= REG_GP_MAX,
    ensures
        r@ == reg_text(size, fam),
{
    if size == 0 {
        match fam {
            0 => "%rax",
            1 => "%rcx",
            2 => "%rdx",
            3 => "%rbx",
            4 => "%rsp",
            5 => "%rbp",
            6 => "%rsi",
            7 => "%rdi",
            8 => "%r8",
            9 => "%r9",
            10 => "%r10",
            11 => "%r11",
            12 => "%r12",
            13 => "%r13",
            14 => "%r14",
            _ => "%r15",
        }
    } else if size == 1 {
        match fam {
            0 => "%eax",
            1 => "%ecx",
            2 => "%edx",
            3 => "%ebx",
            4 => "%esp",
            5 => "%ebp",
            6 => "%esi",
            7 => "%edi",
            8 => "%r8d",
            9 => "%r9d",
            10 => "%r10d",
            11 => "%r11d",
            12 => "%r12d",
            13 => "%r13d",
            14 => "%r14d",
            _ => "%r15d",
        }
    } else if size == 2 {
        match fam {
            0 => "%ax",
            1 => "%cx",
            2 => "%dx",
            3 => "%bx",
            4 => "%sp",
            5 => "%bp",
            6 => "%si",
            7 => "%di",
            8 => "%r8w",
            9 => "%r9w",
            10 => "%r10w",
            11 => "%r11w",
            12 => "%r12w",
            13 => "%r13w",
            14 => "%r14w",
            _ => "%r15w",
        }
    } else {
        match fam {
            0 => "%al",
            1 => "%cl",
            2 => "%dl",
            3 => "%bl",
            4 => "%spl",
            5 => "%bpl",
            6 => "%sil",
            7 => "%dil",
            8 => "%r8b",
            9 => "%r9b",
            10 => "%r10b",
            11 => "%r11b",
            12 => "%r12b",
            13 => "%r13b",
            14 => "%r14b",
            _ => "%r15b",
        }
    }
}

/// Family of the registers whose 64-bit name is a digit: r8 and r9.
pub open spec fn digit_family(c: char) -> RegId {
    if c == '8' {
        8
    } else if c == '9' {
        9
    } else {
        REG_NONE
    }
}

/// Family of the register whose name, without the `%`, starts `s`.
pub open spec fn family_of_name(s: Seq<char>) -> RegId {
    if s.len() < 2 {
        REG_NONE
    } else if s[0] == 'r' || s[0] == 'e' {
        if s.len() < 3 {
            if s[0] == 'r' {
                digit_family(s[1])
            } else {
                REG_NONE
            }
        } else {
            match (s[1], s[2]) {
                ('a', 'x') => 0,
                ('c', 'x') => 1,
                ('d', 'x') => 2,
                ('d', 'i') => 7,
                ('b', 'x') => 3,
                ('b', 'p') => 5,
                ('s', 'p') => 4,
                ('s', 'i') => 6,
                ('8', _) => 8,
                ('9', _) => 9,
                ('1', '0') => 10,
                ('1', '1') => 11,
                ('1', '2') => 12,
                ('1', '3') => 13,
                ('1', '4') => 14,
                ('1', '5') => 15,
                _ => REG_NONE,
            }
        }
    } else {
        match (s[0], s[1]) {
            ('a', 'x') | ('a', 'l') | ('a', 'h') => 0,
            ('c', 'x') | ('c', 'l') | ('c', 'h') => 1,
            ('d', 'i') => 7,
            ('d', 'x') | ('d', 'l') | ('d', 'h') => 2,
            ('b', 'p') => 5,
            ('b', 'x') | ('b', 'l') | ('b', 'h') => 3,
            ('s', 'p') => 4,
            ('s', 'i') => 6,
            _ => REG_NONE,
        }
    }
}

/// Family of the register that `s`, with its `%`, names.
pub open spec fn family(s: Seq<char>) -> RegId {
    if s.len() > 0 && s[0] == '%' {
        family_of_name(s.skip(1))
    } else {
        REG_NONE
    }
}

/// Is this a general-purpose register?
pub open spec fn gp(reg: RegId) -> bool {
    reg <= REG_GP_MAX
}

/// Family of r8 and r9 by their digit.
pub fn reg_digit_to_id(c: char) -> (r: RegId)
    ensures
        r == digit_family(c),
{
    match c {
        '8' => 8,
        '9' => 9,
        _ => REG_NONE,
    }
}

/// Family of the register whose name, from position `from` on, starts `v`.
pub fn family_at(v: &Vec<char>, from: usize) -> (r: RegId)
    requires
        from <= v@.len(),
    ensures
        r == family_of_name(v@.skip(from as int)),
{
    let len = v.len() - from;
    let ghost s = v@.skip(from as int);
    if len < 2 {
        return REG_NONE;
    }
    let a = v[from];
    let b = v[from + 1];
    assert(a == s[0] && b == s[1]);
    if a == 'r' || a == 'e' {
        if len < 3 {
            return if a == 'r' {
                reg_digit_to_id(b)
            } else {
                REG_NONE
            };
        }
        let c = v[from + 2];
        assert(c == s[2]);
        match (b, c) {
            ('a', 'x') => 0,
            ('c', 'x') => 1,
            ('d', 'x') => 2,
            ('d', 'i') => 7,
            ('b', 'x') => 3,
            ('b', 'p') => 5,
            ('s', 'p') => 4,
            ('s', 'i') => 6,
            ('8', _) => 8,
            ('9', _) => 9,
            ('1', '0') => 10,
            ('1', '1') => 11,
            ('1', '2') => 12,
            ('1', '3') => 13,
            ('1', '4') => 14,
            ('1', '5') => 15,
            _ => REG_NONE,
        }
    } else {
        match (a, b) {
            ('a', 'x') | ('a', 'l') | ('a', 'h') => 0,
            ('c', 'x') | ('c', 'l') | ('c', 'h') => 1,
            ('d', 'i') => 7,
            ('d', 'x') | ('d', 'l') | ('d', 'h') => 2,
            ('b', 'p') => 5,
            ('b', 'x') | ('b', 'l') | ('b', 'h') => 3,
            ('s', 'p') => 4,
            ('s', 'i') => 6,
            _ => REG_NONE,
        }
    }
}

/// Family of the register that `s`, with its `%`, names.
pub fn register_family_fast(s: &str) -> (r: RegId)
    ensures
        r == family(s@),
{
    let v = to_chars(s);
    if v.len() > 0 && v[0] == '%' {
        family_at(&v, 1)
    } else {
        REG_NONE
    }
}

/// Is this a general-purpose register?
pub fn is_valid_gp_reg(reg: RegId) -> (r: bool)
    ensures
        r == gp(reg),
{
    reg <= REG_GP_MAX
}

/// A family is a general-purpose register or none at all.
pub proof fn lemma_family_range(s: Seq<char>)
    ensures
        gp(family(s)) || family(s) == REG_NONE,
        gp(family_of_name(s)) || family_of_name(s) == REG_NONE,
{
}

// ── Classification ──────────────────────────────────────────────────────────

/// Number of leading blanks.
pub open spec fn blanks(s: Seq<char>) -> nat
    decreases s.len(),
{
    if s.len() > 0 && (s[0] == ' ' || s[0] == '\t') {
        1 + blanks(s.skip(1))
    } else {
        0
    }
}

/// The families that `s` names from position `i` on, as a bit set.
pub open spec fn refs_from(s: Seq<char>, i: int) -> u16
    decreases s.len() - i,
{
    if i < 0 || i >= s.len() {
        0
    } else if s[i] == '%' && gp(family_of_name(s.skip(i + 1))) {
        refs_from(s, i + 1) | (1u16 << family_of_name(s.skip(i + 1)))
    } else {
        refs_from(s, i + 1)
    }
}

/// The displacement of a `%rbp`-relative operand.
pub open spec fn rbp_slot(op: Seq<char>) -> Option<i32> {
    match text::before(op, "(%rbp)"@) {
        Some(d) => if d.len() == 0 {
            Some(0i32)
        } else {
            match text::integer(d) {
                Some(n) => if i32::MIN <= n <= i32::MAX {
                    Some(n as i32)
                } else {
                    None
                },
                None => None,
            }
        },
        None => None,
    }
}

/// The width and the operands of a plain move.
pub open spec fn move_operands(s: Seq<char>) -> Option<(MoveSize, Seq<char>, Seq<char>)> {
    let found = if "movq "@.is_prefix_of(s) {
        Some((MoveSize::Q, s.skip("movq "@.len() as int)))
    } else if "movl "@.is_prefix_of(s) {
        Some((MoveSize::L, s.skip("movl "@.len() as int)))
    } else if "movw "@.is_prefix_of(s) {
        Some((MoveSize::W, s.skip("movw "@.len() as int)))
    } else if "movb "@.is_prefix_of(s) {
        Some((MoveSize::B, s.skip("movb "@.len() as int)))
    } else if "movslq "@.is_prefix_of(s) {
        Some((MoveSize::SLQ, s.skip("movslq "@.len() as int)))
    } else {
        None
    };
    match found {
        Some((size, rest)) => match text::split(rest, ", "@) {
            Some((a, b)) => Some((size, text::trim(a), text::trim(b))),
            None => None,
        },
        None => None,
    }
}

/// The kind of a move that has one of its own.
pub open spec fn move_kind(s: Seq<char>) -> Option<LineKind> {
    match move_operands(s) {
        Some((size, a, b)) => {
            if !(size is SLQ) && !text::has(a, "("@) && rbp_slot(b) is Some {
                Some(LineKind::StoreRbp { reg: family(a), offset: rbp_slot(b)->0, size })
            } else if rbp_slot(a) is Some && "%"@.is_prefix_of(b) {
                Some(LineKind::LoadRbp { reg: family(b), offset: rbp_slot(a)->0, size })
            } else if size is Q && a == b && gp(family(a)) {
                Some(LineKind::SelfMove)
            } else {
                None
            }
        },
        None => None,
    }
}

/// The register that the last operand of an instruction names.
pub open spec fn last_operand_reg(s: Seq<char>) -> RegId {
    if s == "cltq"@ || s == "cwtl"@ {
        0
    } else if s == "cqto"@ || s == "cqo"@ || s == "cdq"@ || s == "cltd"@ {
        2
    } else {
        match text::split(s, " "@) {
            Some((_, operands)) => {
                let last = match text::rsplit(operands, ","@) {
                    Some((_, l)) => text::trim(l),
                    None => text::trim(operands),
                };
                if text::has(last, ")"@) {
                    REG_NONE
                } else {
                    family(last)
                }
            },
            None => REG_NONE,
        }
    }
}

/// Is `s` a compare or a test?
pub open spec fn is_compare(s: Seq<char>) -> bool {
    "cmpq "@.is_prefix_of(s) || "cmpl "@.is_prefix_of(s) || "cmpw "@.is_prefix_of(s)
        || "cmpb "@.is_prefix_of(s) || "testq "@.is_prefix_of(s) || "testl "@.is_prefix_of(s)
        || "testw "@.is_prefix_of(s) || "testb "@.is_prefix_of(s) || "ucomisd "@.is_prefix_of(s)
        || "ucomiss "@.is_prefix_of(s)
}

/// The register that follows the first blank of `s`.
pub open spec fn sole_operand(s: Seq<char>) -> RegId {
    match text::split(s, " "@) {
        Some((_, op)) => family(text::trim(op)),
        None => REG_NONE,
    }
}

/// What a line without leading blanks is.
pub open spec fn kind_of(s: Seq<char>) -> LineKind {
    if s.len() == 0 {
        LineKind::Empty
    } else if ":"@.is_suffix_of(s) {
        LineKind::Label
    } else if "."@.is_prefix_of(s) || "#"@.is_prefix_of(s) {
        LineKind::Directive
    } else if "jmp *"@.is_prefix_of(s) || "jmpq *"@.is_prefix_of(s) {
        LineKind::JmpIndirect
    } else if "jmp "@.is_prefix_of(s) {
        LineKind::Jmp
    } else if "j"@.is_prefix_of(s) {
        LineKind::CondJmp
    } else if "call"@.is_prefix_of(s) {
        LineKind::Call
    } else if s == "ret"@ || s == "retq"@ {
        LineKind::Ret
    } else if is_compare(s) {
        LineKind::Cmp
    } else if "pushq "@.is_prefix_of(s) {
        LineKind::Push { reg: sole_operand(s) }
    } else if "popq "@.is_prefix_of(s) {
        LineKind::Pop { reg: sole_operand(s) }
    } else if "set"@.is_prefix_of(s) {
        LineKind::SetCC { reg: sole_operand(s) }
    } else {
        match move_kind(s) {
            Some(k) => k,
            None => LineKind::Other { dest_reg: last_operand_reg(s) },
        }
    }
}

/// Is `s` 32-bit arithmetic into `%eax`?
pub open spec fn is_arith32(s: Seq<char>) -> bool {
    "%eax"@.is_suffix_of(s) && ("addl "@.is_prefix_of(s) || "subl "@.is_prefix_of(s)
        || "imull "@.is_prefix_of(s) || "andl "@.is_prefix_of(s) || "orl "@.is_prefix_of(s)
        || "xorl "@.is_prefix_of(s) || "shll "@.is_prefix_of(s) || "shrl "@.is_prefix_of(s)
        || "sarl "@.is_prefix_of(s) || "negl "@.is_prefix_of(s) || "notl "@.is_prefix_of(s))
}

/// Does `s` move a constant of 32 bits, extended by its sign?
pub open spec fn is_const32(s: Seq<char>) -> bool {
    match text::after(s, "movq $"@) {
        Some(rest) => match text::split(rest, ", "@) {
            Some((a, _)) => match text::integer(text::trim(a)) {
                Some(n) => i32::MIN <= n <= i32::MAX,
                None => false,
            },
            None => false,
        },
        None => false,
    }
}

/// The part that a line without leading blanks plays in extension patterns.
pub open spec fn ext_of(s: Seq<char>) -> ExtKind {
    if s == "movzbq %al, %rax"@ {
        ExtKind::MovzbqAlRax
    } else if s == "movzwq %ax, %rax"@ {
        ExtKind::MovzwqAxRax
    } else if s == "movsbq %al, %rax"@ {
        ExtKind::MovsbqAlRax
    } else if s == "movslq %eax, %rax"@ {
        ExtKind::MovslqEaxRax
    } else if s == "movl %eax, %eax"@ {
        ExtKind::MovlEaxEax
    } else if s == "cltq"@ {
        ExtKind::Cltq
    } else if "divl "@.is_prefix_of(s) || "idivl "@.is_prefix_of(s) {
        ExtKind::ProducerDiv32
    } else if is_arith32(s) {
        ExtKind::ProducerArith32
    } else if ", %rax"@.is_suffix_of(s) {
        if "movzbq "@.is_prefix_of(s) {
            ExtKind::ProducerMovzbqToRax
        } else if "movzwq "@.is_prefix_of(s) {
            ExtKind::ProducerMovzwqToRax
        } else if "movsbq "@.is_prefix_of(s) {
            ExtKind::ProducerMovsbqToRax
        } else if "movslq "@.is_prefix_of(s) {
            ExtKind::ProducerMovslqToRax
        } else if is_const32(s) {
            ExtKind::ProducerMovqConstRax
        } else if "movq "@.is_prefix_of(s) && text::has(s, "("@) {
            ExtKind::ProducerMovqMemToRax
        } else if "movq %"@.is_prefix_of(s) {
            ExtKind::ProducerMovqRegToRax
        } else {
            ExtKind::Plain
        }
    } else if ", %eax"@.is_suffix_of(s) {
        if "movl "@.is_prefix_of(s) {
            ExtKind::ProducerMovlToEax
        } else if "movzbl "@.is_prefix_of(s) {
            ExtKind::ProducerMovzbToEax
        } else if "movzwl "@.is_prefix_of(s) {
            ExtKind::ProducerMovzwToEax
        } else {
            ExtKind::Plain
        }
    } else {
        ExtKind::Plain
    }
}

/// All that is known of a line from its text.
pub open spec fn classified(s: Seq<char>) -> LineInfo {
    let body = s.skip(blanks(s) as int);
    LineInfo {
        kind: kind_of(body),
        ext_kind: ext_of(body),
        trim_start: if blanks(s) <= usize::MAX {
            blanks(s) as usize
        } else {
            0
        },
        reg_refs: refs_from(s, 0),
    }
}

/// There are at most as many blanks as characters.
pub proof fn lemma_blanks(s: Seq<char>)
    ensures
        blanks(s) <= s.len(),
    decreases s.len(),
{
    if s.len() > 0 && (s[0] == ' ' || s[0] == '\t') {
        lemma_blanks(s.skip(1));
    }
}

/// What is known of a line from its text belongs to that text, and a line that
/// was just classified is not a removed one.
pub proof fn lemma_classified(s: Seq<char>)
    ensures
        !(classified(s).kind is Nop),
        classified(s).fits(s),
{
    lemma_blanks(s);
}

fn parse_rbp_slot(op: &str) -> (r: Option<i32>)
    ensures
        r == rbp_slot(op@),
{
    match strip_suffix(op, "(%rbp)") {
        Some(d) => {
            if d.unicode_len() == 0 {
                return Some(0);
            }
            match parse_i64(d) {
                Some(n) => if i32::MIN as i64 <= n && n <= i32::MAX as i64 {
                    Some(n as i32)
                } else {
                    None
                },
                None => None,
            }
        },
        None => None,
    }
}

fn parse_move(s: &str) -> (r: Option<(MoveSize, &str, &str)>)
    ensures
        match r {
            Some((size, a, b)) => move_operands(s@) == Some((size, a@, b@)),
            None => move_operands(s@) is None,
        },
{
    let found: Option<(MoveSize, &str)> = if let Some(rest) = strip_prefix(s, "movq ") {
        Some((MoveSize::Q, rest))
    } else if let Some(rest) = strip_prefix(s, "movl ") {
        Some((MoveSize::L, rest))
    } else if let Some(rest) = strip_prefix(s, "movw ") {
        Some((MoveSize::W, rest))
    } else if let Some(rest) = strip_prefix(s, "movb ") {
        Some((MoveSize::B, rest))
    } else if let Some(rest) = strip_prefix(s, "movslq ") {
        Some((MoveSize::SLQ, rest))
    } else {
        None
    };
    match found {
        Some((size, rest)) => match split_once(rest, ", ") {
            Some((a, b)) => Some((size, trim_text(a), trim_text(b))),
            None => None,
        },
        None => None,
    }
}

fn classify_move(s: &str) -> (r: Option<LineKind>)
    ensures
        r == move_kind(s@),
{
    match parse_move(s) {
        Some((size, a, b)) => {
            let store_slot = parse_rbp_slot(b);
            let load_slot = parse_rbp_slot(a);
            if !matches!(size, MoveSize::SLQ) && !contains(a, "(") && store_slot.is_some() {
                Some(
                    LineKind::StoreRbp {
                        reg: register_family_fast(a),
                        offset: store_slot.unwrap(),
                        size,
                    },
                )
            } else if load_slot.is_some() && starts_with(b, "%") {
                Some(
                    LineKind::LoadRbp {
                        reg: register_family_fast(b),
                        offset: load_slot.unwrap(),
                        size,
                    },
                )
            } else if matches!(size, MoveSize::Q) && same(a, b) && is_valid_gp_reg(
                register_family_fast(a),
            ) {
                Some(LineKind::SelfMove)
            } else {
                None
            }
        },
        None => None,
    }
}

fn find_last_operand_reg(s: &str) -> (r: RegId)
    ensures
        r == last_operand_reg(s@),
{
    if same(s, "cltq") || same(s, "cwtl") {
        return 0;
    }
    if same(s, "cqto") || same(s, "cqo") || same(s, "cdq") || same(s, "cltd") {
        return 2;
    }
    match split_once(s, " ") {
        Some((_, operands)) => {
            let last = match rsplit_once(operands, ",") {
                Some((_, l)) => trim_text(l),
                None => trim_text(operands),
            };
            if contains(last, ")") {
                REG_NONE
            } else {
                register_family_fast(last)
            }
        },
        None => REG_NONE,
    }
}

fn looks_like_compare(s: &str) -> (r: bool)
    ensures
        r == is_compare(s@),
{
    starts_with(s, "cmpq ") || starts_with(s, "cmpl ") || starts_with(s, "cmpw ") || starts_with(
        s,
        "cmpb ",
    ) || starts_with(s, "testq ") || starts_with(s, "testl ") || starts_with(s, "testw ")
        || starts_with(s, "testb ") || starts_with(s, "ucomisd ") || starts_with(s, "ucomiss ")
}

fn find_sole_operand(s: &str) -> (r: RegId)
    ensures
        r == sole_operand(s@),
{
    match split_once(s, " ") {
        Some((_, op)) => register_family_fast(trim_text(op)),
        None => REG_NONE,
    }
}

fn classify_kind(s: &str) -> (r: LineKind)
    ensures
        r == kind_of(s@),
{
    if s.unicode_len() == 0 {
        LineKind::Empty
    } else if ends_with(s, ":") {
        LineKind::Label
    } else if starts_with(s, ".") || starts_with(s, "#") {
        LineKind::Directive
    } else if starts_with(s, "jmp *") || starts_with(s, "jmpq *") {
        LineKind::JmpIndirect
    } else if starts_with(s, "jmp ") {
        LineKind::Jmp
    } else if starts_with(s, "j") {
        LineKind::CondJmp
    } else if starts_with(s, "call") {
        LineKind::Call
    } else if same(s, "ret") || same(s, "retq") {
        LineKind::Ret
    } else if looks_like_compare(s) {
        LineKind::Cmp
    } else if starts_with(s, "pushq ") {
        LineKind::Push { reg: find_sole_operand(s) }
    } else if starts_with(s, "popq ") {
        LineKind::Pop { reg: find_sole_operand(s) }
    } else if starts_with(s, "set") {
        LineKind::SetCC { reg: find_sole_operand(s) }
    } else {
        match classify_move(s) {
            Some(k) => k,
            None => LineKind::Other { dest_reg: find_last_operand_reg(s) },
        }
    }
}

fn looks_like_arith32(s: &str) -> (r: bool)
    ensures
        r == is_arith32(s@),
{
    ends_with(s, "%eax") && (starts_with(s, "addl ") || starts_with(s, "subl ") || starts_with(
        s,
        "imull ",
    ) || starts_with(s, "andl ") || starts_with(s, "orl ") || starts_with(s, "xorl ")
        || starts_with(s, "shll ") || starts_with(s, "shrl ") || starts_with(s, "sarl ")
        || starts_with(s, "negl ") || starts_with(s, "notl "))
}

fn moves_const32(s: &str) -> (r: bool)
    ensures
        r == is_const32(s@),
{
    match strip_prefix(s, "movq $") {
        Some(rest) => match split_once(rest, ", ") {
            Some((a, _)) => match parse_i64(trim_text(a)) {
                Some(n) => -0x8000_0000 <= n && n <= 0x7FFF_FFFF,
                None => false,
            },
            None => false,
        },
        None => false,
    }
}

fn classify_ext(s: &str) -> (r: ExtKind)
    ensures
        r == ext_of(s@),
{
    if same(s, "movzbq %al, %rax") {
        ExtKind::MovzbqAlRax
    } else if same(s, "movzwq %ax, %rax") {
        ExtKind::MovzwqAxRax
    } else if same(s, "movsbq %al, %rax") {
        ExtKind::MovsbqAlRax
    } else if same(s, "movslq %eax, %rax") {
        ExtKind::MovslqEaxRax
    } else if same(s, "movl %eax, %eax") {
        ExtKind::MovlEaxEax
    } else if same(s, "cltq") {
        ExtKind::Cltq
    } else if starts_with(s, "divl ") || starts_with(s, "idivl ") {
        ExtKind::ProducerDiv32
    } else if looks_like_arith32(s) {
        ExtKind::ProducerArith32
    } else if ends_with(s, ", %rax") {
        if starts_with(s, "movzbq ") {
            ExtKind::ProducerMovzbqToRax
        } else if starts_with(s, "movzwq ") {
            ExtKind::ProducerMovzwqToRax
        } else if starts_with(s, "movsbq ") {
            ExtKind::ProducerMovsbqToRax
        } else if starts_with(s, "movslq ") {
            ExtKind::ProducerMovslqToRax
        } else if moves_const32(s) {
            ExtKind::ProducerMovqConstRax
        } else if starts_with(s, "movq ") && contains(s, "(") {
            ExtKind::ProducerMovqMemToRax
        } else if starts_with(s, "movq %") {
            ExtKind::ProducerMovqRegToRax
        } else {
            ExtKind::Plain
        }
    } else if ends_with(s, ", %eax") {
        if starts_with(s, "movl ") {
            ExtKind::ProducerMovlToEax
        } else if starts_with(s, "movzbl ") {
            ExtKind::ProducerMovzbToEax
        } else if starts_with(s, "movzwl ") {
            ExtKind::ProducerMovzwToEax
        } else {
            ExtKind::Plain
        }
    } else {
        ExtKind::Plain
    }
}

fn scan_register_refs(v: &Vec<char>) -> (r: u16)
    ensures
        r == refs_from(v@, 0),
{
    let mut i: usize = v.len();
    let mut refs: u16 = 0;
    while i > 0
        invariant
            i <= v@.len(),
            refs == refs_from(v@, i as int),
        decreases i,
    {
        i -= 1;
        if v[i] == '%' {
            let fam = family_at(v, i + 1);
            if is_valid_gp_reg(fam) {
                refs = refs | (1u16 << fam);
            }
        }
    }
    refs
}

/// The families that `s` names, as a bit set.
pub fn register_refs(s: &str) -> (r: u16)
    ensures
        r == refs_from(s@, 0),
{
    scan_register_refs(&to_chars(s))
}

fn count_blanks(v: &Vec<char>) -> (r: usize)
    ensures
        r == blanks(v@),
        r <= v@.len(),
{
    let mut i: usize = 0;
    proof {
        assert(v@.skip(0) == v@);
    }
    while i < v.len() && (v[i] == ' ' || v[i] == '\t')
        invariant
            i <= v@.len(),
            blanks(v@) == i + blanks(v@.skip(i as int)),
        decreases v@.len() - i,
    {
        assert(v@.skip(i as int).skip(1) == v@.skip(i + 1));
        i += 1;
    }
    i
}

/// All that is known of a line from its text.
pub fn classify_line(line: &str) -> (r: LineInfo)
    ensures
        r == classified(line@),
        r.fits(line@),
{
    let v = to_chars(line);
    let trim_start = count_blanks(&v);
    let n = v.len();
    let body = line.substring_char(trim_start, n);
    assert(body@ == line@.skip(trim_start as int));
    proof {
        lemma_classified(line@);
    }
    LineInfo {
        kind: classify_kind(body),
        ext_kind: classify_ext(body),
        trim_start,
        reg_refs: scan_register_refs(&v),
    }
}

// ── Lines ───────────────────────────────────────────────────────────────────

/// The lines of a function.
pub struct LineStore {
    lines: Vec<String>,
}

impl View for LineStore {
    type V = Seq<Seq<char>>;

    closed spec fn view(&self) -> Seq<Seq<char>> {
        Seq::new(self.lines@.len(), |i: int| self.lines@[i]@)
    }
}

impl LineStore {
    /// A store with these lines.
    pub fn new(lines: Vec<String>) -> (r: LineStore)
        ensures
            r@ == lines@.map_values(|s: String| s@),
    {
        let r = LineStore { lines };
        assert(r@ =~= lines@.map_values(|s: String| s@));
        r
    }

    pub fn len(&self) -> (r: usize)
        ensures
            r == self@.len(),
    {
        self.lines.len()
    }

    /// The text of line `i`.
    pub fn get(&self, i: usize) -> (r: &str)
        requires
            i < self@.len(),
        ensures
            r@ == self@[i as int],
    {
        self.lines[i].as_str()
    }

    /// Puts a text in place of line `i`.
    pub fn replace(&mut self, i: usize, line: String)
        requires
            i < old(self)@.len(),
        ensures
            final(self)@ == old(self)@.update(i as int, line@),
    {
        self.lines[i] = line;
        assert(self@ =~= old(self)@.update(i as int, line@));
    }
}

/// The classification of every line of a store.
pub fn classify_all(store: &LineStore) -> (r: Vec<LineInfo>)
    ensures
        code(*store, r@).wf(),
        forall|i: int| 0 <= i < r@.len() ==> #[trigger] r@[i] == classified(store@[i]),
{
    let mut infos: Vec<LineInfo> = Vec::new();
    let n = store.len();
    while infos.len() < n
        invariant
            n == store@.len(),
            infos@.len() <= n,
            forall|i: int|
                0 <= i < infos@.len() ==> #[trigger] infos@[i] == classified(store@[i])
                    && infos@[i].fits(store@[i]),
        decreases n - infos@.len(),
    {
        let k = infos.len();
        infos.push(classify_line(store.get(k)));
    }
    infos
}

/// Marks a line as removed. The text stays in the store.
pub fn mark_nop(info: &mut LineInfo)
    ensures
        *final(info) == old(info).removed(),
{
    info.kind = LineKind::Nop;
    info.ext_kind = ExtKind::Plain;
    info.reg_refs = 0;
}

impl LineInfo {
    /// What is left of this information when the line is removed.
    pub open spec fn removed(self) -> LineInfo {
        LineInfo {
            kind: LineKind::Nop,
            ext_kind: ExtKind::Plain,
            trim_start: self.trim_start,
            reg_refs: 0,
        }
    }
}

/// Puts a text in place of line `idx` and classifies it.
pub fn replace_line(store: &mut LineStore, info: &mut LineInfo, idx: usize, line: String)
    requires
        idx < old(store)@.len(),
    ensures
        final(store)@ == old(store)@.update(idx as int, line@),
        *final(info) == classified(line@),
        final(info).fits(line@),
{
    *info = classify_line(line.as_str());
    store.replace(idx, line);
}

// ── Model of a function's lines ─────────────────────────────────────────────

/// The lines of a function together with what is known of them.
#[verifier::ext_equal]
pub struct Code {
    pub texts: Seq<Seq<char>>,
    pub infos: Seq<LineInfo>,
}

/// The model of a store and its classification.
pub open spec fn code(store: LineStore, infos: Seq<LineInfo>) -> Code {
    Code { texts: store@, infos }
}

impl Code {
    /// One classification for each line, and it can belong to that line.
    pub open spec fn wf(self) -> bool {
        &&& self.texts.len() == self.infos.len()
        &&& forall|i: int|
            0 <= i < self.infos.len() ==> (#[trigger] self.infos[i]).fits(self.texts[i])
    }

    pub open spec fn len(self) -> int {
        self.infos.len() as int
    }

    /// Line `i` was removed.
    pub open spec fn nop(self, i: int) -> bool {
        self.infos[i].kind is Nop
    }

    pub open spec fn kind(self, i: int) -> LineKind {
        self.infos[i].kind
    }

    /// The text of line `i` from its first non-blank character on.
    pub open spec fn body(self, i: int) -> Seq<char> {
        self.texts[i].skip(self.infos[i].trim_start as int)
    }

    /// The same lines with line `i` removed.
    pub open spec fn remove(self, i: int) -> Code {
        Code { texts: self.texts, infos: self.infos.update(i, self.infos[i].removed()) }
    }

    /// The same lines with a text in place of line `i`.
    pub open spec fn put(self, i: int, line: Seq<char>) -> Code {
        Code { texts: self.texts.update(i, line), infos: self.infos.update(i, classified(line)) }
    }

    /// What is known of each line that is left comes from its text.
    pub open spec fn faithful(self) -> bool {
        &&& self.texts.len() == self.infos.len()
        &&& forall|i: int|
            0 <= i < self.len() && !self.nop(i) ==> #[trigger] self.infos[i] == classified(
                self.texts[i],
            ) && self.texts[i].len() <= usize::MAX
    }

    /// The first line from `i` on that was not removed, or the end.
    pub open spec fn live_from(self, i: int) -> int
        decreases self.len() - i,
    {
        if 0 <= i < self.len() && self.nop(i) {
            self.live_from(i + 1)
        } else {
            i
        }
    }
}

proof fn lemma_refs_behind(s: Seq<char>, n: int, i: int)
    requires
        0 <= n <= s.len(),
        0 <= i,
    ensures
        refs_from(s.skip(n), i) == refs_from(s, n + i),
    decreases s.len() - n - i,
{
    if n + i < s.len() {
        lemma_refs_behind(s, n, i + 1);
        assert(s.skip(n).skip(i + 1) == s.skip(n + i + 1));
    }
}

proof fn lemma_refs_of_blanks(s: Seq<char>, i: int)
    requires
        0 <= i <= s.len(),
    ensures
        refs_from(s, i) == refs_from(s, i + blanks(s.skip(i))),
    decreases s.len() - i,
{
    let rest = s.skip(i);
    if rest.len() > 0 && (rest[0] == ' ' || rest[0] == '\t') {
        assert(rest.skip(1) == s.skip(i + 1));
        lemma_refs_of_blanks(s, i + 1);
    }
}

/// A line that is known by its text is what its body says, and names the registers
/// that its body names.
pub proof fn lemma_faithful_line(c: Code, i: int)
    requires
        c.faithful(),
        0 <= i < c.len(),
        !c.nop(i),
    ensures
        c.kind(i) == kind_of(c.body(i)),
        c.infos[i].ext_kind == ext_of(c.body(i)),
        c.infos[i].reg_refs == refs_from(c.body(i), 0),
{
    let s = c.texts[i];
    assert(c.infos[i] == classified(s));
    lemma_blanks(s);
    assert(s.skip(0) == s);
    lemma_refs_of_blanks(s, 0);
    lemma_refs_behind(s, blanks(s) as int, 0);
}

} // verus!
