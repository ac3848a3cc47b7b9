//! Loop trampoline elimination.
//!
//! The code generator makes "trampoline" blocks for the back edges of loops: new
//! values of the loop variables are computed in fresh registers, and a block of
//! its own moves them back:
//!
//!   .LOOP:
//!       ; ... loop body using %r9, %r10 ...
//!       movq %r9, %r14           ; copy old value to new register
//!       addq $320, %r14          ; modify new value
//!       ; ... loop condition ...
//!       jne .TRAMPOLINE
//!   .TRAMPOLINE:
//!       movq %r14, %r9           ; move new value back
//!       jmp .LOOP
//!
//! For each such move the pass looks for the copy that made the fresh register,
//! lets what follows the copy work on the old register, and removes both copies.
//! Where that works for every move, the branch goes straight to the loop.

use vstd::prelude::*;

use super::helpers;
use super::helpers::{
    body_of, jump_label_number, next_code, push_dotl, replace_reg_family, uses_implicitly,
};
use super::labels;
use super::labels::{collect_numbered_labels, BranchTable, LabelTable};
use super::sweep;
use super::text;
use super::text::{same, split_once, strip_prefix, to_chars, trim_text};
use super::types;
use super::types::{
    family_at, mark_nop, reg_name, replace_line, Code, LineInfo, LineKind, LineStore, RegId,
    REG_NONE,
};

verus! {

// ── Registers and moves ─────────────────────────────────────────────────────

/// Look up a register family from a name string that does NOT have the '%' prefix.
pub fn register_family_no_prefix(name: &str) -> (r: RegId)
    ensures
        r == types::family_of_name(name@),
        r == REG_NONE || types::gp(r),
{
    let v = to_chars(name);
    let r = family_at(&v, 0);
    assert(v@.skip(0) =~= name@);
    r
}

/// A register's family is the same with and without the '%' prefix.
pub proof fn law_prefix_does_not_matter(name: Seq<char>)
    ensures
        types::family("%"@ + name) == types::family_of_name(name),
{
    reveal_strlit("%");
    assert(("%"@ + name).skip(1) =~= name);
}

/// `movq A, B`
pub open spec fn movq_text(a: Seq<char>, b: Seq<char>) -> Seq<char> {
    "movq "@ + a + ", "@ + b
}

fn is_op_reg_reg(trimmed: &str, op: &str, first_reg: &str, second_reg: &str) -> (r: bool)
    ensures
        r == (trimmed@ == op@ + first_reg@ + ", "@ + second_reg@),
{
    let ghost whole = op@ + first_reg@ + ", "@ + second_reg@;
    let rest = match strip_prefix(trimmed, op) {
        Some(rest) => rest,
        None => {
            assert(op@.is_prefix_of(whole));
            return false;
        },
    };
    assert(trimmed@ == op@ + rest@);
    assert(whole.skip(op@.len() as int) =~= first_reg@ + ", "@ + second_reg@);
    let tail = match strip_prefix(rest, first_reg) {
        Some(tail) => tail,
        None => {
            assert(first_reg@.is_prefix_of(first_reg@ + ", "@ + second_reg@));
            return false;
        },
    };
    assert(trimmed@ == op@ + first_reg@ + tail@);
    assert(whole.skip((op@ + first_reg@).len() as int) =~= ", "@ + second_reg@);
    match strip_prefix(tail, ", ") {
        Some(last) => {
            assert(trimmed@ =~= op@ + first_reg@ + ", "@ + last@);
            let ghost n = (op@ + first_reg@ + ", "@).len() as int;
            assert(whole.skip(n) =~= second_reg@);
            assert(trimmed@.skip(n) =~= last@);
            same(last, second_reg)
        },
        None => {
            assert(", "@.is_prefix_of(", "@ + second_reg@));
            false
        },
    }
}

/// Check if trimmed instruction matches "movq <first_reg>, <second_reg>" exactly.
/// `first_reg` and `second_reg` should include the '%' prefix (e.g., "%rax").
pub fn is_movq_reg_reg(trimmed: &str, first_reg: &str, second_reg: &str) -> (r: bool)
    ensures
        r == (trimmed@ == movq_text(first_reg@, second_reg@)),
{
    is_op_reg_reg(trimmed, "movq ", first_reg, second_reg)
}

/// The registers of an instruction `op%SRC, %DST` between two families.
pub open spec fn copied_regs(s: Seq<char>, op: Seq<char>) -> Option<(RegId, RegId)> {
    match text::after(s, op) {
        Some(rest) => match text::split(rest, ", %"@) {
            Some((a, b)) => {
                let src = types::family_of_name(a);
                let dst = types::family_of_name(text::trim(b));
                if src != REG_NONE && dst != REG_NONE && src != dst {
                    Some((src, dst))
                } else {
                    None
                }
            },
            None => None,
        },
        None => None,
    }
}

/// The registers of a `movq` between two families. One that extends does not move its
/// register back as it is.
pub open spec fn block_move(s: Seq<char>) -> Option<(RegId, RegId)> {
    copied_regs(s, "movq %"@)
}

fn parse_copied_regs(s: &str, op: &str) -> (r: Option<(RegId, RegId)>)
    ensures
        r == copied_regs(s@, op@),
        match r {
            Some((src, dst)) => types::gp(src) && types::gp(dst),
            None => true,
        },
{
    match strip_prefix(s, op) {
        Some(rest) => match split_once(rest, ", %") {
            Some((a, b)) => {
                let src = register_family_no_prefix(a);
                let dst = register_family_no_prefix(trim_text(b));
                if src != REG_NONE && dst != REG_NONE && src != dst {
                    Some((src, dst))
                } else {
                    None
                }
            },
            None => None,
        },
        None => None,
    }
}

fn parse_block_move(s: &str) -> (r: Option<(RegId, RegId)>)
    ensures
        r == block_move(s@),
        match r {
            Some((src, dst)) => types::gp(src) && types::gp(dst),
            None => true,
        },
{
    parse_copied_regs(s, "movq %")
}

// ── The trampoline block ────────────────────────────────────────────────────

/// What a trampoline block does.
#[verifier::ext_equal]
pub struct Trampoline {
    /// The moves between registers, as source and destination.
    pub moves: Seq<(RegId, RegId)>,
    /// The lines of the block.
    pub lines: Seq<usize>,
    /// Number of values that are loaded from the stack.
    pub loads: nat,
    /// The label that the block ends by jumping to.
    pub target: Option<u32>,
}

/// Line `j` loads `%rax` from the stack.
pub open spec fn loads_rax(k: LineKind) -> bool {
    match k {
        LineKind::LoadRbp { reg, .. } => reg == 0,
        _ => false,
    }
}

/// The line after line `j` that moves what `j` loaded to another register.
pub open spec fn loaded_copy(c: Code, j: int) -> Option<int> {
    let k = helpers::code_from(c, j + 1);
    if j < k < c.len() {
        match text::after(c.body(k), "movq %rax, %"@) {
            Some(rest) => {
                let dst = types::family_of_name(text::trim(rest));
                if dst != REG_NONE && dst != 0 {
                    Some(k)
                } else {
                    None
                }
            },
            None => None,
        }
    } else {
        None
    }
}

/// The block from line `j` on, after the part `t`.
pub open spec fn trampoline_from(c: Code, j: int, t: Trampoline) -> Trampoline
    decreases c.len() - j,
{
    if j >= c.len() {
        t
    } else if c.nop(j) || c.kind(j) is Empty {
        trampoline_from(c, j + 1, t)
    } else {
        match block_move(c.body(j)) {
            Some(pair) => trampoline_from(
                c,
                j + 1,
                Trampoline { moves: t.moves.push(pair), lines: t.lines.push(j as usize), ..t },
            ),
            None => if loads_rax(c.kind(j)) {
                match loaded_copy(c, j) {
                    Some(k) => trampoline_from(
                        c,
                        k + 1,
                        Trampoline {
                            lines: t.lines.push(j as usize).push(k as usize),
                            loads: t.loads + 1,
                            ..t
                        },
                    ),
                    None => t,
                }
            } else if c.kind(j) is Jmp && helpers::jump_number(c.body(j)) is Some {
                Trampoline {
                    lines: t.lines.push(j as usize),
                    target: helpers::jump_number(c.body(j)),
                    ..t
                }
            } else {
                t
            },
        }
    }
}

/// The block after the label at line `label`.
pub open spec fn trampoline_at(c: Code, label: int) -> Trampoline {
    trampoline_from(
        c,
        label + 1,
        Trampoline { moves: Seq::empty(), lines: Seq::empty(), loads: 0, target: None },
    )
}

struct Block {
    moves: Vec<(RegId, RegId)>,
    lines: Vec<usize>,
    loads: usize,
    target: Option<u32>,
}

impl Block {
    spec fn model(&self) -> Trampoline {
        Trampoline {
            moves: self.moves@,
            lines: self.lines@,
            loads: self.loads as nat,
            target: self.target,
        }
    }

    /// The registers exist, and so do the lines.
    spec fn fits(&self, len: int) -> bool {
        &&& forall|k: int|
            0 <= k < self.moves@.len() ==> types::gp((#[trigger] self.moves@[k]).0) && types::gp(
                self.moves@[k].1,
            )
        &&& forall|k: int| 0 <= k < self.lines@.len() ==> #[trigger] self.lines@[k] < len
    }
}

fn find_loaded_copy(store: &LineStore, infos: &[LineInfo], j: usize) -> (r: Option<usize>)
    requires
        types::code(*store, infos@).wf(),
        j < infos@.len(),
    ensures
        labels::same_line(r, loaded_copy(types::code(*store, infos@), j as int)),
        r is Some ==> j < r->0 < infos@.len(),
{
    let len = infos.len();
    let k = next_code(store, infos, j + 1);
    if k >= len {
        return None;
    }
    match strip_prefix(body_of(store, infos, k), "movq %rax, %") {
        Some(rest) => {
            let dst = register_family_no_prefix(trim_text(rest));
            if dst != REG_NONE && dst != 0 {
                Some(k)
            } else {
                None
            }
        },
        None => None,
    }
}

fn parse_trampoline(store: &LineStore, infos: &[LineInfo], label: usize) -> (r: Block)
    requires
        types::code(*store, infos@).wf(),
        label < infos@.len(),
    ensures
        r.model() == trampoline_at(types::code(*store, infos@), label as int),
        r.fits(infos@.len() as int),
{
    let ghost c = types::code(*store, infos@);
    let len = infos.len();
    let mut b = Block { moves: Vec::new(), lines: Vec::new(), loads: 0, target: None };
    let mut j: usize = label + 1;
    assert(b.moves@ =~= Seq::empty());
    assert(b.lines@ =~= Seq::empty());
    while j < len
        invariant
            c == types::code(*store, infos@),
            c.wf(),
            len == infos@.len(),
            label < j <= len,
            b.loads <= j,
            b.fits(len as int),
            trampoline_at(c, label as int) == trampoline_from(c, j as int, b.model()),
        decreases len - j,
    {
        if infos[j].is_nop() || matches!(infos[j].kind, LineKind::Empty) {
            j += 1;
            continue;
        }
        let body = body_of(store, infos, j);
        if let Some(pair) = parse_block_move(body) {
            b.moves.push(pair);
            b.lines.push(j);
            j += 1;
            continue;
        }
        if let LineKind::LoadRbp { reg, .. } = infos[j].kind {
            if reg == 0 {
                match find_loaded_copy(store, infos, j) {
                    Some(k) => {
                        b.lines.push(j);
                        b.lines.push(k);
                        b.loads = b.loads + 1;
                        j = k + 1;
                        continue;
                    },
                    None => {
                        return b;
                    },
                }
            }
        }
        if matches!(infos[j].kind, LineKind::Jmp) {
            if let Some(n) = jump_label_number(body) {
                b.target = Some(n);
                b.lines.push(j);
            }
        }
        return b;
    }
    b
}

// ── Coalescing one move ─────────────────────────────────────────────────────

/// Does a line of this kind write all of `reg`, so that it can write another
/// register in its place?
pub open spec fn rewritable_write(k: LineKind, reg: RegId) -> bool {
    match k {
        LineKind::Other { dest_reg } => dest_reg == reg,
        LineKind::LoadRbp { reg: r, .. } => r == reg,
        LineKind::Pop { reg: r } => r == reg,
        _ => false,
    }
}

/// Does a line of this kind write the lowest byte of `reg` only?
pub open spec fn sets_byte(k: LineKind, reg: RegId) -> bool {
    match k {
        LineKind::SetCC { reg: r } => r == reg,
        _ => false,
    }
}

/// Going back from line `k`, the line that copies `dst` to `src`, and the lines
/// after it that use `src`, with those in `uses`. There is none where anything in
/// between uses `dst`, uses `src` without naming it, or writes a byte of it only.
pub open spec fn find_copy(c: Code, k: int, src: RegId, dst: RegId, uses: Seq<usize>) -> Option<
    (int, Seq<usize>),
>
    decreases k,
{
    if k <= 0 {
        None
    } else {
        let l = k - 1;
        if c.nop(l) || c.kind(l) is Empty {
            find_copy(c, l, src, dst, uses)
        } else if c.kind(l) is Label || c.kind(l) is Call || c.kind(l) is Jmp
            || c.kind(l) is JmpIndirect || c.kind(l) is Ret || sets_byte(c.kind(l), src) {
            None
        } else if rewritable_write(c.kind(l), src) && c.body(l) == movq_text(
            types::reg_text(0, dst),
            types::reg_text(0, src),
        ) {
            Some((l, uses))
        } else if c.infos[l].refs(dst) || helpers::implicit_reg(c.body(l), dst)
            || helpers::implicit_reg(c.body(l), src) {
            None
        } else if rewritable_write(c.kind(l), src) || c.infos[l].refs(src) {
            find_copy(c, l, src, dst, uses.push(l as usize))
        } else {
            find_copy(c, l, src, dst, uses)
        }
    }
}

/// Is neither `a` nor `b` used from line `m` on? Up to two jumps are followed, and
/// `followed` were; the code after another jump is taken to need neither, and what a
/// return gives back is in `%rax`.
pub open spec fn unread_after(
    lines: Map<u32, int>,
    c: Code,
    m: int,
    a: RegId,
    b: RegId,
    followed: int,
) -> bool
    decreases 2 - followed, c.len() - m,
{
    if m >= c.len() {
        true
    } else if c.nop(m) || c.kind(m) is Empty || c.kind(m) is Label {
        unread_after(lines, c, m + 1, a, b, followed)
    } else if c.kind(m) is Jmp {
        match helpers::jump_number(c.body(m)) {
            Some(n) => if followed < 2 && lines.contains_key(n) {
                unread_after(lines, c, lines[n] + 1, a, b, followed + 1)
            } else {
                true
            },
            None => true,
        }
    } else if c.kind(m) is JmpIndirect {
        true
    } else if c.kind(m) is Ret {
        a != 0 && b != 0
    } else {
        !(c.kind(m) is CondJmp) && !c.infos[m].refs(a) && !c.infos[m].refs(b)
            && !helpers::implicit_reg(c.body(m), a) && !helpers::implicit_reg(c.body(m), b)
            && unread_after(lines, c, m + 1, a, b, followed)
    }
}

/// How the move from `src` to `dst` behind the branch at line `branch` can be
/// undone: the copy to `src`, and the lines that use `src` after it.
pub open spec fn coalescing(
    lines: Map<u32, int>,
    c: Code,
    branch: int,
    src: RegId,
    dst: RegId,
) -> Option<(int, Seq<usize>)> {
    if unread_after(lines, c, branch + 1, dst, src, 0) {
        find_copy(c, branch, src, dst, Seq::empty())
    } else {
        None
    }
}

fn does_rewritable_write(k: LineKind, reg: RegId) -> (r: bool)
    ensures
        r == rewritable_write(k, reg),
{
    match k {
        LineKind::Other { dest_reg } => dest_reg == reg,
        LineKind::LoadRbp { reg: r, .. } => r == reg,
        LineKind::Pop { reg: r } => r == reg,
        _ => false,
    }
}

fn does_set_byte(k: LineKind, reg: RegId) -> (r: bool)
    ensures
        r == sets_byte(k, reg),
{
    match k {
        LineKind::SetCC { reg: r } => r == reg,
        _ => false,
    }
}

fn find_copy_line(
    store: &LineStore,
    infos: &[LineInfo],
    branch: usize,
    src: RegId,
    dst: RegId,
) -> (r: Option<(usize, Vec<usize>)>)
    requires
        types::code(*store, infos@).wf(),
        branch < infos@.len(),
        types::gp(src),
        types::gp(dst),
    ensures
        match r {
            Some((l, uses)) => find_copy(
                types::code(*store, infos@),
                branch as int,
                src,
                dst,
                Seq::empty(),
            ) == Some((l as int, uses@)) && l < infos@.len() && (forall|n: int|
                0 <= n < uses@.len() ==> #[trigger] uses@[n] < infos@.len()),
            None => find_copy(
                types::code(*store, infos@),
                branch as int,
                src,
                dst,
                Seq::empty(),
            ) is None,
        },
{
    let ghost c = types::code(*store, infos@);
    let mut uses: Vec<usize> = Vec::new();
    let mut k: usize = branch;
    assert(uses@ =~= Seq::empty());
    while k > 0
        invariant
            c == types::code(*store, infos@),
            c.wf(),
            k <= branch < infos@.len(),
            types::gp(src),
            types::gp(dst),
            forall|n: int| 0 <= n < uses@.len() ==> #[trigger] uses@[n] < infos@.len(),
            find_copy(c, branch as int, src, dst, Seq::empty()) == find_copy(
                c,
                k as int,
                src,
                dst,
                uses@,
            ),
        decreases k,
    {
        k -= 1;
        let info = infos[k];
        assert(c.infos[k as int] == info);
        if info.is_nop() || matches!(info.kind, LineKind::Empty) {
            continue;
        }
        if matches!(
            info.kind,
            LineKind::Label | LineKind::Call | LineKind::Jmp | LineKind::JmpIndirect | LineKind::Ret
        ) || does_set_byte(info.kind, src) {
            return None;
        }
        let body = body_of(store, infos, k);
        let written = does_rewritable_write(info.kind, src);
        if written && is_movq_reg_reg(body, reg_name(0, dst), reg_name(0, src)) {
            return Some((k, uses));
        }
        if info.references(dst) || uses_implicitly(body, dst) || uses_implicitly(body, src) {
            return None;
        }
        if written || info.references(src) {
            uses.push(k);
        }
    }
    None
}

fn is_unread_after(
    table: &LabelTable,
    store: &LineStore,
    infos: &[LineInfo],
    from: usize,
    a: RegId,
    b: RegId,
) -> (r: bool)
    requires
        types::code(*store, infos@).wf(),
        from <= infos@.len(),
        forall|n: u32| #[trigger] table@.contains_key(n) ==> 0 <= table@[n] < infos@.len(),
        types::gp(a),
        types::gp(b),
    ensures
        r == unread_after(table@, types::code(*store, infos@), from as int, a, b, 0),
{
    let ghost c = types::code(*store, infos@);
    let len = infos.len();
    let mut followed: u32 = 0;
    let mut m: usize = from;
    while m < len
        invariant
            c == types::code(*store, infos@),
            c.wf(),
            len == infos@.len(),
            m <= len,
            followed <= 2,
            forall|n: u32| #[trigger] table@.contains_key(n) ==> 0 <= table@[n] < len,
            types::gp(a),
            types::gp(b),
            unread_after(table@, c, from as int, a, b, 0) == unread_after(
                table@,
                c,
                m as int,
                a,
                b,
                followed as int,
            ),
        decreases 2 - followed, len - m,
    {
        let info = infos[m];
        assert(c.infos[m as int] == info);
        if info.is_nop() || matches!(info.kind, LineKind::Empty | LineKind::Label) {
            m += 1;
            continue;
        }
        if matches!(info.kind, LineKind::Jmp) {
            if followed < 2 {
                if let Some(n) = jump_label_number(body_of(store, infos, m)) {
                    if let Some(l) = table.line_of(n) {
                        m = l + 1;
                        followed += 1;
                        continue;
                    }
                }
            }
            return true;
        }
        if matches!(info.kind, LineKind::JmpIndirect) {
            return true;
        }
        if matches!(info.kind, LineKind::Ret) {
            return a != 0 && b != 0;
        }
        let body = body_of(store, infos, m);
        if matches!(info.kind, LineKind::CondJmp) || info.references(a) || info.references(b)
            || uses_implicitly(body, a) || uses_implicitly(body, b) {
            return false;
        }
        m += 1;
    }
    true
}

fn find_coalescing(
    table: &LabelTable,
    store: &LineStore,
    infos: &[LineInfo],
    branch: usize,
    src: RegId,
    dst: RegId,
) -> (r: Option<(usize, Vec<usize>)>)
    requires
        types::code(*store, infos@).wf(),
        branch < infos@.len(),
        forall|n: u32| #[trigger] table@.contains_key(n) ==> 0 <= table@[n] < infos@.len(),
        types::gp(src),
        types::gp(dst),
    ensures
        match r {
            Some((l, uses)) => coalescing(
                table@,
                types::code(*store, infos@),
                branch as int,
                src,
                dst,
            ) == Some((l as int, uses@)) && l < infos@.len() && (forall|n: int|
                0 <= n < uses@.len() ==> #[trigger] uses@[n] < infos@.len()),
            None => coalescing(
                table@,
                types::code(*store, infos@),
                branch as int,
                src,
                dst,
            ) is None,
        },
{
    let len = infos.len();
    assert(branch < len);
    match find_copy_line(store, infos, branch, src, dst) {
        Some(found) => if is_unread_after(table, store, infos, branch + 1, dst, src) {
            Some(found)
        } else {
            None
        },
        None => None,
    }
}

// ── Coalescing the moves of a block ─────────────────────────────────────────

/// What is to be done about the moves of a block.
#[verifier::ext_equal]
pub struct Plan {
    /// The copies that are removed.
    pub copies: Seq<usize>,
    /// The lines that use another register, with the old and the new one.
    pub renames: Seq<(usize, RegId, RegId)>,
    /// Which of the moves are undone.
    pub done: Seq<bool>,
}

/// Each of `uses` with the two registers.
pub open spec fn tagged(uses: Seq<usize>, src: RegId, dst: RegId) -> Seq<(usize, RegId, RegId)> {
    Seq::new(uses.len(), |k: int| (uses[k], src, dst))
}

/// The plan for the first `n` of `moves`.
pub open spec fn plan_for(
    lines: Map<u32, int>,
    c: Code,
    branch: int,
    moves: Seq<(RegId, RegId)>,
    n: nat,
) -> Plan
    decreases n,
{
    if n == 0 {
        Plan { copies: Seq::empty(), renames: Seq::empty(), done: Seq::empty() }
    } else {
        let p = plan_for(lines, c, branch, moves, (n - 1) as nat);
        let (src, dst) = moves[n - 1];
        match coalescing(lines, c, branch, src, dst) {
            Some((l, uses)) => Plan {
                copies: p.copies.push(l as usize),
                renames: p.renames + tagged(uses, src, dst),
                done: p.done.push(true),
            },
            None => Plan { done: p.done.push(false), ..p },
        }
    }
}

/// The lines with the first `n` of `renames` done.
pub open spec fn rename_all(c: Code, renames: Seq<(usize, RegId, RegId)>, n: nat) -> Code
    decreases n,
{
    if n == 0 {
        c
    } else {
        let d = rename_all(c, renames, (n - 1) as nat);
        let (l, old_fam, new_fam) = renames[n - 1];
        let s = helpers::renamed(d.body(l as int), 0, old_fam, new_fam);
        if s == d.body(l as int) {
            d
        } else {
            d.put(l as int, "    "@ + s)
        }
    }
}

/// Does `s` move `src` back to `dst`?
pub open spec fn moves_back(s: Seq<char>, src: RegId, dst: RegId) -> bool {
    s == movq_text(types::reg_text(0, src), types::reg_text(0, dst))
}

/// The lines without the first of `lines`, from the `k`th on, that moves `src`
/// back to `dst`.
pub open spec fn drop_move(c: Code, lines: Seq<usize>, k: int, src: RegId, dst: RegId) -> Code
    decreases lines.len() - k,
{
    if k < 0 || k >= lines.len() {
        c
    } else if !c.nop(lines[k] as int) && moves_back(c.body(lines[k] as int), src, dst) {
        c.remove(lines[k] as int)
    } else {
        drop_move(c, lines, k + 1, src, dst)
    }
}

/// The lines without those of the first `n` moves that are undone.
pub open spec fn drop_moves(
    c: Code,
    lines: Seq<usize>,
    moves: Seq<(RegId, RegId)>,
    done: Seq<bool>,
    n: nat,
) -> Code
    decreases n,
{
    if n == 0 {
        c
    } else {
        let d = drop_moves(c, lines, moves, done, (n - 1) as nat);
        if done[n - 1] {
            drop_move(d, lines, 0, moves[n - 1].0, moves[n - 1].1)
        } else {
            d
        }
    }
}

/// The lines without a whole block, and with the branch that led there going on
/// to the block's target.
pub open spec fn bypass(
    c: Code,
    lines: Seq<usize>,
    label: int,
    branch: int,
    target: u32,
) -> Code {
    let d = sweep::remove_first(c, lines, lines.len()).remove(label);
    match text::split(d.body(branch), " "@) {
        Some((op, _)) => d.put(branch, "    "@ + op + " "@ + helpers::dotl(target)),
        None => d,
    }
}

/// The lines after the block at the label at line `label` was dealt with, if
/// anything can be done about it. The branch at line `branch` leads there.
pub open spec fn trampoline_step(lines: Map<u32, int>, c: Code, label: int, branch: int) -> Option<
    Code,
> {
    let t = trampoline_at(c, label);
    let p = plan_for(lines, c, branch, t.moves, t.moves.len());
    if t.target is Some && p.copies.len() > 0 {
        let d = rename_all(
            sweep::remove_first(c, p.copies, p.copies.len()),
            p.renames,
            p.renames.len(),
        );
        if p.copies.len() == t.moves.len() && t.loads == 0 {
            Some(bypass(d, t.lines, label, branch, t.target->0))
        } else {
            Some(drop_moves(d, t.lines, t.moves, p.done, t.moves.len()))
        }
    } else {
        None
    }
}

/// The lines after the blocks at `found`, from the `k`th on, were dealt with, and
/// whether anything was done. The labels and branches are those at the start.
pub open spec fn trampoline_sweep(
    lines: Map<u32, int>,
    branches: Map<u32, int>,
    c: Code,
    found: Seq<(u32, usize)>,
    k: int,
) -> (Code, bool)
    decreases found.len() - k,
{
    if k < 0 || k >= found.len() {
        (c, false)
    } else {
        let (n, label) = found[k];
        if branches.contains_key(n) {
            match trampoline_step(lines, c, label as int, branches[n]) {
                Some(d) => (trampoline_sweep(lines, branches, d, found, k + 1).0, true),
                None => trampoline_sweep(lines, branches, c, found, k + 1),
            }
        } else {
            trampoline_sweep(lines, branches, c, found, k + 1)
        }
    }
}

/// The lines after all trampoline blocks were dealt with, and whether anything
/// was done.
pub open spec fn without_trampolines(c: Code) -> (Code, bool) {
    if c.len() < 4 {
        (c, false)
    } else {
        trampoline_sweep(
            labels::label_map(c),
            labels::branch_map(c),
            c,
            labels::numbered_labels(c, c.len()),
            0,
        )
    }
}

/// Rewrite an instruction to use a different register family.
pub fn rewrite_instruction_register(inst: &str, old_fam: RegId, new_fam: RegId) -> (r: Option<
    String,
>)
    requires
        types::gp(old_fam),
        types::gp(new_fam),
    ensures
        match r {
            Some(s) => s@ == helpers::renamed(inst@, 0, old_fam, new_fam) && s@ != inst@,
            None => helpers::renamed(inst@, 0, old_fam, new_fam) == inst@,
        },
{
    let result = replace_reg_family(inst, old_fam, new_fam);
    if same(result.as_str(), inst) {
        None
    } else {
        Some(result)
    }
}

struct Actions {
    copies: Vec<usize>,
    renames: Vec<(usize, RegId, RegId)>,
    done: Vec<bool>,
}

impl Actions {
    spec fn model(&self) -> Plan {
        Plan { copies: self.copies@, renames: self.renames@, done: self.done@ }
    }

    spec fn fits(&self, len: int) -> bool {
        &&& forall|k: int| 0 <= k < self.copies@.len() ==> #[trigger] self.copies@[k] < len
        &&& forall|k: int|
            0 <= k < self.renames@.len() ==> (#[trigger] self.renames@[k]).0 < len && types::gp(
                self.renames@[k].1,
            ) && types::gp(self.renames@[k].2)
    }
}

fn make_plan(
    table: &LabelTable,
    store: &LineStore,
    infos: &[LineInfo],
    branch: usize,
    moves: &Vec<(RegId, RegId)>,
) -> (r: Actions)
    requires
        types::code(*store, infos@).wf(),
        branch < infos@.len(),
        forall|n: u32| #[trigger] table@.contains_key(n) ==> 0 <= table@[n] < infos@.len(),
        forall|k: int|
            0 <= k < moves@.len() ==> types::gp((#[trigger] moves@[k]).0) && types::gp(moves@[k].1),
    ensures
        r.model() == plan_for(
            table@,
            types::code(*store, infos@),
            branch as int,
            moves@,
            moves@.len(),
        ),
        r.fits(infos@.len() as int),
        r.done@.len() == moves@.len(),
{
    let ghost c = types::code(*store, infos@);
    let mut p = Actions { copies: Vec::new(), renames: Vec::new(), done: Vec::new() };
    let mut n: usize = 0;
    assert(p.copies@ =~= Seq::empty());
    assert(p.renames@ =~= Seq::empty());
    assert(p.done@ =~= Seq::empty());
    while n < moves.len()
        invariant
            c == types::code(*store, infos@),
            c.wf(),
            branch < infos@.len(),
            n <= moves@.len(),
            forall|x: u32| #[trigger] table@.contains_key(x) ==> 0 <= table@[x] < infos@.len(),
            forall|k: int|
                0 <= k < moves@.len() ==> types::gp((#[trigger] moves@[k]).0) && types::gp(
                    moves@[k].1,
                ),
            p.fits(infos@.len() as int),
            p.done@.len() == n,
            p.model() == plan_for(table@, c, branch as int, moves@, n as nat),
        decreases moves@.len() - n,
    {
        let (src, dst) = moves[n];
        match find_coalescing(table, store, infos, branch, src, dst) {
            Some((l, uses)) => {
                p.copies.push(l);
                let ghost before = p.renames@;
                let mut u: usize = 0;
                assert(before + tagged(uses@.take(0), src, dst) =~= before);
                while u < uses.len()
                    invariant
                        types::gp(src),
                        types::gp(dst),
                        u <= uses@.len(),
                        forall|x: int| 0 <= x < uses@.len() ==> #[trigger] uses@[x] < infos@.len(),
                        p.fits(infos@.len() as int),
                        p.copies@ == plan_for(table@, c, branch as int, moves@, n as nat).copies.push(
                            l,
                        ),
                        p.done@ == plan_for(table@, c, branch as int, moves@, n as nat).done,
                        p.renames@ == before + tagged(uses@.take(u as int), src, dst),
                    decreases uses@.len() - u,
                {
                    p.renames.push((uses[u], src, dst));
                    u += 1;
                    assert(p.renames@ =~= before + tagged(uses@.take(u as int), src, dst));
                }
                assert(uses@.take(u as int) =~= uses@);
                p.done.push(true);
            },
            None => {
                p.done.push(false);
            },
        }
        n += 1;
    }
    p
}

fn apply_renames(
    store: &mut LineStore,
    infos: &mut [LineInfo],
    renames: &Vec<(usize, RegId, RegId)>,
)
    requires
        types::code(*old(store), old(infos)@).wf(),
        forall|k: int|
            0 <= k < renames@.len() ==> (#[trigger] renames@[k]).0 < old(infos)@.len() && types::gp(
                renames@[k].1,
            ) && types::gp(renames@[k].2),
    ensures
        types::code(*final(store), final(infos)@).wf(),
        final(infos)@.len() == old(infos)@.len(),
        types::code(*final(store), final(infos)@) == rename_all(
            types::code(*old(store), old(infos)@),
            renames@,
            renames@.len(),
        ),
{
    let ghost c = types::code(*store, infos@);
    let len = infos.len();
    let mut n: usize = 0;
    while n < renames.len()
        invariant
            n <= renames@.len(),
            len == infos@.len(),
            forall|k: int|
                0 <= k < renames@.len() ==> (#[trigger] renames@[k]).0 < len && types::gp(
                    renames@[k].1,
                ) && types::gp(renames@[k].2),
            types::code(*store, infos@).wf(),
            types::code(*store, infos@) == rename_all(c, renames@, n as nat),
        decreases renames@.len() - n,
    {
        let (l, old_fam, new_fam) = renames[n];
        if let Some(s) = rewrite_instruction_register(body_of(store, infos, l), old_fam, new_fam) {
            let mut line = "    ".to_owned();
            line.append(s.as_str());
            replace_line(store, &mut infos[l], l, line);
        }
        n += 1;
    }
}

fn remove_lines(store: &LineStore, infos: &mut [LineInfo], lines: &Vec<usize>)
    requires
        types::code(*store, old(infos)@).wf(),
        forall|k: int| 0 <= k < lines@.len() ==> #[trigger] lines@[k] < old(infos)@.len(),
    ensures
        types::code(*store, final(infos)@).wf(),
        final(infos)@.len() == old(infos)@.len(),
        types::code(*store, final(infos)@) == sweep::remove_first(
            types::code(*store, old(infos)@),
            lines@,
            lines@.len(),
        ),
{
    let ghost c = types::code(*store, infos@);
    let len = infos.len();
    let mut n: usize = 0;
    while n < lines.len()
        invariant
            n <= lines@.len(),
            len == infos@.len(),
            forall|k: int| 0 <= k < lines@.len() ==> #[trigger] lines@[k] < len,
            types::code(*store, infos@).wf(),
            types::code(*store, infos@) == sweep::remove_first(c, lines@, n as nat),
        decreases lines@.len() - n,
    {
        mark_nop(&mut infos[lines[n]]);
        n += 1;
    }
}

fn bypass_block(
    store: &mut LineStore,
    infos: &mut [LineInfo],
    lines: &Vec<usize>,
    label: usize,
    branch: usize,
    target: u32,
)
    requires
        types::code(*old(store), old(infos)@).wf(),
        forall|k: int| 0 <= k < lines@.len() ==> #[trigger] lines@[k] < old(infos)@.len(),
        label < old(infos)@.len(),
        branch < old(infos)@.len(),
    ensures
        types::code(*final(store), final(infos)@).wf(),
        final(infos)@.len() == old(infos)@.len(),
        types::code(*final(store), final(infos)@) == bypass(
            types::code(*old(store), old(infos)@),
            lines@,
            label as int,
            branch as int,
            target,
        ),
{
    remove_lines(store, infos, lines);
    mark_nop(&mut infos[label]);
    let new_branch = match split_once(body_of(store, infos, branch), " ") {
        Some((op, _)) => {
            let mut line = "    ".to_owned();
            line.append(op);
            line.append(" ");
            push_dotl(&mut line, target);
            Some(line)
        },
        None => None,
    };
    if let Some(line) = new_branch {
        replace_line(store, &mut infos[branch], branch, line);
    }
}

fn drop_back_move(
    store: &LineStore,
    infos: &mut [LineInfo],
    lines: &Vec<usize>,
    src: RegId,
    dst: RegId,
)
    requires
        types::code(*store, old(infos)@).wf(),
        forall|k: int| 0 <= k < lines@.len() ==> #[trigger] lines@[k] < old(infos)@.len(),
        types::gp(src),
        types::gp(dst),
    ensures
        types::code(*store, final(infos)@).wf(),
        final(infos)@.len() == old(infos)@.len(),
        types::code(*store, final(infos)@) == drop_move(
            types::code(*store, old(infos)@),
            lines@,
            0,
            src,
            dst,
        ),
{
    let ghost c = types::code(*store, infos@);
    let len = infos.len();
    let mut k: usize = 0;
    while k < lines.len()
        invariant
            k <= lines@.len(),
            len == infos@.len(),
            forall|x: int| 0 <= x < lines@.len() ==> #[trigger] lines@[x] < len,
            types::gp(src),
            types::gp(dst),
            infos@ == old(infos)@,
            c == types::code(*store, infos@),
            c.wf(),
            drop_move(c, lines@, 0, src, dst) == drop_move(c, lines@, k as int, src, dst),
        decreases lines@.len() - k,
    {
        let l = lines[k];
        if !infos[l].is_nop() {
            let body = body_of(store, infos, l);
            if is_movq_reg_reg(body, reg_name(0, src), reg_name(0, dst)) {
                mark_nop(&mut infos[l]);
                return;
            }
        }
        k += 1;
    }
}

fn eliminate_trampoline(
    table: &LabelTable,
    store: &mut LineStore,
    infos: &mut [LineInfo],
    label: usize,
    branch: usize,
) -> (applied: bool)
    requires
        types::code(*old(store), old(infos)@).wf(),
        label < old(infos)@.len(),
        branch < old(infos)@.len(),
        forall|n: u32| #[trigger] table@.contains_key(n) ==> 0 <= table@[n] < old(infos)@.len(),
    ensures
        types::code(*final(store), final(infos)@).wf(),
        final(infos)@.len() == old(infos)@.len(),
        trampoline_step(
            table@,
            types::code(*old(store), old(infos)@),
            label as int,
            branch as int,
        ) == if applied {
            Some(types::code(*final(store), final(infos)@))
        } else {
            None
        },
        !applied ==> types::code(*final(store), final(infos)@) == types::code(
            *old(store),
            old(infos)@,
        ),
{
    let len = infos.len();
    let block = parse_trampoline(store, infos, label);
    let target = match block.target {
        Some(n) => n,
        None => {
            return false;
        },
    };
    let plan = make_plan(table, store, infos, branch, &block.moves);
    if plan.copies.len() == 0 {
        return false;
    }
    remove_lines(store, infos, &plan.copies);
    apply_renames(store, infos, &plan.renames);
    if plan.copies.len() == block.moves.len() && block.loads == 0 {
        bypass_block(store, infos, &block.lines, label, branch, target);
        return true;
    }
    let ghost d = types::code(*store, infos@);
    let mut n: usize = 0;
    while n < block.moves.len()
        invariant
            n <= block.moves@.len(),
            len == infos@.len(),
            block.fits(len as int),
            plan.done@.len() == block.moves@.len(),
            types::code(*store, infos@).wf(),
            types::code(*store, infos@) == drop_moves(
                d,
                block.lines@,
                block.moves@,
                plan.done@,
                n as nat,
            ),
        decreases block.moves@.len() - n,
    {
        if plan.done[n] {
            let (src, dst) = block.moves[n];
            drop_back_move(store, infos, &block.lines, src, dst);
        }
        n += 1;
    }
    true
}

/// Lets loops update their variables in place where a trampoline block moved the
/// new values back.
pub fn eliminate_loop_trampolines(store: &mut LineStore, infos: &mut [LineInfo]) -> (changed: bool)
    requires
        types::code(*old(store), old(infos)@).wf(),
    ensures
        (types::code(*final(store), final(infos)@), changed) == without_trampolines(
            types::code(*old(store), old(infos)@),
        ),
        types::code(*final(store), final(infos)@).wf(),
{
    let ghost c0 = types::code(*store, infos@);
    let len = infos.len();
    if len < 4 {
        return false;
    }
    let table = LabelTable::build(store, infos);
    let branches = BranchTable::build(store, infos);
    let found = collect_numbered_labels(store, infos);
    let mut changed = false;
    let mut k: usize = 0;
    while k < found.len()
        invariant
            len == infos@.len(),
            k <= found@.len(),
            forall|x: int| 0 <= x < found@.len() ==> (#[trigger] found@[x]).1 < len,
            forall|n: u32| #[trigger] table@.contains_key(n) ==> 0 <= table@[n] < len,
            forall|n: u32| #[trigger] branches@.contains_key(n) ==> 0 <= branches@[n] < len,
            types::code(*store, infos@).wf(),
            trampoline_sweep(table@, branches@, c0, found@, 0) == (
                trampoline_sweep(
                    table@,
                    branches@,
                    types::code(*store, infos@),
                    found@,
                    k as int,
                ).0,
                changed || trampoline_sweep(
                    table@,
                    branches@,
                    types::code(*store, infos@),
                    found@,
                    k as int,
                ).1,
            ),
        decreases found@.len() - k,
    {
        let (n, label) = found[k];
        if let Some(branch) = branches.sole_branch(n) {
            if eliminate_trampoline(&table, store, infos, label, branch) {
                changed = true;
            }
        }
        k += 1;
    }
    changed
}

} // verus!
