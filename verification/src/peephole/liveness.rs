//! Forward and backward scans that decide whether a register or the flags are
//! still needed.

use vstd::prelude::*;

use super::helpers;
use super::helpers::{
    body_of, extract_jump_target, get_dest_reg, gives_new_value, has_implicit_reg_usage,
    is_callee_saved_reg, next_live, uses_implicitly, JumpTargets, Targets,
};
use super::text;
use super::text::{
    parse_i64, same, split_once, starts_with, strip_prefix, strip_suffix, trim_text,
};
use super::types;
use super::types::{Code, LineInfo, LineKind, LineStore, RegId};

verus! {

// ── Labels ──────────────────────────────────────────────────────────────────

/// The first instruction after the label `target`, searched from line `i` on.
pub open spec fn label_pos_from(c: Code, target: Seq<char>, i: int) -> Option<int>
    decreases c.len() - i,
{
    if i < 0 || i >= c.len() {
        None
    } else if c.kind(i) is Label && target.len() > 0 && c.body(i) == target + ":"@ {
        Some(c.live_from(i + 1))
    } else {
        label_pos_from(c, target, i + 1)
    }
}

/// The first instruction after the label `target`.
pub open spec fn label_pos(c: Code, target: Seq<char>) -> Option<int> {
    label_pos_from(c, target, 0)
}

/// Find the position of a label definition: the first line after it that was
/// not removed.
pub fn find_label_pos(infos: &[LineInfo], store: &LineStore, target: &str) -> (r: Option<usize>)
    requires
        types::code(*store, infos@).wf(),
    ensures
        match r {
            Some(p) => label_pos(types::code(*store, infos@), target@) == Some(p as int) && p
                <= infos@.len(),
            None => label_pos(types::code(*store, infos@), target@) is None,
        },
{
    let ghost c = types::code(*store, infos@);
    let mut idx: usize = 0;
    let nonempty = target.unicode_len() > 0;
    while idx < infos.len()
        invariant
            c == types::code(*store, infos@),
            c.wf(),
            nonempty == (target@.len() > 0),
            idx <= infos@.len(),
            label_pos(c, target@) == label_pos_from(c, target@, idx as int),
        decreases infos@.len() - idx,
    {
        assert(c.infos[idx as int] == infos@[idx as int]);
        if matches!(infos[idx].kind, LineKind::Label) && nonempty {
            let label = body_of(store, infos, idx);
            let hit = match strip_suffix(label, ":") {
                Some(name) => {
                    proof {
                        reveal_strlit(":");
                        assert(label@ == label@.take(label@.len() - 1) + ":"@);
                        if label@ == target@ + ":"@ {
                            assert(label@.take(label@.len() - 1) == target@);
                        }
                    }
                    same(name, target)
                },
                None => {
                    proof {
                        if label@ == target@ + ":"@ {
                            assert(label@.skip(label@.len() - ":"@.len()) == ":"@);
                        }
                    }
                    false
                },
            };
            if hit {
                let p = next_live(infos, idx + 1);
                assert(c.live_from(idx + 1) == p);
                return Some(p);
            }
        }
        idx += 1;
    }
    None
}

// ── Registers ───────────────────────────────────────────────────────────────

/// The model of optional jump targets.
pub open spec fn known_targets(t: Option<&JumpTargets>) -> Option<Targets> {
    match t {
        Some(x) => Some(x@),
        None => None,
    }
}

/// The line where a jump with this text goes.
pub open spec fn jump_line(c: Code, s: Seq<char>) -> Option<int> {
    match helpers::jump_target(s) {
        Some(l) => label_pos(c, l),
        None => None,
    }
}

/// Is `reg` dead from line `k` on, as far as `left` instructions show?
///
/// A register is dead where every path overwrites it before reading it. Up to
/// `depth` jumps are followed, labels that no jump reaches are passed, and a
/// label that a jump may reach is passed if the register is dead there too. A
/// call ends the scan: it kills the registers that it need not keep, unless
/// `call_safe` asks to treat it as a reader. So does a return, which hands out
/// `%rax`. Without the jump targets the scan is local: it gives up at labels,
/// calls and returns.
pub open spec fn reg_dead(
    c: Code,
    t: Option<Targets>,
    reg: RegId,
    k: int,
    left: int,
    depth: nat,
    call_safe: bool,
) -> bool
    decreases depth, c.len() - k,
{
    if k < 0 || k >= c.len() || left <= 0 {
        false
    } else if c.nop(k) {
        reg_dead(c, t, reg, k + 1, left, depth, call_safe)
    } else {
        match c.kind(k) {
            LineKind::Label => match t {
                Some(targets) => if helpers::reachable_label(targets, c.body(k)) {
                    depth > 0 && reg_dead(c, t, reg, k + 1, 16, (depth - 1) as nat, call_safe)
                        && reg_dead(c, t, reg, k + 1, left, depth, call_safe)
                } else {
                    reg_dead(c, t, reg, k + 1, left, depth, call_safe)
                },
                None => false,
            },
            LineKind::Jmp => depth > 0 && match jump_line(c, c.body(k)) {
                Some(p) => reg_dead(c, t, reg, p, 16, (depth - 1) as nat, call_safe),
                None => false,
            },
            LineKind::JmpIndirect => false,
            LineKind::CondJmp => depth > 0 && !helpers::implicit_reg(c.body(k), reg) && reg_dead(
                c,
                t,
                reg,
                k + 1,
                16,
                depth,
                call_safe,
            ) && match jump_line(c, c.body(k)) {
                Some(p) => reg_dead(c, t, reg, p, 16, (depth - 1) as nat, call_safe),
                None => false,
            },
            LineKind::Call => t is Some && !call_safe && reg != 4 && reg != 5
                && !helpers::callee_saved(reg),
            LineKind::Ret => t is Some && reg != 0,
            _ => if helpers::implicit_reg(c.body(k), reg) {
                false
            } else if c.infos[k].refs(reg) {
                helpers::dest_of(c.kind(k)) == reg && helpers::sets_anew(c.body(k), reg)
            } else {
                reg_dead(c, t, reg, k + 1, left - 1, depth, call_safe)
            },
        }
    }
}

/// Where a jump goes, as a line.
fn jump_position(infos: &[LineInfo], store: &LineStore, k: usize) -> (r: Option<usize>)
    requires
        types::code(*store, infos@).wf(),
        k < infos@.len(),
    ensures
        match r {
            Some(p) => jump_line(
                types::code(*store, infos@),
                types::code(*store, infos@).body(k as int),
            ) == Some(p as int) && p <= infos@.len(),
            None => jump_line(
                types::code(*store, infos@),
                types::code(*store, infos@).body(k as int),
            ) is None,
        },
{
    match extract_jump_target(body_of(store, infos, k)) {
        Some(l) => find_label_pos(infos, store, l),
        None => None,
    }
}

/// Core liveness scan with depth-limited cross-block analysis.
fn scan(
    infos: &[LineInfo],
    store: &LineStore,
    start: usize,
    reg: RegId,
    max_scan: usize,
    depth: usize,
    targets: Option<&JumpTargets>,
    call_safe: bool,
) -> (r: bool)
    requires
        types::code(*store, infos@).wf(),
        types::gp(reg),
    ensures
        r == reg_dead(
            types::code(*store, infos@),
            known_targets(targets),
            reg,
            start as int,
            max_scan as int,
            depth as nat,
            call_safe,
        ),
    decreases depth, infos@.len() - start,
{
    let ghost c = types::code(*store, infos@);
    let ghost t = known_targets(targets);
    let mut left: usize = max_scan;
    let mut k: usize = start;
    while k < infos.len() && left > 0
        invariant
            c == types::code(*store, infos@),
            c.wf(),
            t == known_targets(targets),
            start <= k,
            k == start || k <= infos@.len(),
            types::gp(reg),
            reg_dead(c, t, reg, start as int, max_scan as int, depth as nat, call_safe) == reg_dead(
                c,
                t,
                reg,
                k as int,
                left as int,
                depth as nat,
                call_safe,
            ),
        decreases infos@.len() - k,
    {
        assert(c.infos[k as int] == infos@[k as int]);
        if infos[k].is_nop() {
            k += 1;
            continue;
        }
        match infos[k].kind {
            LineKind::Label => {
                match targets {
                    Some(known) => {
                        if known.may_reach(body_of(store, infos, k)) {
                            if depth == 0 || !scan(
                                infos,
                                store,
                                k + 1,
                                reg,
                                16,
                                depth - 1,
                                targets,
                                call_safe,
                            ) {
                                return false;
                            }
                        }
                        k += 1;
                        continue;
                    },
                    None => {
                        return false;
                    },
                }
            },
            LineKind::Jmp => {
                if depth > 0 {
                    if let Some(p) = jump_position(infos, store, k) {
                        return scan(infos, store, p, reg, 16, depth - 1, targets, call_safe);
                    }
                }
                return false;
            },
            LineKind::JmpIndirect => {
                return false;
            },
            LineKind::CondJmp => {
                if depth == 0 || uses_implicitly(body_of(store, infos, k), reg) {
                    return false;
                }
                let target = jump_position(infos, store, k);
                // The fall-through path goes on with the same code.
                if !scan(infos, store, k + 1, reg, 16, depth, targets, call_safe) {
                    return false;
                }
                // The path that jumps is a new one.
                if let Some(p) = target {
                    return scan(infos, store, p, reg, 16, depth - 1, targets, call_safe);
                }
                return false;
            },
            LineKind::Call => {
                return targets.is_some() && !call_safe && reg != 4 && reg != 5
                    && !is_callee_saved_reg(reg);
            },
            LineKind::Ret => {
                // The return value lives in the first register.
                return targets.is_some() && reg != 0;
            },
            _ => {},
        }
        let body = body_of(store, infos, k);
        if uses_implicitly(body, reg) {
            return false;
        }
        if infos[k].references(reg) {
            return get_dest_reg(&infos[k]) == reg && gives_new_value(body, reg);
        }
        left -= 1;
        k += 1;
    }
    false
}

/// Liveness scan that lets a call kill the registers that it need not keep.
pub fn is_reg_dead_scan(
    infos: &[LineInfo],
    store: &LineStore,
    start: usize,
    reg: RegId,
    max_scan: usize,
    depth: usize,
    targets: Option<&JumpTargets>,
) -> (r: bool)
    requires
        types::code(*store, infos@).wf(),
        types::gp(reg),
    ensures
        r == reg_dead(
            types::code(*store, infos@),
            known_targets(targets),
            reg,
            start as int,
            max_scan as int,
            depth as nat,
            false,
        ),
{
    scan(infos, store, start, reg, max_scan, depth, targets, false)
}

/// Like `is_reg_dead_scan`, but a call counts as a reader of the register.
pub fn is_reg_dead_scan_call_safe(
    infos: &[LineInfo],
    store: &LineStore,
    start: usize,
    reg: RegId,
    max_scan: usize,
    depth: usize,
    targets: Option<&JumpTargets>,
) -> (r: bool)
    requires
        types::code(*store, infos@).wf(),
        types::gp(reg),
    ensures
        r == reg_dead(
            types::code(*store, infos@),
            known_targets(targets),
            reg,
            start as int,
            max_scan as int,
            depth as nat,
            true,
        ),
{
    scan(infos, store, start, reg, max_scan, depth, targets, true)
}

/// Is `reg` dead from line `k` on, by the local scan?
pub open spec fn dead_after(c: Code, k: int, reg: RegId) -> bool {
    reg_dead(c, None, reg, k, 16, 0, false)
}

/// Is `reg` dead from line `k` on, by the scan that follows jumps?
pub open spec fn dead_after_ext(c: Code, t: Targets, k: int, reg: RegId) -> bool {
    reg_dead(c, Some(t), reg, k, 24, 5, false)
}

/// Is `reg` unused from line `k` on, calls included?
pub open spec fn unused_after_ext(c: Code, t: Targets, k: int, reg: RegId) -> bool {
    reg_dead(c, Some(t), reg, k, 24, 5, true)
}

/// Check if a register is dead (not read before being overwritten) starting
/// from position `start`, within 16 instructions and one block.
pub fn is_reg_dead_after(infos: &[LineInfo], store: &LineStore, start: usize, reg: RegId) -> (r:
    bool)
    requires
        types::code(*store, infos@).wf(),
        types::gp(reg),
    ensures
        r == dead_after(types::code(*store, infos@), start as int, reg),
{
    is_reg_dead_scan(infos, store, start, reg, 16, 0, None)
}

/// Extended liveness check that looks past jumps and labels.
pub fn is_reg_dead_after_ext(
    infos: &[LineInfo],
    store: &LineStore,
    start: usize,
    reg: RegId,
    targets: &JumpTargets,
) -> (r: bool)
    requires
        types::code(*store, infos@).wf(),
        types::gp(reg),
    ensures
        r == dead_after_ext(types::code(*store, infos@), targets@, start as int, reg),
{
    is_reg_dead_scan(infos, store, start, reg, 24, 5, Some(targets))
}

/// Call-safe variant of `is_reg_dead_after_ext`: a register that a call may
/// read as an argument is not unused.
pub fn is_reg_unused_after_ext(
    infos: &[LineInfo],
    store: &LineStore,
    start: usize,
    reg: RegId,
    targets: &JumpTargets,
) -> (r: bool)
    requires
        types::code(*store, infos@).wf(),
        types::gp(reg),
    ensures
        r == unused_after_ext(types::code(*store, infos@), targets@, start as int, reg),
{
    is_reg_dead_scan_call_safe(infos, store, start, reg, 24, 5, Some(targets))
}

// ── Flags ───────────────────────────────────────────────────────────────────

/// Does the instruction leave the flags alone?
pub open spec fn keeps_flags(s: Seq<char>) -> bool {
    "mov"@.is_prefix_of(s) || "lea"@.is_prefix_of(s) || "pushq "@.is_prefix_of(s)
        || "popq "@.is_prefix_of(s)
}

/// What follows one of four prefixes.
pub open spec fn after_one(
    s: Seq<char>,
    a: Seq<char>,
    b: Seq<char>,
    c: Seq<char>,
    d: Seq<char>,
) -> Option<Seq<char>> {
    if a.is_prefix_of(s) {
        text::after(s, a)
    } else if b.is_prefix_of(s) {
        text::after(s, b)
    } else if c.is_prefix_of(s) {
        text::after(s, c)
    } else {
        text::after(s, d)
    }
}

/// The number before the first comma.
pub open spec fn first_number(s: Seq<char>) -> Option<int> {
    match text::split(s, ","@) {
        Some((a, _)) => text::integer(text::trim(a)),
        None => None,
    }
}

/// Does the instruction shift by a constant, of 1 to 31? By none the flags would stay as
/// they are, and larger numbers are not taken in full.
#[verifier::opaque]
pub open spec fn shifts_by_constant(s: Seq<char>) -> bool {
    match after_one(s, "shl"@, "shr"@, "sar"@, "sal"@) {
        Some(rest) => match after_one(rest, "q $"@, "l $"@, "w $"@, "b $"@) {
            Some(r) => match first_number(r) {
                Some(n) => 1 <= n <= 31,
                None => false,
            },
            None => false,
        },
        None => false,
    }
}

/// Does the instruction add, subtract, negate or combine bits?
#[verifier::opaque]
pub open spec fn computes_flags(s: Seq<char>) -> bool {
    "addq "@.is_prefix_of(s) || "addl "@.is_prefix_of(s) || "addw "@.is_prefix_of(s)
        || "addb "@.is_prefix_of(s) || "subq "@.is_prefix_of(s) || "subl "@.is_prefix_of(s)
        || "subw "@.is_prefix_of(s) || "subb "@.is_prefix_of(s) || "andq "@.is_prefix_of(s)
        || "andl "@.is_prefix_of(s) || "andw "@.is_prefix_of(s) || "andb "@.is_prefix_of(s)
        || "orq "@.is_prefix_of(s) || "orl "@.is_prefix_of(s) || "orw "@.is_prefix_of(s)
        || "orb "@.is_prefix_of(s) || "xorq "@.is_prefix_of(s) || "xorl "@.is_prefix_of(s)
        || "xorw "@.is_prefix_of(s) || "xorb "@.is_prefix_of(s) || "negq "@.is_prefix_of(s)
        || "negl "@.is_prefix_of(s) || "negw "@.is_prefix_of(s) || "negb "@.is_prefix_of(s)
}

/// Does the instruction, which is not a compare, give every flag a new value?
pub open spec fn sets_flags(s: Seq<char>) -> bool {
    computes_flags(s) || shifts_by_constant(s)
}

/// Are the flags overwritten before they are read, between lines `k` and `end`?
pub open spec fn flags_dead(c: Code, k: int, end: int) -> bool
    decreases end - k,
{
    if k < 0 || k >= end || k >= c.len() {
        false
    } else if c.nop(k) || c.kind(k) is Label || c.kind(k) is Empty {
        flags_dead(c, k + 1, end)
    } else if c.kind(k) is Cmp {
        true
    } else if c.infos[k].barrier() {
        false
    } else if keeps_flags(c.body(k)) {
        flags_dead(c, k + 1, end)
    } else {
        sets_flags(c.body(k))
    }
}

/// Are the flags dead from line `k` on, within 24 lines?
pub open spec fn flags_dead_after(c: Code, k: int) -> bool {
    flags_dead(c, k, k + 24)
}

/// Check if an instruction preserves flags (does not modify EFLAGS).
pub fn is_flag_preserving(trimmed: &str) -> (r: bool)
    ensures
        r == keeps_flags(trimmed@),
{
    starts_with(trimmed, "mov") || starts_with(trimmed, "lea") || starts_with(trimmed, "pushq ")
        || starts_with(trimmed, "popq ")
}

fn strip_one<'a>(s: &'a str, a: &str, b: &str, c: &str, d: &str) -> (r: Option<&'a str>)
    ensures
        match r {
            Some(rest) => after_one(s@, a@, b@, c@, d@) == Some(rest@),
            None => after_one(s@, a@, b@, c@, d@) is None,
        },
{
    if starts_with(s, a) {
        strip_prefix(s, a)
    } else if starts_with(s, b) {
        strip_prefix(s, b)
    } else if starts_with(s, c) {
        strip_prefix(s, c)
    } else {
        strip_prefix(s, d)
    }
}

fn parse_first_number(s: &str) -> (r: Option<i64>)
    ensures
        match r {
            Some(n) => first_number(s@) == Some(n as int),
            None => first_number(s@) is None,
        },
{
    match split_once(s, ",") {
        Some((a, _)) => parse_i64(trim_text(a)),
        None => None,
    }
}

fn is_shift_by_constant(s: &str) -> (r: bool)
    ensures
        r == shifts_by_constant(s@),
{
    proof {
        reveal(shifts_by_constant);
    }
    match strip_one(s, "shl", "shr", "sar", "sal") {
        Some(rest) => match strip_one(rest, "q $", "l $", "w $", "b $") {
            Some(r) => match parse_first_number(r) {
                Some(n) => 1 <= n && n <= 31,
                None => false,
            },
            None => false,
        },
        None => false,
    }
}

/// Does the instruction, which is not a compare, give every flag a new value?
fn gives_new_flags(s: &str) -> (r: bool)
    ensures
        r == sets_flags(s@),
{
    is_shift_by_constant(s) || computes_new_flags(s)
}

fn computes_new_flags(s: &str) -> (r: bool)
    ensures
        r == computes_flags(s@),
{
    proof {
        reveal(computes_flags);
    }
    starts_with(s, "addq ") || starts_with(s, "addl ") || starts_with(s, "addw ") || starts_with(
        s,
        "addb ",
    ) || starts_with(s, "subq ") || starts_with(s, "subl ") || starts_with(s, "subw ")
        || starts_with(s, "subb ") || starts_with(s, "andq ") || starts_with(s, "andl ")
        || starts_with(s, "andw ") || starts_with(s, "andb ") || starts_with(s, "orq ")
        || starts_with(s, "orl ") || starts_with(s, "orw ") || starts_with(s, "orb ")
        || starts_with(s, "xorq ") || starts_with(s, "xorl ") || starts_with(s, "xorw ")
        || starts_with(s, "xorb ") || starts_with(s, "negq ") || starts_with(s, "negl ")
        || starts_with(s, "negw ") || starts_with(s, "negb ")
}

/// Check if CPU flags are dead (will be overwritten before being read) starting
/// from position `start`.
pub fn are_flags_dead_after(infos: &[LineInfo], store: &LineStore, start: usize) -> (r: bool)
    requires
        types::code(*store, infos@).wf(),
    ensures
        r == flags_dead_after(types::code(*store, infos@), start as int),
{
    let ghost c = types::code(*store, infos@);
    let len = infos.len();
    if start >= len {
        return false;
    }
    let end: usize = if len - start > 24 {
        start + 24
    } else {
        len
    };
    let mut k: usize = start;
    while k < end
        invariant
            c == types::code(*store, infos@),
            c.wf(),
            len == infos@.len(),
            start <= k <= end <= len,
            end == start + 24 || (end == len && len <= start + 24),
            flags_dead_after(c, start as int) == flags_dead(c, k as int, start + 24),
        decreases end - k,
    {
        assert(c.infos[k as int] == infos@[k as int]);
        if infos[k].is_nop() {
            k += 1;
            continue;
        }
        match infos[k].kind {
            LineKind::Cmp => {
                return true;
            },
            LineKind::Label | LineKind::Empty => {
                // What is read from here on does not depend on the way here.
                k += 1;
                continue;
            },
            _ => {},
        }
        if infos[k].is_barrier() {
            return false;
        }
        let body = body_of(store, infos, k);
        if !is_flag_preserving(body) {
            return gives_new_flags(body);
        }
        k += 1;
    }
    false
}

// ── 32-bit values ───────────────────────────────────────────────────────────

/// Is `s` an instruction that writes the low half of its destination and clears
/// the high half?
#[verifier::opaque]
pub open spec fn is_write32(s: Seq<char>) -> bool {
    "andl "@.is_prefix_of(s) || "addl "@.is_prefix_of(s) || "subl "@.is_prefix_of(s)
        || "orl "@.is_prefix_of(s) || "xorl "@.is_prefix_of(s) || "shll "@.is_prefix_of(s)
        || "shrl "@.is_prefix_of(s) || "sarl "@.is_prefix_of(s) || "imull "@.is_prefix_of(s)
        || "movl "@.is_prefix_of(s) || "movzbl "@.is_prefix_of(s) || "movzwl "@.is_prefix_of(s)
}

fn writes_low_half(s: &str) -> (r: bool)
    ensures
        r == is_write32(s@),
{
    proof {
        reveal(is_write32);
    }
    starts_with(s, "andl ") || starts_with(s, "addl ") || starts_with(s, "subl ") || starts_with(
        s,
        "orl ",
    ) || starts_with(s, "xorl ") || starts_with(s, "shll ") || starts_with(s, "shrl ")
        || starts_with(s, "sarl ") || starts_with(s, "imull ") || starts_with(s, "movl ")
        || starts_with(s, "movzbl ") || starts_with(s, "movzwl ")
}

/// Does `s` begin with `op` and a number in the range?
pub open spec fn has_number(s: Seq<char>, op: Seq<char>, low: i64, high: i64) -> bool {
    match text::after(s, op) {
        Some(rest) => match first_number(rest) {
            Some(n) => low <= n <= high,
            None => false,
        },
        None => false,
    }
}

/// Does `s` combine a register with itself by `xorl`?
pub open spec fn clears_itself(s: Seq<char>) -> bool {
    match text::after(s, "xorl "@) {
        Some(rest) => match text::split(rest, ","@) {
            Some((a, b)) => text::trim(a) == text::trim(b) && types::gp(
                types::family(text::trim(a)),
            ),
            None => false,
        },
        None => false,
    }
}

/// Is `s` a 32-bit instruction that clears the sign bit of its destination too: an
/// extension of fewer bits, a constant or a mask without that bit, a shift to the right,
/// or the clearing of a register?
#[verifier::opaque]
pub open spec fn is_write31(s: Seq<char>) -> bool {
    "movzbl "@.is_prefix_of(s) || "movzwl "@.is_prefix_of(s) || has_number(
        s,
        "andl $"@,
        0,
        0x7FFF_FFFF,
    ) || has_number(s, "movl $"@, 0, 0x7FFF_FFFF) || has_number(s, "shrl $"@, 1, 31)
        || clears_itself(s)
}

fn begins_with_number(s: &str, op: &str, low: i64, high: i64) -> (r: bool)
    ensures
        r == has_number(s@, op@, low, high),
{
    match strip_prefix(s, op) {
        Some(rest) => match parse_first_number(rest) {
            Some(n) => low <= n && n <= high,
            None => false,
        },
        None => false,
    }
}

fn is_cleared_by_itself(s: &str) -> (r: bool)
    ensures
        r == clears_itself(s@),
{
    match strip_prefix(s, "xorl ") {
        Some(rest) => match split_once(rest, ",") {
            Some((a, b)) => same(trim_text(a), trim_text(b)) && types::is_valid_gp_reg(
                types::register_family_fast(trim_text(a)),
            ),
            None => false,
        },
        None => false,
    }
}

fn clears_sign(s: &str) -> (r: bool)
    ensures
        r == is_write31(s@),
{
    proof {
        reveal(is_write31);
    }
    starts_with(s, "movzbl ") || starts_with(s, "movzwl ") || begins_with_number(
        s,
        "andl $",
        0,
        0x7FFF_FFFF,
    ) || begins_with_number(s, "movl $", 0, 0x7FFF_FFFF) || begins_with_number(s, "shrl $", 1, 31)
        || is_cleared_by_itself(s)
}

/// Was the value of `reg` made by a 32-bit instruction, looking back from line
/// `k` over at most `left` instructions? If `positive` is set, by one that leaves the
/// sign bit of the 32 bits clear.
pub open spec fn known_value(c: Code, k: int, left: int, reg: RegId, positive: bool) -> bool
    decreases k + 1,
{
    if left <= 0 || k < 0 {
        false
    } else if c.nop(k) {
        known_value(c, k - 1, left, reg, positive)
    } else if c.infos[k].barrier() {
        false
    } else if c.kind(k) is StoreRbp {
        known_value(c, k - 1, left - 1, reg, positive)
    } else if helpers::dest_of(c.kind(k)) == reg {
        !helpers::implicit_use(c.body(k)) && if positive {
            is_write31(c.body(k))
        } else {
            is_write32(c.body(k))
        }
    } else if helpers::implicit_reg(c.body(k), reg) {
        false
    } else {
        known_value(c, k - 1, left - 1, reg, positive)
    }
}

/// Are the upper 32 bits of `reg` known to be zero after line `k`?
pub open spec fn known_32bit(c: Code, k: int, left: int, reg: RegId) -> bool {
    known_value(c, k, left, reg, false)
}

/// Are the upper 33 bits of `reg` known to be zero after line `k`?
pub open spec fn known_31bit(c: Code, k: int, left: int, reg: RegId) -> bool {
    known_value(c, k, left, reg, true)
}

/// Check if a register's value at position `pos` is known to be 32-bit (upper
/// 32 bits are zero).
pub fn is_known_32bit_value(infos: &[LineInfo], store: &LineStore, pos: usize, reg: RegId) -> (r:
    bool)
    requires
        types::code(*store, infos@).wf(),
        pos <= infos@.len(),
        types::gp(reg),
    ensures
        r == known_32bit(types::code(*store, infos@), pos - 1, 12, reg),
{
    find_producer(infos, store, pos, reg, false)
}

/// Check if a register's value at position `pos` is known to be a 32-bit value that
/// is not negative (upper 33 bits are zero).
pub fn is_known_31bit_value(infos: &[LineInfo], store: &LineStore, pos: usize, reg: RegId) -> (r:
    bool)
    requires
        types::code(*store, infos@).wf(),
        pos <= infos@.len(),
        types::gp(reg),
    ensures
        r == known_31bit(types::code(*store, infos@), pos - 1, 12, reg),
{
    find_producer(infos, store, pos, reg, true)
}

fn find_producer(
    infos: &[LineInfo],
    store: &LineStore,
    pos: usize,
    reg: RegId,
    positive: bool,
) -> (r: bool)
    requires
        types::code(*store, infos@).wf(),
        pos <= infos@.len(),
        types::gp(reg),
    ensures
        r == known_value(types::code(*store, infos@), pos - 1, 12, reg, positive),
{
    let ghost c = types::code(*store, infos@);
    let mut left: usize = 12;
    let mut next: usize = pos;
    while next > 0 && left > 0
        invariant
            c == types::code(*store, infos@),
            c.wf(),
            next <= pos <= infos@.len(),
            types::gp(reg),
            known_value(c, pos - 1, 12, reg, positive) == known_value(
                c,
                next - 1,
                left as int,
                reg,
                positive,
            ),
        decreases next,
    {
        let k = next - 1;
        assert(c.infos[k as int] == infos@[k as int]);
        if infos[k].is_nop() {
            next = k;
            continue;
        }
        if infos[k].is_barrier() {
            return false;
        }
        if matches!(infos[k].kind, LineKind::StoreRbp { .. }) {
            next = k;
            left -= 1;
            continue;
        }
        let body = body_of(store, infos, k);
        if get_dest_reg(&infos[k]) == reg {
            return !has_implicit_reg_usage(body) && if positive {
                clears_sign(body)
            } else {
                writes_low_half(body)
            };
        }
        if uses_implicitly(body, reg) {
            return false;
        }
        next = k;
        left -= 1;
    }
    false
}

// ── Laws ────────────────────────────────────────────────────────────────────

/// The call-safe scan is the more careful one: a register that it finds dead is
/// dead for the other scan too.
pub proof fn law_call_safe_is_stricter(
    c: Code,
    t: Option<Targets>,
    reg: RegId,
    k: int,
    left: int,
    depth: nat,
)
    ensures
        reg_dead(c, t, reg, k, left, depth, true) ==> reg_dead(c, t, reg, k, left, depth, false),
    decreases depth, c.len() - k,
{
    if 0 <= k < c.len() && left > 0 {
        law_call_safe_is_stricter(c, t, reg, k + 1, left, depth);
        law_call_safe_is_stricter(c, t, reg, k + 1, left - 1, depth);
        law_call_safe_is_stricter(c, t, reg, k + 1, 16, depth);
        if depth > 0 {
            law_call_safe_is_stricter(c, t, reg, k + 1, 16, (depth - 1) as nat);
            match jump_line(c, c.body(k)) {
                Some(p) => law_call_safe_is_stricter(c, t, reg, p, 16, (depth - 1) as nat),
                None => {},
            }
        }
    }
}

/// Looking further never loses an answer: a register found dead stays so with
/// more instructions to scan and more jumps to follow.
pub proof fn law_longer_scan_finds_more(
    c: Code,
    t: Option<Targets>,
    reg: RegId,
    k: int,
    left: int,
    more: int,
    depth: nat,
    deeper: nat,
    call_safe: bool,
)
    requires
        left <= more,
        depth <= deeper,
    ensures
        reg_dead(c, t, reg, k, left, depth, call_safe) ==> reg_dead(
            c,
            t,
            reg,
            k,
            more,
            deeper,
            call_safe,
        ),
    decreases depth, c.len() - k,
{
    if 0 <= k < c.len() && left > 0 {
        law_longer_scan_finds_more(c, t, reg, k + 1, left, more, depth, deeper, call_safe);
        law_longer_scan_finds_more(c, t, reg, k + 1, left - 1, more - 1, depth, deeper, call_safe);
        law_longer_scan_finds_more(c, t, reg, k + 1, 16, 16, depth, deeper, call_safe);
        if depth > 0 {
            let d = (depth - 1) as nat;
            let e = (deeper - 1) as nat;
            law_longer_scan_finds_more(c, t, reg, k + 1, 16, 16, d, e, call_safe);
            match jump_line(c, c.body(k)) {
                Some(p) => law_longer_scan_finds_more(c, t, reg, p, 16, 16, d, e, call_safe),
                None => {},
            }
        }
    }
}

/// The stack and frame pointers are never found dead at a call.
pub proof fn law_stack_pointers_survive_calls(
    c: Code,
    t: Option<Targets>,
    reg: RegId,
    k: int,
    left: int,
    depth: nat,
    call_safe: bool,
)
    requires
        0 <= k < c.len(),
        c.kind(k) is Call,
        reg == 4 || reg == 5 || helpers::callee_saved(reg),
    ensures
        !reg_dead(c, t, reg, k, left, depth, call_safe),
{
}

} // verus!
