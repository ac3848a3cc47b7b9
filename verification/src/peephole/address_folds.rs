//! Folds of address computations.

use vstd::prelude::*;

use super::helpers;
use super::helpers::{
    body_of, collect_jump_targets, fills_a_register, get_dest_reg, gives_new_value, is_movable,
    mentions_family, next_live, parse_reg_to_reg_movq, uses_implicitly, JumpTargets, Targets,
};
use super::liveness;
use super::liveness::{are_flags_dead_after, is_reg_dead_after_ext};
use super::sweep;
use super::sweep::Rule;
use super::text;
use super::text::{
    contains, parse_i64, push_decimal, replace_text, rsplit_once, same, split_once, starts_with,
    strip_prefix, trim_text,
};
use super::types;
use super::types::{
    mark_nop, reg_name, register_family_fast, replace_line, Code, LineInfo, LineKind, LineStore,
    RegId,
};

verus! {

/// The families of a move at line `i` that may be folded into what follows.
pub open spec fn foldable_move(c: Code, i: int) -> Option<(RegId, RegId)> {
    if c.kind(i) is Other && helpers::movable(c.kind(i)->dest_reg) {
        helpers::reg_move(c.kind(i), c.body(i))
    } else {
        None
    }
}

/// The families of a move at line `i` that may be folded into what follows.
pub fn parse_foldable_move(store: &LineStore, infos: &[LineInfo], i: usize) -> (r: Option<
    (RegId, RegId),
>)
    requires
        types::code(*store, infos@).wf(),
        i < infos@.len(),
    ensures
        r == foldable_move(types::code(*store, infos@), i as int),
        r matches Some((s, d)) ==> helpers::movable(s) && helpers::movable(d),
{
    match infos[i].kind {
        LineKind::Other { dest_reg } => if is_movable(dest_reg) {
            parse_reg_to_reg_movq(&infos[i], body_of(store, infos, i))
        } else {
            None
        },
        _ => None,
    }
}

// ── Address-through-secondary register folding ──────────────────────────────
//
//   movq %r15, %rcx; movsbq (%rcx), %rax  -> movsbq (%r15), %rax
//   movq %r14, %rcx; leaq 8(%rcx), %rax   -> leaq 8(%r14), %rax
//
// The copy may go where it is dead after the memory operation and the operation
// uses it in no other place.

/// A memory operation on a copied pointer works on the pointer itself.
pub open spec fn secondary_at(c: Code, t: Targets, i: int) -> Option<(Code, int)> {
    match foldable_move(c, i) {
        Some((src, dst)) => {
            let j = c.live_from(i + 1);
            let from = types::reg_text(0, dst) + ")"@;
            let to = types::reg_text(0, src) + ")"@;
            if j < c.len() && text::has(c.body(j), from) {
                let line = text::subst(c.body(j), from, to);
                if !helpers::names_family(line, dst) && liveness::dead_after_ext(c, t, j + 1, dst) {
                    Some((c.remove(i).put(j, "    "@ + line), j + 1))
                } else {
                    None
                }
            } else {
                None
            }
        },
        None => None,
    }
}

pub open spec fn secondary_rule(t: Targets) -> Rule {
    |c: Code, i: int| secondary_at(c, t, i)
}

fn secondary_step(store: &mut LineStore, infos: &mut [LineInfo], i: usize, targets: &JumpTargets) -> (r:
    Option<usize>)
    requires
        types::code(*old(store), old(infos)@).wf(),
        i < old(infos)@.len(),
    ensures
        sweep::stepped(
            secondary_at(types::code(*old(store), old(infos)@), targets@, i as int),
            types::code(*old(store), old(infos)@),
            types::code(*final(store), final(infos)@),
            i as int,
            r,
        ),
{
    let ghost c = types::code(*store, infos@);
    let len = infos.len();
    let (src, dst) = match parse_foldable_move(store, infos, i) {
        Some(pair) => pair,
        None => {
            return None;
        },
    };
    let j = next_live(infos, i + 1);
    assert(c.live_from(i + 1) == j);
    if j >= len {
        return None;
    }
    let mut from = reg_name(0, dst).to_owned();
    from.append(")");
    let mut to = reg_name(0, src).to_owned();
    to.append(")");
    let body = body_of(store, infos, j);
    if !contains(body, from.as_str()) {
        return None;
    }
    proof {
        reveal_strlit(")");
    }
    let line = replace_text(body, from.as_str(), to.as_str());
    if mentions_family(line.as_str(), dst) || !is_reg_dead_after_ext(
        infos,
        store,
        j + 1,
        dst,
        targets,
    ) {
        return None;
    }
    let mut indented = "    ".to_owned();
    indented.append(line.as_str());
    mark_nop(&mut infos[i]);
    replace_line(store, &mut infos[j], j, indented);
    Some(j + 1)
}

/// Lets memory operations work on a pointer itself rather than on its copy.
pub fn fold_address_through_secondary(store: &mut LineStore, infos: &mut [LineInfo]) -> (changed: bool)
    requires
        types::code(*old(store), old(infos)@).wf(),
    ensures
        (types::code(*final(store), final(infos)@), changed) == sweep::sweep(
            secondary_rule(helpers::targets_of(types::code(*old(store), old(infos)@))),
            types::code(*old(store), old(infos)@),
            0,
            1,
        ),
        types::code(*final(store), final(infos)@).wf(),
{
    let ghost c0 = types::code(*store, infos@);
    let targets = collect_jump_targets(store, infos);
    let len = infos.len();
    let mut changed = false;
    let mut i: usize = 0;
    while i < len && len - i > 1
        invariant
            len == infos@.len(),
            sweep::under_way(
                secondary_rule(targets@),
                c0,
                types::code(*store, infos@),
                i as int,
                1,
                changed,
            ),
        decreases len - i,
    {
        match secondary_step(store, infos, i, &targets) {
            Some(next) => {
                changed = true;
                i = next;
            },
            None => {
                i += 1;
            },
        }
    }
    changed
}

// ── Double-register add to LEA fold ─────────────────────────────────────────
//
//   movq %rA, %rB; addq %rA, %rB -> leaq (%rA, %rA), %rB
//
// LEA sets no flags, so the flags of the addition must be dead.

/// The families of the operands of `addq SRC, DST`, whatever they are.
pub open spec fn addq_families(s: Seq<char>) -> Option<(RegId, RegId)> {
    match text::after(s, "addq "@) {
        Some(rest) => match text::split(rest, ", "@) {
            Some((a, b)) => Some((types::family(text::trim(a)), types::family(text::trim(b)))),
            None => None,
        },
        None => None,
    }
}

/// Line `j` writes the register `reg`.
pub open spec fn plainly_writes(c: Code, j: int, reg: RegId) -> bool {
    c.kind(j) is Other && c.kind(j)->dest_reg == reg
}

/// A register that is copied and added to the copy is doubled.
pub open spec fn double_at(c: Code, i: int) -> Option<(Code, int)> {
    match foldable_move(c, i) {
        Some((a, b)) => {
            let j = c.live_from(i + 1);
            if j < c.len() && plainly_writes(c, j, b) && addq_families(c.body(j)) == Some((a, b))
                && liveness::flags_dead_after(c, j + 1) {
                Some(
                    (
                        c.remove(i).put(
                            j,
                            "    leaq ("@ + types::reg_text(0, a) + ", "@ + types::reg_text(0, a)
                                + "), "@ + types::reg_text(0, b),
                        ),
                        j + 1,
                    ),
                )
            } else {
                None
            }
        },
        None => None,
    }
}

pub open spec fn double_rule() -> Rule {
    |c: Code, i: int| double_at(c, i)
}

fn parse_addq_families(s: &str) -> (r: Option<(RegId, RegId)>)
    ensures
        r == addq_families(s@),
{
    match strip_prefix(s, "addq ") {
        Some(rest) => match split_once(rest, ", ") {
            Some((a, b)) => Some(
                (register_family_fast(trim_text(a)), register_family_fast(trim_text(b))),
            ),
            None => None,
        },
        None => None,
    }
}

/// Does line `j` write the register `reg`?
pub fn writes_reg(info: &LineInfo, reg: RegId) -> (r: bool)
    ensures
        r == (info.kind is Other && info.kind->dest_reg == reg),
{
    match info.kind {
        LineKind::Other { dest_reg } => dest_reg == reg,
        _ => false,
    }
}

fn double_step(store: &mut LineStore, infos: &mut [LineInfo], i: usize) -> (r: Option<usize>)
    requires
        types::code(*old(store), old(infos)@).wf(),
        i < old(infos)@.len(),
    ensures
        sweep::stepped(
            double_at(types::code(*old(store), old(infos)@), i as int),
            types::code(*old(store), old(infos)@),
            types::code(*final(store), final(infos)@),
            i as int,
            r,
        ),
{
    let ghost c = types::code(*store, infos@);
    let len = infos.len();
    let (a, b) = match parse_foldable_move(store, infos, i) {
        Some(pair) => pair,
        None => {
            return None;
        },
    };
    let j = next_live(infos, i + 1);
    assert(c.live_from(i + 1) == j);
    if j >= len || !writes_reg(&infos[j], b) {
        return None;
    }
    match parse_addq_families(body_of(store, infos, j)) {
        Some((x, y)) => if x != a || y != b {
            return None;
        },
        None => {
            return None;
        },
    }
    if !are_flags_dead_after(infos, store, j + 1) {
        return None;
    }
    let mut line = "    leaq (".to_owned();
    line.append(reg_name(0, a));
    line.append(", ");
    line.append(reg_name(0, a));
    line.append("), ");
    line.append(reg_name(0, b));
    mark_nop(&mut infos[i]);
    replace_line(store, &mut infos[j], j, line);
    Some(j + 1)
}

/// Doubles registers with one address computation.
pub fn fold_double_to_leaq(store: &mut LineStore, infos: &mut [LineInfo]) -> (changed: bool)
    requires
        types::code(*old(store), old(infos)@).wf(),
    ensures
        (types::code(*final(store), final(infos)@), changed) == sweep::sweep(
            double_rule(),
            types::code(*old(store), old(infos)@),
            0,
            1,
        ),
        types::code(*final(store), final(infos)@).wf(),
{
    let ghost c0 = types::code(*store, infos@);
    let len = infos.len();
    let mut changed = false;
    let mut i: usize = 0;
    while i < len && len - i > 1
        invariant
            len == infos@.len(),
            sweep::under_way(
                double_rule(),
                c0,
                types::code(*store, infos@),
                i as int,
                1,
                changed,
            ),
        decreases len - i,
    {
        match double_step(store, infos, i) {
            Some(next) => {
                changed = true;
                i = next;
            },
            None => {
                i += 1;
            },
        }
    }
    changed
}

// ── movq + addq $imm -> leaq fold ───────────────────────────────────────────
//
//   movq %rA, %rB; addq $IMM, %rB -> leaq IMM(%rA), %rB
//   movq %rA, %rB; subq $IMM, %rB -> leaq -IMM(%rA), %rB

/// The immediate of `op IMM, %reg`.
pub open spec fn immediate(s: Seq<char>, op: Seq<char>, reg: RegId) -> Option<int> {
    match text::after(s, op) {
        Some(rest) => match text::split(rest, ", "@) {
            Some((imm, dst)) => if types::family(text::trim(dst)) == reg {
                text::integer(text::trim(imm))
            } else {
                None
            },
            None => None,
        },
        None => None,
    }
}

/// What `addq $IMM, %reg` or `subq $IMM, %reg` adds, as far as 64 bits hold it.
pub open spec fn added(s: Seq<char>, reg: RegId) -> Option<int> {
    if "addq $"@.is_prefix_of(s) {
        immediate(s, "addq $"@, reg)
    } else {
        match immediate(s, "subq $"@, reg) {
            Some(n) => if n > i64::MIN {
                Some(-n)
            } else {
                None
            },
            None => None,
        }
    }
}

/// A copy with an immediate added becomes an address computation.
pub open spec fn addimm_at(c: Code, i: int) -> Option<(Code, int)> {
    match foldable_move(c, i) {
        Some((a, b)) => {
            let j = c.live_from(i + 1);
            if j < c.len() && plainly_writes(c, j, b) && added(c.body(j), b) is Some
                && liveness::flags_dead_after(c, j + 1) {
                Some(
                    (
                        c.remove(i).put(
                            j,
                            "    leaq "@ + text::decimal(added(c.body(j), b)->0) + "("@
                                + types::reg_text(0, a) + "), "@ + types::reg_text(0, b),
                        ),
                        j + 1,
                    ),
                )
            } else {
                None
            }
        },
        None => None,
    }
}

pub open spec fn addimm_rule() -> Rule {
    |c: Code, i: int| addimm_at(c, i)
}

fn parse_immediate(s: &str, op: &str, reg: RegId) -> (r: Option<i64>)
    ensures
        match r {
            Some(n) => immediate(s@, op@, reg) == Some(n as int),
            None => immediate(s@, op@, reg) is None,
        },
{
    match strip_prefix(s, op) {
        Some(rest) => match split_once(rest, ", ") {
            Some((imm, dst)) => if register_family_fast(trim_text(dst)) == reg {
                parse_i64(trim_text(imm))
            } else {
                None
            },
            None => None,
        },
        None => None,
    }
}

fn parse_added(s: &str, reg: RegId) -> (r: Option<i64>)
    ensures
        match r {
            Some(n) => added(s@, reg) == Some(n as int),
            None => added(s@, reg) is None,
        },
{
    if starts_with(s, "addq $") {
        parse_immediate(s, "addq $", reg)
    } else {
        match parse_immediate(s, "subq $", reg) {
            Some(n) => if n > i64::MIN {
                Some(-n)
            } else {
                None
            },
            None => None,
        }
    }
}

fn addimm_step(store: &mut LineStore, infos: &mut [LineInfo], i: usize) -> (r: Option<usize>)
    requires
        types::code(*old(store), old(infos)@).wf(),
        i < old(infos)@.len(),
    ensures
        sweep::stepped(
            addimm_at(types::code(*old(store), old(infos)@), i as int),
            types::code(*old(store), old(infos)@),
            types::code(*final(store), final(infos)@),
            i as int,
            r,
        ),
{
    let ghost c = types::code(*store, infos@);
    let len = infos.len();
    let (a, b) = match parse_foldable_move(store, infos, i) {
        Some(pair) => pair,
        None => {
            return None;
        },
    };
    let j = next_live(infos, i + 1);
    assert(c.live_from(i + 1) == j);
    if j >= len || !writes_reg(&infos[j], b) {
        return None;
    }
    let imm = match parse_added(body_of(store, infos, j), b) {
        Some(n) => n,
        None => {
            return None;
        },
    };
    if !are_flags_dead_after(infos, store, j + 1) {
        return None;
    }
    let mut line = "    leaq ".to_owned();
    push_decimal(&mut line, imm);
    line.append("(");
    line.append(reg_name(0, a));
    line.append("), ");
    line.append(reg_name(0, b));
    mark_nop(&mut infos[i]);
    replace_line(store, &mut infos[j], j, line);
    Some(j + 1)
}

/// Turns a copy with an immediate added into an address computation.
pub fn fold_movq_addimm_to_leaq(store: &mut LineStore, infos: &mut [LineInfo]) -> (changed: bool)
    requires
        types::code(*old(store), old(infos)@).wf(),
    ensures
        (types::code(*final(store), final(infos)@), changed) == sweep::sweep(
            addimm_rule(),
            types::code(*old(store), old(infos)@),
            0,
            1,
        ),
        types::code(*final(store), final(infos)@).wf(),
{
    let ghost c0 = types::code(*store, infos@);
    let len = infos.len();
    let mut changed = false;
    let mut i: usize = 0;
    while i < len && len - i > 1
        invariant
            len == infos@.len(),
            sweep::under_way(
                addimm_rule(),
                c0,
                types::code(*store, infos@),
                i as int,
                1,
                changed,
            ),
        decreases len - i,
    {
        match addimm_step(store, infos, i) {
            Some(next) => {
                changed = true;
                i = next;
            },
            None => {
                i += 1;
            },
        }
    }
    changed
}

// ── Scaled address into memory operand fold ─────────────────────────────────
//
//   leaq (%rA, %rA), %rT; addq %rT, %rB; OP (%rB), %rC -> OP (%rB, %rA, 2), %rC
//   addq %rT, %rB; OP (%rB), %rC                       -> OP (%rB, %rT), %rC
//
// The operation uses the sum as its address only. The sum must be dead after it, and so
// must the flags of the addition; in the longer form the doubled register too, which the
// operation must not read.

/// The families of `leaq (%rA, %rA), %rT`.
pub open spec fn leaq_double(s: Seq<char>) -> Option<(RegId, RegId)> {
    match text::after(s, "leaq ("@) {
        Some(rest) => match text::split(rest, ")"@) {
            Some((inner, tail)) => match text::after(tail, ", "@) {
                Some(d) => {
                    let dst = types::family(text::trim(d));
                    match text::split(inner, ", "@) {
                        Some((x, y)) => {
                            let a = types::family(text::trim(x));
                            if helpers::movable(dst) && helpers::movable(a) && text::trim(x)
                                == text::trim(y) {
                                Some((a, dst))
                            } else {
                                None
                            }
                        },
                        None => None,
                    }
                },
                None => None,
            },
            None => None,
        },
        None => None,
    }
}

/// The families of `addq %rSrc, %rDst` between two different movable registers.
pub open spec fn addq_regs(s: Seq<char>) -> Option<(RegId, RegId)> {
    match addq_families(s) {
        Some((a, b)) => if helpers::movable(a) && helpers::movable(b) && a != b {
            Some((a, b))
        } else {
            None
        },
        None => None,
    }
}

/// The last line up to `k` that was not removed, or the first line.
pub open spec fn back_live(c: Code, k: int) -> int
    decreases k,
{
    if k > 0 && c.nop(k) {
        back_live(c, k - 1)
    } else {
        k
    }
}

/// `(%reg)`
pub open spec fn base_operand(reg: RegId) -> Seq<char> {
    "("@ + types::reg_text(0, reg) + ")"@
}

/// The instruction reads `reg` only as an address by itself: nothing else names it, but
/// for the register that it fills, `written`.
#[verifier::opaque]
pub open spec fn only_addresses(s: Seq<char>, written: RegId, reg: RegId) -> bool {
    let bare = text::subst(s, base_operand(reg), "()"@);
    &&& !helpers::implicit_reg(s, reg)
    &&& !helpers::names_family(bare, reg) || (written == reg && helpers::fills_register(s)
        && match text::rsplit(bare, ", "@) {
        Some((src, _)) => !helpers::names_family(src, reg),
        None => false,
    })
}

/// The instruction fills `reg` without reading it.
pub open spec fn fills_anew(s: Seq<char>, written: RegId, reg: RegId) -> bool {
    written == reg && helpers::sets_anew(s, reg) && !helpers::implicit_reg(s, reg)
}

/// The instruction does not use `reg`.
pub open spec fn uses_not(s: Seq<char>, reg: RegId) -> bool {
    !helpers::names_family(s, reg) && !helpers::implicit_reg(s, reg)
}

/// The operands of an addition at line `i` that may be folded into line `j`.
pub open spec fn scaled_operands(c: Code, t: Targets, i: int, j: int) -> Option<(RegId, RegId)> {
    match addq_regs(c.body(i)) {
        Some((src, dst)) => {
            let written = helpers::dest_of(c.kind(j));
            if !c.infos[j].barrier() && text::has(c.body(j), base_operand(dst)) && only_addresses(
                c.body(j),
                written,
                dst,
            ) && liveness::flags_dead_after(c, j) && (written == dst || liveness::dead_after_ext(
                c,
                t,
                j + 1,
                dst,
            )) {
                Some((src, dst))
            } else {
                None
            }
        },
        None => None,
    }
}

/// The register that line `p` doubles for the addition of `src` to `dst`.
pub open spec fn doubled_for(
    c: Code,
    t: Targets,
    i: int,
    j: int,
    src: RegId,
    dst: RegId,
) -> Option<RegId> {
    let p = back_live(c, i - 1);
    if i > 0 && !c.nop(p) {
        match leaq_double(c.body(p)) {
            Some((a, d)) => if d == src && a != dst && a != src && (fills_anew(
                c.body(j),
                helpers::dest_of(c.kind(j)),
                src,
            ) || (uses_not(c.body(j), src) && liveness::dead_after_ext(c, t, j + 1, src))) {
                Some(a)
            } else {
                None
            },
            None => None,
        }
    } else {
        None
    }
}

/// An addition that only serves to address memory goes into the operand.
pub open spec fn scaled_at(c: Code, t: Targets, i: int) -> Option<(Code, int)> {
    let j = c.live_from(i + 1);
    if c.nop(i) || j >= c.len() {
        None
    } else {
        match scaled_operands(c, t, i, j) {
            Some((src, dst)) => match doubled_for(c, t, i, j, src, dst) {
                Some(a) => Some(
                    (
                        c.remove(back_live(c, i - 1)).remove(i).put(
                            j,
                            "    "@ + text::subst(
                                c.body(j),
                                base_operand(dst),
                                "("@ + types::reg_text(0, dst) + ", "@ + types::reg_text(0, a)
                                    + ", 2)"@,
                            ),
                        ),
                        j + 1,
                    ),
                ),
                None => Some(
                    (
                        c.remove(i).put(
                            j,
                            "    "@ + text::subst(
                                c.body(j),
                                base_operand(dst),
                                "("@ + types::reg_text(0, dst) + ", "@ + types::reg_text(0, src)
                                    + ")"@,
                            ),
                        ),
                        j + 1,
                    ),
                ),
            },
            None => None,
        }
    }
}

pub open spec fn scaled_rule(t: Targets) -> Rule {
    |c: Code, i: int| scaled_at(c, t, i)
}

/// Parse `leaq (%rA, %rA), %rT` where both registers in parens are the same.
pub fn parse_leaq_double(trimmed: &str) -> (r: Option<(RegId, RegId)>)
    ensures
        r == leaq_double(trimmed@),
        r matches Some((a, d)) ==> helpers::movable(a) && helpers::movable(d),
{
    let rest = match strip_prefix(trimmed, "leaq (") {
        Some(rest) => rest,
        None => {
            return None;
        },
    };
    let (inner, tail) = match split_once(rest, ")") {
        Some(pair) => pair,
        None => {
            return None;
        },
    };
    let d = match strip_prefix(tail, ", ") {
        Some(d) => d,
        None => {
            return None;
        },
    };
    let dst = register_family_fast(trim_text(d));
    match split_once(inner, ", ") {
        Some((x, y)) => {
            let a = register_family_fast(trim_text(x));
            if is_movable(dst) && is_movable(a) && same(trim_text(x), trim_text(y)) {
                Some((a, dst))
            } else {
                None
            }
        },
        None => None,
    }
}

/// Parse `addq %rSrc, %rDst` between two different movable registers.
pub fn parse_addq_reg_reg(trimmed: &str) -> (r: Option<(RegId, RegId)>)
    ensures
        r == addq_regs(trimmed@),
        r matches Some((a, b)) ==> helpers::movable(a) && helpers::movable(b),
{
    match parse_addq_families(trimmed) {
        Some((a, b)) => if is_movable(a) && is_movable(b) && a != b {
            Some((a, b))
        } else {
            None
        },
        None => None,
    }
}

/// The last line up to `k` that was not removed, or the first line.
pub fn previous_live(store: &LineStore, infos: &[LineInfo], k: usize) -> (r: usize)
    requires
        types::code(*store, infos@).wf(),
        k < infos@.len(),
    ensures
        r == back_live(types::code(*store, infos@), k as int),
        r <= k,
{
    let ghost c = types::code(*store, infos@);
    let mut p: usize = k;
    while p > 0 && infos[p].is_nop()
        invariant
            c == types::code(*store, infos@),
            p <= k < infos@.len(),
            back_live(c, k as int) == back_live(c, p as int),
        decreases p,
    {
        assert(c.infos[p as int] == infos@[p as int]);
        p -= 1;
    }
    assert(c.infos[p as int] == infos@[p as int]);
    p
}

fn build_base(reg: RegId) -> (r: String)
    requires
        types::gp(reg),
    ensures
        r@ == base_operand(reg),
{
    let mut s = "(".to_owned();
    s.append(reg_name(0, reg));
    s.append(")");
    s
}

fn uses_only_as_address(s: &str, written: RegId, reg: RegId) -> (r: bool)
    requires
        types::gp(reg),
    ensures
        r == only_addresses(s@, written, reg),
{
    proof {
        reveal(only_addresses);
    }
    let base = build_base(reg);
    proof {
        reveal_strlit("(");
    }
    let bare = replace_text(s, base.as_str(), "()");
    !uses_implicitly(s, reg) && (!mentions_family(bare.as_str(), reg) || (written == reg
        && fills_a_register(s) && match rsplit_once(bare.as_str(), ", ") {
        Some((src, _)) => !mentions_family(src, reg),
        None => false,
    }))
}

fn find_scaled_operands(
    store: &LineStore,
    infos: &[LineInfo],
    i: usize,
    j: usize,
    targets: &JumpTargets,
) -> (r: Option<(RegId, RegId)>)
    requires
        types::code(*store, infos@).wf(),
        i < j < infos@.len(),
    ensures
        r == scaled_operands(types::code(*store, infos@), targets@, i as int, j as int),
        r matches Some((a, b)) ==> helpers::movable(a) && helpers::movable(b),
{
    let (src, dst) = match parse_addq_reg_reg(body_of(store, infos, i)) {
        Some(pair) => pair,
        None => {
            return None;
        },
    };
    if infos[j].is_barrier() {
        return None;
    }
    let body = body_of(store, infos, j);
    let base = build_base(dst);
    if !contains(body, base.as_str()) {
        return None;
    }
    let written = get_dest_reg(&infos[j]);
    if !uses_only_as_address(body, written, dst) {
        return None;
    }
    if !are_flags_dead_after(infos, store, j) {
        return None;
    }
    if written == dst || is_reg_dead_after_ext(infos, store, j + 1, dst, targets) {
        Some((src, dst))
    } else {
        None
    }
}

fn find_doubled(
    store: &LineStore,
    infos: &[LineInfo],
    i: usize,
    j: usize,
    src: RegId,
    dst: RegId,
    targets: &JumpTargets,
) -> (r: Option<(RegId, usize)>)
    requires
        types::code(*store, infos@).wf(),
        i < j < infos@.len(),
        types::gp(src),
    ensures
        match r {
            Some((a, p)) => doubled_for(
                types::code(*store, infos@),
                targets@,
                i as int,
                j as int,
                src,
                dst,
            ) == Some(a) && types::gp(a) && p < i && p == back_live(
                types::code(*store, infos@),
                i - 1,
            ),
            None => doubled_for(
                types::code(*store, infos@),
                targets@,
                i as int,
                j as int,
                src,
                dst,
            ) is None,
        },
{
    if i == 0 {
        return None;
    }
    let p = previous_live(store, infos, i - 1);
    if infos[p].is_nop() {
        return None;
    }
    match parse_leaq_double(body_of(store, infos, p)) {
        Some((a, d)) => {
            let body = body_of(store, infos, j);
            if d == src && a != dst && a != src && !uses_implicitly(body, src) && ((get_dest_reg(
                &infos[j],
            ) == src && gives_new_value(body, src)) || (!mentions_family(body, src)
                && is_reg_dead_after_ext(infos, store, j + 1, src, targets))) {
                Some((a, p))
            } else {
                None
            }
        },
        None => None,
    }
}

fn scaled_step(store: &mut LineStore, infos: &mut [LineInfo], i: usize, targets: &JumpTargets) -> (r:
    Option<usize>)
    requires
        types::code(*old(store), old(infos)@).wf(),
        i < old(infos)@.len(),
    ensures
        sweep::stepped(
            scaled_at(types::code(*old(store), old(infos)@), targets@, i as int),
            types::code(*old(store), old(infos)@),
            types::code(*final(store), final(infos)@),
            i as int,
            r,
        ),
{
    let ghost c = types::code(*store, infos@);
    if infos[i].is_nop() {
        return None;
    }
    let j = next_live(infos, i + 1);
    assert(c.live_from(i + 1) == j);
    if j >= infos.len() {
        return None;
    }
    let (src, dst) = match find_scaled_operands(store, infos, i, j, targets) {
        Some(pair) => pair,
        None => {
            return None;
        },
    };
    let base = build_base(dst);
    proof {
        reveal_strlit("(");
    }
    let mut operand = "(".to_owned();
    operand.append(reg_name(0, dst));
    operand.append(", ");
    let mut line = "    ".to_owned();
    match find_doubled(store, infos, i, j, src, dst, targets) {
        Some((a, p)) => {
            operand.append(reg_name(0, a));
            operand.append(", 2)");
            line.append(
                replace_text(body_of(store, infos, j), base.as_str(), operand.as_str()).as_str(),
            );
            mark_nop(&mut infos[p]);
        },
        None => {
            operand.append(reg_name(0, src));
            operand.append(")");
            line.append(
                replace_text(body_of(store, infos, j), base.as_str(), operand.as_str()).as_str(),
            );
        },
    }
    mark_nop(&mut infos[i]);
    replace_line(store, &mut infos[j], j, line);
    Some(j + 1)
}

/// Folds additions that only serve to address memory into the operand.
pub fn fold_scaled_address_into_load(store: &mut LineStore, infos: &mut [LineInfo]) -> (changed: bool)
    requires
        types::code(*old(store), old(infos)@).wf(),
    ensures
        (types::code(*final(store), final(infos)@), changed) == sweep::sweep(
            scaled_rule(helpers::targets_of(types::code(*old(store), old(infos)@))),
            types::code(*old(store), old(infos)@),
            0,
            1,
        ),
        types::code(*final(store), final(infos)@).wf(),
{
    let ghost c0 = types::code(*store, infos@);
    let targets = collect_jump_targets(store, infos);
    let len = infos.len();
    let mut changed = false;
    let mut i: usize = 0;
    while i < len && len - i > 1
        invariant
            len == infos@.len(),
            sweep::under_way(
                scaled_rule(targets@),
                c0,
                types::code(*store, infos@),
                i as int,
                1,
                changed,
            ),
        decreases len - i,
    {
        match scaled_step(store, infos, i, &targets) {
            Some(next) => {
                changed = true;
                i = next;
            },
            None => {
                i += 1;
            },
        }
    }
    changed
}

} // verus!
