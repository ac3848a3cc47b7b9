//! Folds of values that are routed through a temporary register.

use vstd::prelude::*;

use super::address_folds;
use super::address_folds::{parse_foldable_move, writes_reg};
use super::helpers;
use super::helpers::{
    body_of, collect_jump_targets, get_dest_reg, has_implicit_reg_usage, is_movable,
    mentions_family, next_live, parse_reg_to_reg_movq, replace_reg_family, JumpTargets, Targets,
};
use super::liveness;
use super::liveness::is_reg_dead_after_ext;
use super::sweep;
use super::sweep::Rule;
use super::text;
use super::text::{
    contains, rsplit_once, same, split_once, starts_with, strip_prefix, trim_text,
};
use super::types;
use super::types::{
    is_valid_gp_reg, mark_nop, reg_name, register_family_fast, replace_line, Code, LineInfo,
    LineKind, LineStore, RegId,
};

verus! {

// ── Commutative binop through temp fold ─────────────────────────────────────
//
//   movq %rA, %rT; movq %rB, %rA; addq %rT, %rA -> addq %rB, %rA
//
// The operation must be commutative, and the temporary dead after it.

/// The opcode and the families of an operation between two registers.
pub open spec fn binop_regs(s: Seq<char>) -> Option<(Seq<char>, RegId, RegId)> {
    match text::split(s, " "@) {
        Some((op, rest)) => match text::split(rest, ", "@) {
            Some((a, b)) => {
                let src = types::family(text::trim(a));
                let dst = types::family(text::trim(b));
                if !text::has(text::trim(a), "("@) && !text::has(text::trim(b), "("@) && types::gp(
                    src,
                ) && types::gp(dst) {
                    Some((op, src, dst))
                } else {
                    None
                }
            },
            None => None,
        },
        None => None,
    }
}

/// Is `a op b` the same as `b op a`?
pub open spec fn commutative(op: Seq<char>) -> bool {
    op == "addq"@ || op == "addl"@ || op == "addw"@ || op == "orq"@ || op == "orl"@ || op == "orw"@
        || op == "xorq"@ || op == "xorl"@ || op == "xorw"@ || op == "andq"@ || op == "andl"@ || op
        == "andw"@ || op == "imulq"@ || op == "imull"@
}

/// The source of a move at line `j` that overwrites `a`.
pub open spec fn overwriting_source(c: Code, j: int, a: RegId, temp: RegId) -> Option<RegId> {
    if address_folds::plainly_writes(c, j, a) {
        match helpers::reg_move(c.kind(j), c.body(j)) {
            Some((b, _)) => if b != a && b != temp {
                Some(b)
            } else {
                None
            },
            None => None,
        }
    } else {
        None
    }
}

/// Line `k` is a commutative operation of `temp` into `a`.
pub open spec fn commutes_into(c: Code, k: int, temp: RegId, a: RegId) -> bool {
    address_folds::plainly_writes(c, k, a) && match binop_regs(c.body(k)) {
        Some((op, src, dst)) => src == temp && dst == a && commutative(op),
        None => false,
    }
}

/// An operation whose operands were swapped through a temporary takes them as
/// they were.
pub open spec fn commutative_at(c: Code, t: Targets, i: int) -> Option<(Code, int)> {
    match address_folds::foldable_move(c, i) {
        Some((a, temp)) => {
            let j = c.live_from(i + 1);
            let k = c.live_from(j + 1);
            if j < c.len() && k < c.len() {
                match overwriting_source(c, j, a, temp) {
                    Some(b) => if commutes_into(c, k, temp, a) && liveness::dead_after_ext(
                        c,
                        t,
                        k + 1,
                        temp,
                    ) {
                        Some(
                            (
                                c.remove(i).remove(j).put(
                                    k,
                                    "    "@ + helpers::renamed(c.body(k), 0, temp, b),
                                ),
                                k + 1,
                            ),
                        )
                    } else {
                        None
                    },
                    None => None,
                }
            } else {
                None
            }
        },
        None => None,
    }
}

pub open spec fn commutative_rule(t: Targets) -> Rule {
    |c: Code, i: int| commutative_at(c, t, i)
}

/// Parse `<opcode> %src, %dst` binary operation with two register operands.
pub fn parse_binop_reg_reg(trimmed: &str) -> (r: Option<(&str, RegId, RegId)>)
    ensures
        match r {
            Some((op, a, b)) => binop_regs(trimmed@) == Some((op@, a, b)),
            None => binop_regs(trimmed@) is None,
        },
{
    match split_once(trimmed, " ") {
        Some((op, rest)) => match split_once(rest, ", ") {
            Some((a, b)) => {
                let a = trim_text(a);
                let b = trim_text(b);
                let src = register_family_fast(a);
                let dst = register_family_fast(b);
                if !contains(a, "(") && !contains(b, "(") && is_valid_gp_reg(src)
                    && is_valid_gp_reg(dst) {
                    Some((op, src, dst))
                } else {
                    None
                }
            },
            None => None,
        },
        None => None,
    }
}

/// Check if a binary operation is commutative (a op b = b op a).
pub fn is_commutative_op(op: &str) -> (r: bool)
    ensures
        r == commutative(op@),
{
    same(op, "addq") || same(op, "addl") || same(op, "addw") || same(op, "orq") || same(op, "orl")
        || same(op, "orw") || same(op, "xorq") || same(op, "xorl") || same(op, "xorw") || same(
        op,
        "andq",
    ) || same(op, "andl") || same(op, "andw") || same(op, "imulq") || same(op, "imull")
}

fn commutative_step(store: &mut LineStore, infos: &mut [LineInfo], i: usize, targets: &JumpTargets) -> (r:
    Option<usize>)
    requires
        types::code(*old(store), old(infos)@).wf(),
        i < old(infos)@.len(),
    ensures
        sweep::stepped(
            commutative_at(types::code(*old(store), old(infos)@), targets@, i as int),
            types::code(*old(store), old(infos)@),
            types::code(*final(store), final(infos)@),
            i as int,
            r,
        ),
{
    let ghost c = types::code(*store, infos@);
    let len = infos.len();
    let (a, temp) = match parse_foldable_move(store, infos, i) {
        Some(pair) => pair,
        None => {
            return None;
        },
    };
    let j = next_live(infos, i + 1);
    assert(c.live_from(i + 1) == j);
    if j >= len {
        return None;
    }
    let k = next_live(infos, j + 1);
    assert(c.live_from(j + 1) == k);
    if k >= len {
        return None;
    }
    if !writes_reg(&infos[j], a) || !writes_reg(&infos[k], a) {
        return None;
    }
    let b = match parse_reg_to_reg_movq(&infos[j], body_of(store, infos, j)) {
        Some((b, _)) => b,
        None => {
            return None;
        },
    };
    if b == a || b == temp {
        return None;
    }
    let body = body_of(store, infos, k);
    match parse_binop_reg_reg(body) {
        Some((op, src, dst)) => if src != temp || dst != a || !is_commutative_op(op) {
            return None;
        },
        None => {
            return None;
        },
    }
    if !is_reg_dead_after_ext(infos, store, k + 1, temp, targets) {
        return None;
    }
    let mut line = "    ".to_owned();
    line.append(replace_reg_family(body, temp, b).as_str());
    mark_nop(&mut infos[i]);
    mark_nop(&mut infos[j]);
    replace_line(store, &mut infos[k], k, line);
    Some(k + 1)
}

/// Folds commutative operations whose operands were swapped through a temporary.
pub fn fold_commutative_through_temp(store: &mut LineStore, infos: &mut [LineInfo]) -> (changed: bool)
    requires
        types::code(*old(store), old(infos)@).wf(),
    ensures
        (types::code(*final(store), final(infos)@), changed) == sweep::sweep(
            commutative_rule(helpers::targets_of(types::code(*old(store), old(infos)@))),
            types::code(*old(store), old(infos)@),
            0,
            2,
        ),
        types::code(*final(store), final(infos)@).wf(),
{
    let ghost c0 = types::code(*store, infos@);
    let targets = collect_jump_targets(store, infos);
    let len = infos.len();
    let mut changed = false;
    let mut i: usize = 0;
    while i < len && len - i > 2
        invariant
            len == infos@.len(),
            sweep::under_way(
                commutative_rule(targets@),
                c0,
                types::code(*store, infos@),
                i as int,
                2,
                changed,
            ),
        decreases len - i,
    {
        match commutative_step(store, infos, i, &targets) {
            Some(next) => {
                changed = true;
                i = next;
            },
            None => {
                i += 1;
            },
        }
    }
    changed
}

// ── Accumulator routing fold ────────────────────────────────────────────────
//
//   movq $1, %rax; movq %rax, %r10   -> movq $1, %r10
//   movq %rbx, %rax; movq %rax, %r11 -> movq %rbx, %r11
//
// The temporary must be dead after the second move.

/// The source of `movq SRC, %temp`: an immediate or another register.
pub open spec fn routed_source(s: Seq<char>, temp: RegId) -> Option<Seq<char>> {
    match text::after(s, "movq "@) {
        Some(rest) => match text::split(rest, ", "@) {
            Some((src, dst)) => if dst == types::reg_text(0, temp) && ("$"@.is_prefix_of(src) || (
            "%"@.is_prefix_of(src) && !text::has(src, "("@) && types::family(src) != temp)) {
                Some(src)
            } else {
                None
            },
            None => None,
        },
        None => None,
    }
}

/// The name and the family of the register that `movq %temp, %reg` writes.
pub open spec fn routed_dest(s: Seq<char>, temp: RegId) -> Option<(Seq<char>, RegId)> {
    match text::after(s, "movq "@ + types::reg_text(0, temp) + ", "@) {
        Some(d) => {
            let dest = text::trim(d);
            let fam = types::family(dest);
            if !text::has(dest, "("@) && helpers::movable(fam) && fam != temp {
                Some((dest, fam))
            } else {
                None
            }
        },
        None => None,
    }
}

/// A value that is routed through a temporary goes straight to its register.
pub open spec fn routing_at(c: Code, t: Targets, i: int) -> Option<(Code, int)> {
    if c.kind(i) is Other && helpers::movable(c.kind(i)->dest_reg) {
        let temp = c.kind(i)->dest_reg;
        let j = c.live_from(i + 1);
        match routed_source(c.body(i), temp) {
            Some(src) => if j < c.len() {
                match routed_dest(c.body(j), temp) {
                    Some((dest, _)) => if liveness::dead_after_ext(c, t, j + 1, temp) {
                        Some(
                            (c.remove(i).put(j, "    movq "@ + src + ", "@ + dest), j + 1),
                        )
                    } else {
                        None
                    },
                    None => None,
                }
            } else {
                None
            },
            None => None,
        }
    } else {
        None
    }
}

pub open spec fn routing_rule(t: Targets) -> Rule {
    |c: Code, i: int| routing_at(c, t, i)
}

fn parse_routed_source(s: &str, temp: RegId) -> (r: Option<&str>)
    requires
        types::gp(temp),
    ensures
        text::piece(r) == routed_source(s@, temp),
{
    match strip_prefix(s, "movq ") {
        Some(rest) => match split_once(rest, ", ") {
            Some((src, dst)) => if same(dst, reg_name(0, temp)) && (starts_with(src, "$") || (
            starts_with(src, "%") && !contains(src, "(") && register_family_fast(src) != temp)) {
                Some(src)
            } else {
                None
            },
            None => None,
        },
        None => None,
    }
}

fn parse_routed_dest(s: &str, temp: RegId) -> (r: Option<(&str, RegId)>)
    requires
        types::gp(temp),
    ensures
        match r {
            Some((dest, fam)) => routed_dest(s@, temp) == Some((dest@, fam)) && helpers::movable(
                fam,
            ),
            None => routed_dest(s@, temp) is None,
        },
{
    let mut prefix = "movq ".to_owned();
    prefix.append(reg_name(0, temp));
    prefix.append(", ");
    match strip_prefix(s, prefix.as_str()) {
        Some(d) => {
            let dest = trim_text(d);
            let fam = register_family_fast(dest);
            if !contains(dest, "(") && is_movable(fam) && fam != temp {
                Some((dest, fam))
            } else {
                None
            }
        },
        None => None,
    }
}

fn routing_step(store: &mut LineStore, infos: &mut [LineInfo], i: usize, targets: &JumpTargets) -> (r:
    Option<usize>)
    requires
        types::code(*old(store), old(infos)@).wf(),
        i < old(infos)@.len(),
    ensures
        sweep::stepped(
            routing_at(types::code(*old(store), old(infos)@), targets@, i as int),
            types::code(*old(store), old(infos)@),
            types::code(*final(store), final(infos)@),
            i as int,
            r,
        ),
{
    let ghost c = types::code(*store, infos@);
    let len = infos.len();
    let temp = match infos[i].kind {
        LineKind::Other { dest_reg } => dest_reg,
        _ => {
            return None;
        },
    };
    if !is_movable(temp) {
        return None;
    }
    let j = next_live(infos, i + 1);
    assert(c.live_from(i + 1) == j);
    if j >= len {
        return None;
    }
    let src = match parse_routed_source(body_of(store, infos, i), temp) {
        Some(src) => src,
        None => {
            return None;
        },
    };
    match parse_routed_dest(body_of(store, infos, j), temp) {
        Some((dest, _)) => {
            if !is_reg_dead_after_ext(infos, store, j + 1, temp, targets) {
                return None;
            }
            let mut line = "    movq ".to_owned();
            line.append(src);
            line.append(", ");
            line.append(dest);
            mark_nop(&mut infos[i]);
            replace_line(store, &mut infos[j], j, line);
            Some(j + 1)
        },
        None => None,
    }
}

/// Lets values that are routed through a temporary go straight to their register.
pub fn fold_accumulator_routing(store: &mut LineStore, infos: &mut [LineInfo]) -> (changed: bool)
    requires
        types::code(*old(store), old(infos)@).wf(),
    ensures
        (types::code(*final(store), final(infos)@), changed) == sweep::sweep(
            routing_rule(helpers::targets_of(types::code(*old(store), old(infos)@))),
            types::code(*old(store), old(infos)@),
            0,
            1,
        ),
        types::code(*final(store), final(infos)@).wf(),
{
    let ghost c0 = types::code(*store, infos@);
    let targets = collect_jump_targets(store, infos);
    let len = infos.len();
    let mut changed = false;
    let mut i: usize = 0;
    while i < len && len - i > 1
        invariant
            len == infos@.len(),
            sweep::under_way(
                routing_rule(targets@),
                c0,
                types::code(*store, infos@),
                i as int,
                1,
                changed,
            ),
        decreases len - i,
    {
        match routing_step(store, infos, i, &targets) {
            Some(next) => {
                changed = true;
                i = next;
            },
            None => {
                i += 1;
            },
        }
    }
    changed
}

// ── Load destination redirect ───────────────────────────────────────────────
//
//   movsbq (%r15), %rax; movq %rax, %r13; testq %rax, %rax
//     -> movsbq (%r15), %r13; testq %r13, %r13
//
// The temporary must be dead after the uses that are rewritten, and nothing in
// between may touch the register that takes its place.

/// Is `s` a load from memory?
pub open spec fn is_load(s: Seq<char>) -> bool {
    text::has(s, "("@) && ("movq "@.is_prefix_of(s) || "movl "@.is_prefix_of(s)
        || "movsbq "@.is_prefix_of(s) || "movsbl "@.is_prefix_of(s) || "movslq "@.is_prefix_of(s)
        || "movzbl "@.is_prefix_of(s) || "movzbq "@.is_prefix_of(s) || "movzwl "@.is_prefix_of(s)
        || "movzwq "@.is_prefix_of(s) || "movb "@.is_prefix_of(s) || "movw "@.is_prefix_of(s))
}

/// Is `s` a load whose address does not depend on `temp`?
pub open spec fn is_independent_load(s: Seq<char>, temp: RegId) -> bool {
    is_load(s) && match text::rsplit(s, ", "@) {
        Some((src, _)) => !helpers::names_family(src, temp),
        None => false,
    }
}

/// Does control flow end or join at this line?
pub open spec fn is_flow(k: LineKind) -> bool {
    k is Label || k is Jmp || k is JmpIndirect || k is CondJmp || k is Call || k is Ret
}

/// The reads of `temp` from line `k` up to `end`, after those in `uses`, until it
/// is overwritten or control flow intervenes. There are none where a read cannot
/// be rewritten, `dest` is touched, or more than three lines read it.
pub open spec fn reads_of(
    c: Code,
    k: int,
    end: int,
    temp: RegId,
    dest: RegId,
    uses: Seq<usize>,
) -> Option<Seq<usize>>
    decreases end - k,
{
    if k < 0 || k >= end || k >= c.len() {
        Some(uses)
    } else if c.nop(k) {
        reads_of(c, k + 1, end, temp, dest, uses)
    } else if is_flow(c.kind(k)) {
        Some(uses)
    } else if c.infos[k].refs(temp) {
        if c.infos[k].refs(dest) {
            None
        } else if helpers::dest_of(c.kind(k)) == temp {
            Some(uses)
        } else if uses.len() >= 3 || helpers::implicit_use(c.body(k)) {
            None
        } else {
            reads_of(c, k + 1, end, temp, dest, uses.push(k as usize))
        }
    } else if helpers::dest_of(c.kind(k)) == dest {
        None
    } else {
        reads_of(c, k + 1, end, temp, dest, uses)
    }
}

/// Some line from `from` to `to` that is not among `uses` names `dest`.
pub open spec fn touched_between(
    c: Code,
    from: int,
    to: int,
    dest: RegId,
    uses: Seq<usize>,
) -> bool {
    exists|m: int|
        #![trigger c.infos[m]]
        from <= m <= to && !c.nop(m) && c.infos[m].refs(dest) && !uses.contains(m as usize)
}

/// The lines with `temp` renamed to `dest` in the first `n` of `uses`.
pub open spec fn rewrite_uses(c: Code, uses: Seq<usize>, n: nat, temp: RegId, dest: RegId) -> Code
    decreases n,
{
    if n == 0 {
        c
    } else {
        let d = rewrite_uses(c, uses, (n - 1) as nat, temp, dest);
        let u = uses[n - 1] as int;
        d.put(u, "    "@ + helpers::renamed(d.body(u), 0, temp, dest))
    }
}

/// The line after the last of `uses`, or after line `j`.
pub open spec fn after_uses(j: int, uses: Seq<usize>) -> int {
    if uses.len() == 0 {
        j + 1
    } else {
        uses.last() + 1
    }
}

/// The register that takes the place of `temp`, and the lines that read `temp`.
pub open spec fn redirection(c: Code, t: Targets, i: int, j: int, temp: RegId) -> Option<
    (RegId, Seq<usize>),
> {
    match routed_dest(c.body(j), temp) {
        Some((_, dest)) => match reads_of(c, j + 1, j + 8, temp, dest, Seq::empty()) {
            Some(uses) => if liveness::dead_after_ext(c, t, after_uses(j, uses), temp) && !(
            uses.len() > 0 && touched_between(c, j + 1, uses.last() as int, dest, uses)) {
                Some((dest, uses))
            } else {
                None
            },
            None => None,
        },
        None => None,
    }
}

/// A load into a temporary goes straight to the register it is copied to.
pub open spec fn redirect_at(c: Code, t: Targets, i: int) -> Option<(Code, int)> {
    if c.kind(i) is Other && helpers::movable(c.kind(i)->dest_reg) {
        let temp = c.kind(i)->dest_reg;
        let j = c.live_from(i + 1);
        if j < c.len() && is_independent_load(c.body(i), temp) {
            match redirection(c, t, i, j, temp) {
                Some((dest, uses)) => {
                    let d = c.put(i, "    "@ + helpers::renamed(c.body(i), 0, temp, dest)).remove(j);
                    Some((rewrite_uses(d, uses, uses.len(), temp, dest), after_uses(j, uses)))
                },
                None => None,
            }
        } else {
            None
        }
    } else {
        None
    }
}

pub open spec fn redirect_rule(t: Targets) -> Rule {
    |c: Code, i: int| redirect_at(c, t, i)
}

fn loads_independently(s: &str, temp: RegId) -> (r: bool)
    requires
        types::gp(temp),
    ensures
        r == is_independent_load(s@, temp),
{
    let is_load = contains(s, "(") && (starts_with(s, "movq ") || starts_with(s, "movl ")
        || starts_with(s, "movsbq ") || starts_with(s, "movsbl ") || starts_with(s, "movslq ")
        || starts_with(s, "movzbl ") || starts_with(s, "movzbq ") || starts_with(s, "movzwl ")
        || starts_with(s, "movzwq ") || starts_with(s, "movb ") || starts_with(s, "movw "));
    if !is_load {
        return false;
    }
    match rsplit_once(s, ", ") {
        Some((src, _)) => !mentions_family(src, temp),
        None => false,
    }
}

fn is_flow_kind(k: LineKind) -> (r: bool)
    ensures
        r == is_flow(k),
{
    matches!(
        k,
        LineKind::Label | LineKind::Jmp | LineKind::JmpIndirect | LineKind::CondJmp | LineKind::Call
        | LineKind::Ret
    )
}

/// The lines after line `j` that read `temp` and can be rewritten.
fn collect_reads(store: &LineStore, infos: &[LineInfo], j: usize, temp: RegId, dest: RegId) -> (r:
    Option<Vec<usize>>)
    requires
        types::code(*store, infos@).wf(),
        j < infos@.len(),
        types::gp(temp),
        types::gp(dest),
    ensures
        match r {
            Some(uses) => reads_of(
                types::code(*store, infos@),
                j + 1,
                j + 8,
                temp,
                dest,
                Seq::empty(),
            ) == Some(uses@) && (forall|n: int|
                0 <= n < uses@.len() ==> j < #[trigger] uses@[n] < infos@.len()),
            None => reads_of(
                types::code(*store, infos@),
                j + 1,
                j + 8,
                temp,
                dest,
                Seq::empty(),
            ) is None,
        },
{
    let ghost c = types::code(*store, infos@);
    let len = infos.len();
    let end: usize = if len - j > 8 {
        j + 8
    } else {
        len
    };
    let mut uses: Vec<usize> = Vec::new();
    let mut k: usize = j + 1;
    assert(uses@ =~= Seq::empty());
    while k < end
        invariant
            c == types::code(*store, infos@),
            c.wf(),
            len == infos@.len(),
            j < k <= end <= len,
            end == j + 8 || (end == len && len <= j + 8),
            types::gp(temp),
            types::gp(dest),
            forall|n: int| 0 <= n < uses@.len() ==> j < #[trigger] uses@[n] < len,
            reads_of(c, j + 1, j + 8, temp, dest, Seq::empty()) == reads_of(
                c,
                k as int,
                j + 8,
                temp,
                dest,
                uses@,
            ),
        decreases end - k,
    {
        assert(c.infos[k as int] == infos@[k as int]);
        if infos[k].is_nop() {
            k += 1;
            continue;
        }
        if is_flow_kind(infos[k].kind) {
            return Some(uses);
        }
        if infos[k].references(temp) {
            if infos[k].references(dest) {
                return None;
            }
            if get_dest_reg(&infos[k]) == temp {
                return Some(uses);
            }
            if uses.len() >= 3 || has_implicit_reg_usage(body_of(store, infos, k)) {
                return None;
            }
            uses.push(k);
            k += 1;
            continue;
        }
        if get_dest_reg(&infos[k]) == dest {
            return None;
        }
        k += 1;
    }
    Some(uses)
}

fn contains_index(v: &Vec<usize>, x: usize) -> (r: bool)
    ensures
        r == v@.contains(x),
{
    let mut i: usize = 0;
    while i < v.len()
        invariant
            i <= v@.len(),
            forall|k: int| 0 <= k < i ==> v@[k] != x,
        decreases v@.len() - i,
    {
        if v[i] == x {
            assert(v@[i as int] == x);
            return true;
        }
        i += 1;
    }
    false
}

/// Does some line from `from` to `to` that is not among `uses` name `dest`?
fn is_touched_between(
    store: &LineStore,
    infos: &[LineInfo],
    from: usize,
    to: usize,
    dest: RegId,
    uses: &Vec<usize>,
) -> (r: bool)
    requires
        types::code(*store, infos@).wf(),
        from <= to < infos@.len(),
        types::gp(dest),
    ensures
        r == touched_between(types::code(*store, infos@), from as int, to as int, dest, uses@),
{
    let ghost c = types::code(*store, infos@);
    let len = infos.len();
    let mut m: usize = from;
    while m <= to
        invariant
            c == types::code(*store, infos@),
            len == infos@.len(),
            from <= m <= to + 1,
            to < len,
            types::gp(dest),
            forall|x: int|
                #![trigger c.infos[x]]
                from <= x < m ==> !(!c.nop(x) && c.infos[x].refs(dest) && !uses@.contains(
                    x as usize,
                )),
        decreases to + 1 - m,
    {
        assert(c.infos[m as int] == infos@[m as int]);
        if !infos[m].is_nop() && infos[m].references(dest) && !contains_index(uses, m) {
            return true;
        }
        m += 1;
    }
    false
}

/// Renames `temp` to `dest` in line `u`.
fn rename_line(store: &mut LineStore, infos: &mut [LineInfo], u: usize, temp: RegId, dest: RegId)
    requires
        types::code(*old(store), old(infos)@).wf(),
        u < old(infos)@.len(),
        types::gp(temp),
        types::gp(dest),
    ensures
        types::code(*final(store), final(infos)@).wf(),
        final(infos)@.len() == old(infos)@.len(),
        types::code(*final(store), final(infos)@) == types::code(*old(store), old(infos)@).put(
            u as int,
            "    "@ + helpers::renamed(
                types::code(*old(store), old(infos)@).body(u as int),
                0,
                temp,
                dest,
            ),
        ),
{
    let mut line = "    ".to_owned();
    line.append(replace_reg_family(body_of(store, infos, u), temp, dest).as_str());
    replace_line(store, &mut infos[u], u, line);
}

fn redirect_step(store: &mut LineStore, infos: &mut [LineInfo], i: usize, targets: &JumpTargets) -> (r:
    Option<usize>)
    requires
        types::code(*old(store), old(infos)@).wf(),
        i < old(infos)@.len(),
    ensures
        sweep::stepped(
            redirect_at(types::code(*old(store), old(infos)@), targets@, i as int),
            types::code(*old(store), old(infos)@),
            types::code(*final(store), final(infos)@),
            i as int,
            r,
        ),
{
    let ghost c = types::code(*store, infos@);
    let len = infos.len();
    let temp = match infos[i].kind {
        LineKind::Other { dest_reg } => dest_reg,
        _ => {
            return None;
        },
    };
    if !is_movable(temp) || !loads_independently(body_of(store, infos, i), temp) {
        return None;
    }
    let j = next_live(infos, i + 1);
    assert(c.live_from(i + 1) == j);
    if j >= len {
        return None;
    }
    let dest = match parse_routed_dest(body_of(store, infos, j), temp) {
        Some((_, fam)) => fam,
        None => {
            return None;
        },
    };
    let uses = match collect_reads(store, infos, j, temp, dest) {
        Some(uses) => uses,
        None => {
            return None;
        },
    };
    let count = uses.len();
    let next: usize = if count == 0 {
        j + 1
    } else {
        uses[count - 1] + 1
    };
    if !is_reg_dead_after_ext(infos, store, next, temp, targets) {
        return None;
    }
    if count > 0 && is_touched_between(store, infos, j + 1, next - 1, dest, &uses) {
        return None;
    }
    rename_line(store, infos, i, temp, dest);
    mark_nop(&mut infos[j]);
    let ghost d = types::code(*store, infos@);
    let mut n: usize = 0;
    while n < count
        invariant
            n <= count == uses@.len(),
            len == infos@.len(),
            types::gp(temp),
            types::gp(dest),
            forall|x: int| 0 <= x < uses@.len() ==> j < #[trigger] uses@[x] < len,
            types::code(*store, infos@).wf(),
            types::code(*store, infos@) == rewrite_uses(d, uses@, n as nat, temp, dest),
        decreases count - n,
    {
        rename_line(store, infos, uses[n], temp, dest);
        n += 1;
    }
    Some(next)
}

/// Lets loads into a temporary go straight to the register they are copied to.
pub fn redirect_load_destination(store: &mut LineStore, infos: &mut [LineInfo]) -> (changed: bool)
    requires
        types::code(*old(store), old(infos)@).wf(),
    ensures
        (types::code(*final(store), final(infos)@), changed) == sweep::sweep(
            redirect_rule(helpers::targets_of(types::code(*old(store), old(infos)@))),
            types::code(*old(store), old(infos)@),
            0,
            1,
        ),
        types::code(*final(store), final(infos)@).wf(),
{
    let ghost c0 = types::code(*store, infos@);
    let targets = collect_jump_targets(store, infos);
    let len = infos.len();
    let mut changed = false;
    let mut i: usize = 0;
    while i < len && len - i > 1
        invariant
            len == infos@.len(),
            sweep::under_way(
                redirect_rule(targets@),
                c0,
                types::code(*store, infos@),
                i as int,
                1,
                changed,
            ),
        decreases len - i,
    {
        match redirect_step(store, infos, i, &targets) {
            Some(next) => {
                changed = true;
                i = next;
            },
            None => {
                i += 1;
            },
        }
    }
    changed
}

// ── Increment-in-place fold ─────────────────────────────────────────────────
//
//   movq %r15, %rsi; addq $1, %rsi; movq %rsi, %r15 -> addq $1, %r15
//   movq %rbx, %rsi; subq $1, %rsi; movq %rsi, %rbx -> subq $1, %rbx
//
// The temporary must be dead after the third instruction.

/// The immediate of `op IMM, %reg`, as text.
pub open spec fn immediate_text(s: Seq<char>, op: Seq<char>, reg: Seq<char>) -> Option<Seq<char>> {
    match text::after(s, op) {
        Some(rest) => match text::split(rest, ", "@) {
            Some((imm, dst)) => if text::trim(dst) == reg {
                Some(imm)
            } else {
                None
            },
            None => None,
        },
        None => None,
    }
}

/// The prefix and the immediate of `addq $imm, %reg` or `subq $imm, %reg`.
pub open spec fn arith_imm(s: Seq<char>, reg: Seq<char>) -> Option<(Seq<char>, Seq<char>)> {
    match immediate_text(s, "addq $"@, reg) {
        Some(imm) => Some(("addq $"@, imm)),
        None => match immediate_text(s, "subq $"@, reg) {
            Some(imm) => Some(("subq $"@, imm)),
            None => None,
        },
    }
}

/// A register that is changed by an immediate in a copy is changed in place.
pub open spec fn increment_at(c: Code, t: Targets, i: int) -> Option<(Code, int)> {
    match helpers::reg_move(c.kind(i), c.body(i)) {
        Some((src, tmp)) => {
            let j = c.live_from(i + 1);
            let k = c.live_from(j + 1);
            if j < c.len() && k < c.len() {
                match arith_imm(c.body(j), types::reg_text(0, tmp)) {
                    Some((op, imm)) => if c.body(k) == "movq "@ + types::reg_text(0, tmp) + ", "@
                        + types::reg_text(0, src) && liveness::dead_after_ext(c, t, k + 1, tmp) {
                        Some(
                            (
                                c.remove(i).remove(j).put(
                                    k,
                                    "    "@ + op + imm + ", "@ + types::reg_text(0, src),
                                ),
                                k + 1,
                            ),
                        )
                    } else {
                        None
                    },
                    None => None,
                }
            } else {
                None
            }
        },
        None => None,
    }
}

pub open spec fn increment_rule(t: Targets) -> Rule {
    |c: Code, i: int| increment_at(c, t, i)
}

fn parse_immediate_text<'a>(s: &'a str, op: &str, reg: &str) -> (r: Option<&'a str>)
    ensures
        text::piece(r) == immediate_text(s@, op@, reg@),
{
    match strip_prefix(s, op) {
        Some(rest) => match split_once(rest, ", ") {
            Some((imm, dst)) => if same(trim_text(dst), reg) {
                Some(imm)
            } else {
                None
            },
            None => None,
        },
        None => None,
    }
}

/// Match `addq/subq $imm, %rT` and return the prefix and immediate string.
pub fn match_arith_imm_reg<'a>(trimmed: &'a str, reg_64: &str) -> (r: Option<(&'a str, &'a str)>)
    ensures
        text::pieces(r) == arith_imm(trimmed@, reg_64@),
{
    match parse_immediate_text(trimmed, "addq $", reg_64) {
        Some(imm) => Some(("addq $", imm)),
        None => match parse_immediate_text(trimmed, "subq $", reg_64) {
            Some(imm) => Some(("subq $", imm)),
            None => None,
        },
    }
}

fn increment_step(store: &mut LineStore, infos: &mut [LineInfo], i: usize, targets: &JumpTargets) -> (r:
    Option<usize>)
    requires
        types::code(*old(store), old(infos)@).wf(),
        i < old(infos)@.len(),
    ensures
        sweep::stepped(
            increment_at(types::code(*old(store), old(infos)@), targets@, i as int),
            types::code(*old(store), old(infos)@),
            types::code(*final(store), final(infos)@),
            i as int,
            r,
        ),
{
    let ghost c = types::code(*store, infos@);
    let len = infos.len();
    let (src, tmp) = match parse_reg_to_reg_movq(&infos[i], body_of(store, infos, i)) {
        Some(pair) => pair,
        None => {
            return None;
        },
    };
    let j = next_live(infos, i + 1);
    assert(c.live_from(i + 1) == j);
    if j >= len {
        return None;
    }
    let k = next_live(infos, j + 1);
    assert(c.live_from(j + 1) == k);
    if k >= len {
        return None;
    }
    match match_arith_imm_reg(body_of(store, infos, j), reg_name(0, tmp)) {
        Some((op, imm)) => {
            let mut expected = "movq ".to_owned();
            expected.append(reg_name(0, tmp));
            expected.append(", ");
            expected.append(reg_name(0, src));
            if !same(body_of(store, infos, k), expected.as_str()) || !is_reg_dead_after_ext(
                infos,
                store,
                k + 1,
                tmp,
                targets,
            ) {
                return None;
            }
            let mut line = "    ".to_owned();
            line.append(op);
            line.append(imm);
            line.append(", ");
            line.append(reg_name(0, src));
            mark_nop(&mut infos[i]);
            mark_nop(&mut infos[j]);
            replace_line(store, &mut infos[k], k, line);
            Some(k + 1)
        },
        None => None,
    }
}

/// Changes registers by an immediate in place rather than in a copy.
pub fn fold_increment_in_place(store: &mut LineStore, infos: &mut [LineInfo]) -> (changed: bool)
    requires
        types::code(*old(store), old(infos)@).wf(),
    ensures
        (types::code(*final(store), final(infos)@), changed) == sweep::sweep(
            increment_rule(helpers::targets_of(types::code(*old(store), old(infos)@))),
            types::code(*old(store), old(infos)@),
            0,
            2,
        ),
        types::code(*final(store), final(infos)@).wf(),
{
    let ghost c0 = types::code(*store, infos@);
    let targets = collect_jump_targets(store, infos);
    let len = infos.len();
    let mut changed = false;
    let mut i: usize = 0;
    while i < len && len - i > 2
        invariant
            len == infos@.len(),
            sweep::under_way(
                increment_rule(targets@),
                c0,
                types::code(*store, infos@),
                i as int,
                2,
                changed,
            ),
        decreases len - i,
    {
        match increment_step(store, infos, i, &targets) {
            Some(next) => {
                changed = true;
                i = next;
            },
            None => {
                i += 1;
            },
        }
    }
    changed
}

} // verus!
