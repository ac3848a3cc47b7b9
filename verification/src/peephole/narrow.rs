//! Narrowing of 64-bit operations to 32 bits.
//!
//! A 32-bit instruction clears the upper half of its destination, so an
//! operation may be narrowed where the upper half is known to be zero:
//!   1. `andq $imm, %reg` with an immediate from 0 to 0x7FFFFFFF becomes `andl`;
//!   2. `movslq` of a 32-bit value whose sign bit is known to be zero too becomes
//!      `movl`, or goes where it extends a register in place;
//!   3. `testq %reg, %reg` of a 32-bit value becomes `testl`.

use vstd::prelude::*;

use super::helpers::{body_of, next_live};
use super::liveness;
use super::liveness::{is_known_31bit_value, is_known_32bit_value};
use super::sweep;
use super::sweep::Rule;
use super::text;
use super::text::{parse_i64, push_decimal, same, split_once, strip_prefix, trim_text};
use super::types;
use super::types::{
    is_valid_gp_reg, mark_nop, reg_name, register_family_fast, replace_line, Code, LineInfo,
    LineKind, LineStore, RegId,
};

verus! {

/// The families of the two operands that follow `op`, whatever they are.
pub open spec fn operand_families(s: Seq<char>, op: Seq<char>) -> Option<(RegId, RegId)> {
    match text::after(s, op) {
        Some(rest) => match text::split(rest, ","@) {
            Some((a, b)) => Some((types::family(text::trim(a)), types::family(text::trim(b)))),
            None => None,
        },
        None => None,
    }
}

/// `movl %src, %dst`
pub open spec fn movl_line(src: RegId, dst: RegId) -> Seq<char> {
    "    movl "@ + types::reg_text(1, src) + ", "@ + types::reg_text(1, dst)
}

/// The 32-bit form of `andq $imm, %reg`.
pub open spec fn narrow_and(s: Seq<char>) -> Option<Seq<char>> {
    match text::after(s, "andq $"@) {
        Some(rest) => match text::split(rest, ","@) {
            Some((a, b)) => match text::integer(text::trim(a)) {
                Some(imm) => {
                    let fam = types::family(text::trim(b));
                    if 0 <= imm <= 0x7FFF_FFFF && types::gp(fam) {
                        Some(
                            "    andl $"@ + text::decimal(imm) + ", "@ + types::reg_text(1, fam),
                        )
                    } else {
                        None
                    }
                },
                None => None,
            },
            None => None,
        },
        None => None,
    }
}

/// The lines after a sign extension of `reg` right behind line `i` is narrowed.
pub open spec fn narrow_next(c: Code, i: int, reg: RegId) -> Code {
    let j = c.live_from(i + 1);
    if j < c.len() {
        match operand_families(c.body(j), "movslq "@) {
            Some((src, dst)) => if src != reg {
                c
            } else if src == dst {
                c.remove(j)
            } else if types::gp(dst) {
                c.put(j, movl_line(src, dst))
            } else {
                c
            },
            None => c,
        }
    } else {
        c
    }
}

/// Line `i` is an instruction whose last operand is a register.
pub open spec fn writes_gp(c: Code, i: int) -> bool {
    c.kind(i) is Other && types::gp(c.kind(i)->dest_reg)
}

/// The register of `testq %reg, %reg`.
pub open spec fn tested_reg(s: Seq<char>) -> Option<RegId> {
    match text::after(s, "testq "@) {
        Some(rest) => match text::split(rest, ","@) {
            Some((a, b)) => if text::trim(a) == text::trim(b) && types::gp(
                types::family(text::trim(a)),
            ) {
                Some(types::family(text::trim(a)))
            } else {
                None
            },
            None => None,
        },
        None => None,
    }
}

/// A sign extension of a 32-bit value that is not negative is narrowed.
pub open spec fn narrow_extension_at(c: Code, i: int) -> Option<Code> {
    if writes_gp(c, i) {
        match operand_families(c.body(i), "movslq "@) {
            Some((src, dst)) => if types::gp(src) && types::gp(dst) && liveness::known_31bit(
                c,
                i - 1,
                12,
                src,
            ) {
                Some(
                    if src == dst {
                        c.remove(i)
                    } else {
                        c.put(i, movl_line(src, dst))
                    },
                )
            } else {
                None
            },
            None => None,
        }
    } else {
        None
    }
}

/// A test of a 32-bit value is narrowed.
pub open spec fn narrow_test_at(c: Code, i: int) -> Option<Code> {
    if c.kind(i) is Cmp {
        match tested_reg(c.body(i)) {
            Some(reg) => if liveness::known_32bit(c, i - 1, 12, reg) {
                Some(
                    c.put(
                        i,
                        "    testl "@ + types::reg_text(1, reg) + ", "@ + types::reg_text(1, reg),
                    ),
                )
            } else {
                None
            },
            None => None,
        }
    } else {
        None
    }
}

/// The operation at line `i` is narrowed.
pub open spec fn narrow_at(c: Code, i: int) -> Option<(Code, int)> {
    if c.nop(i) {
        None
    } else if writes_gp(c, i) && narrow_and(c.body(i)) is Some {
        Some(
            (
                narrow_next(c.put(i, narrow_and(c.body(i))->0), i, c.kind(i)->dest_reg),
                i + 1,
            ),
        )
    } else {
        match narrow_extension_at(c, i) {
            Some(d) => Some((d, i + 1)),
            None => match narrow_test_at(c, i) {
                Some(d) => Some((d, i + 1)),
                None => None,
            },
        }
    }
}

pub open spec fn narrow_rule() -> Rule {
    |c: Code, i: int| narrow_at(c, i)
}

fn parse_operand_families(s: &str, op: &str) -> (r: Option<(RegId, RegId)>)
    ensures
        r == operand_families(s@, op@),
{
    match strip_prefix(s, op) {
        Some(rest) => match split_once(rest, ",") {
            Some((a, b)) => Some(
                (register_family_fast(trim_text(a)), register_family_fast(trim_text(b))),
            ),
            None => None,
        },
        None => None,
    }
}

fn build_movl(src: RegId, dst: RegId) -> (r: String)
    requires
        types::gp(src),
        types::gp(dst),
    ensures
        r@ == movl_line(src, dst),
{
    let mut line = "    movl ".to_owned();
    line.append(reg_name(1, src));
    line.append(", ");
    line.append(reg_name(1, dst));
    line
}

fn build_narrow_and(s: &str) -> (r: Option<String>)
    ensures
        match r {
            Some(line) => narrow_and(s@) == Some(line@),
            None => narrow_and(s@) is None,
        },
{
    match strip_prefix(s, "andq $") {
        Some(rest) => match split_once(rest, ",") {
            Some((a, b)) => match parse_i64(trim_text(a)) {
                Some(imm) => {
                    let fam = register_family_fast(trim_text(b));
                    if 0 <= imm && imm <= 0x7FFF_FFFF && is_valid_gp_reg(fam) {
                        let mut line = "    andl $".to_owned();
                        push_decimal(&mut line, imm);
                        line.append(", ");
                        line.append(reg_name(1, fam));
                        Some(line)
                    } else {
                        None
                    }
                },
                None => None,
            },
            None => None,
        },
        None => None,
    }
}

fn parse_tested_reg(s: &str) -> (r: Option<RegId>)
    ensures
        r == tested_reg(s@),
        r matches Some(reg) ==> types::gp(reg),
{
    match strip_prefix(s, "testq ") {
        Some(rest) => match split_once(rest, ",") {
            Some((a, b)) => {
                let a = trim_text(a);
                let b = trim_text(b);
                let fam = register_family_fast(a);
                if same(a, b) && is_valid_gp_reg(fam) {
                    Some(fam)
                } else {
                    None
                }
            },
            None => None,
        },
        None => None,
    }
}

/// After rewriting a 64-bit op to 32-bit (e.g., andq to andl), check if the next
/// instruction is a movslq that can be narrowed or eliminated.
pub fn narrow_after_32bit_op(
    store: &mut LineStore,
    infos: &mut [LineInfo],
    producer_idx: usize,
    producer_reg: RegId,
)
    requires
        types::code(*old(store), old(infos)@).wf(),
        producer_idx < old(infos)@.len(),
        types::gp(producer_reg),
    ensures
        types::code(*final(store), final(infos)@).wf(),
        final(infos)@.len() == old(infos)@.len(),
        types::code(*final(store), final(infos)@) == narrow_next(
            types::code(*old(store), old(infos)@),
            producer_idx as int,
            producer_reg,
        ),
{
    let ghost c = types::code(*store, infos@);
    let j = next_live(infos, producer_idx + 1);
    assert(c.live_from(producer_idx + 1) == j);
    if j >= infos.len() {
        return;
    }
    if let Some((src, dst)) = parse_operand_families(body_of(store, infos, j), "movslq ") {
        if src == producer_reg {
            if src == dst {
                mark_nop(&mut infos[j]);
            } else if is_valid_gp_reg(dst) {
                let line = build_movl(src, dst);
                replace_line(store, &mut infos[j], j, line);
            }
        }
    }
}

fn narrow_step(store: &mut LineStore, infos: &mut [LineInfo], i: usize) -> (r: Option<usize>)
    requires
        types::code(*old(store), old(infos)@).wf(),
        i < old(infos)@.len(),
    ensures
        sweep::stepped(
            narrow_at(types::code(*old(store), old(infos)@), i as int),
            types::code(*old(store), old(infos)@),
            types::code(*final(store), final(infos)@),
            i as int,
            r,
        ),
{
    if infos[i].is_nop() {
        return None;
    }
    if let LineKind::Other { dest_reg } = infos[i].kind {
        if is_valid_gp_reg(dest_reg) {
            let body = body_of(store, infos, i);
            if let Some(line) = build_narrow_and(body) {
                replace_line(store, &mut infos[i], i, line);
                narrow_after_32bit_op(store, infos, i, dest_reg);
                return Some(i + 1);
            }
            if let Some((src, dst)) = parse_operand_families(body, "movslq ") {
                if is_valid_gp_reg(src) && is_valid_gp_reg(dst) && is_known_31bit_value(
                    infos,
                    store,
                    i,
                    src,
                ) {
                    if src == dst {
                        mark_nop(&mut infos[i]);
                    } else {
                        let line = build_movl(src, dst);
                        replace_line(store, &mut infos[i], i, line);
                    }
                    return Some(i + 1);
                }
            }
        }
    }
    if matches!(infos[i].kind, LineKind::Cmp) {
        if let Some(reg) = parse_tested_reg(body_of(store, infos, i)) {
            if is_known_32bit_value(infos, store, i, reg) {
                let mut line = "    testl ".to_owned();
                line.append(reg_name(1, reg));
                line.append(", ");
                line.append(reg_name(1, reg));
                replace_line(store, &mut infos[i], i, line);
                return Some(i + 1);
            }
        }
    }
    None
}

/// Narrows 64-bit operations whose upper half is known to be zero.
pub fn narrow_64_to_32(store: &mut LineStore, infos: &mut [LineInfo]) -> (changed: bool)
    requires
        types::code(*old(store), old(infos)@).wf(),
    ensures
        (types::code(*final(store), final(infos)@), changed) == sweep::sweep(
            narrow_rule(),
            types::code(*old(store), old(infos)@),
            0,
            0,
        ),
        types::code(*final(store), final(infos)@).wf(),
{
    let ghost c0 = types::code(*store, infos@);
    let len = infos.len();
    let mut changed = false;
    let mut i: usize = 0;
    while i < len
        invariant
            len == infos@.len(),
            sweep::under_way(
                narrow_rule(),
                c0,
                types::code(*store, infos@),
                i as int,
                0,
                changed,
            ),
        decreases len - i,
    {
        match narrow_step(store, infos, i) {
            Some(next) => {
                changed = true;
                i = next;
            },
            None => {
                i += 1;
            },
        }
    }
    changed
}

} // verus!
