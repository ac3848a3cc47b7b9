//! Fusion of comparisons with the branches that use them.
//!
//! Fuses comparison, `setCC`, test and `jCC` sequences into one conditional jump,
//! and drops tests of what an `and` has just computed.

use vstd::prelude::*;

use super::address_folds;
use super::address_folds::previous_live;
use super::helpers;
use super::helpers::{
    body_of, collect_jump_targets, collect_non_nop_indices, get_dest_reg, has_implicit_reg_usage,
    invert_cc, next_live, parse_reg_to_reg_movq, parse_setcc, Flags, JumpTargets, Targets,
};
use super::liveness;
use super::liveness::{is_flag_preserving, is_reg_unused_after_ext};
use super::sweep;
use super::sweep::Rule;
use super::text;
use super::text::{contains, parse_i64, same, split_once, starts_with, strip_prefix, trim_text};
use super::types;
use super::types::{
    classify_line, is_valid_gp_reg, mark_nop, reg_name, register_family_fast, replace_line, Code,
    LineInfo, LineKind, LineStore, RegId,
};

verus! {

/// Maximum number of store/load offsets tracked during compare-and-branch fusion.
pub const MAX_TRACKED_STORE_LOAD_OFFSETS: usize = 4;

/// Size of the instruction lookahead window for compare-and-branch fusion.
pub const CMP_FUSION_LOOKAHEAD: usize = 8;

// ── Comparison, setCC, test, branch ─────────────────────────────────────────

/// Does `s` only pass on the result of a `setCC`?
pub open spec fn passes_flag_on(s: Seq<char>) -> bool {
    "movzbq %al,"@.is_prefix_of(s) || "movzbl %al,"@.is_prefix_of(s)
}

/// Does `s` only widen the result of a `setCC`?
pub open spec fn widens_flag(s: Seq<char>) -> bool {
    s == "cltq"@ || "movslq "@.is_prefix_of(s)
}

/// Does `s` test `%rax`?
pub open spec fn tests_rax(s: Seq<char>) -> bool {
    s == "testq %rax, %rax"@ || s == "testl %eax, %eax"@
}

/// Going through `lines` from the `k`th on, the position of the test of the
/// result, and the slots that the result was stored to on the way.
pub open spec fn find_test(c: Code, lines: Seq<usize>, k: int, stores: Seq<i32>) -> Option<
    (int, Seq<i32>),
>
    decreases lines.len() - k,
{
    if k < 0 || k >= lines.len() {
        None
    } else {
        let l = lines[k] as int;
        if passes_flag_on(c.body(l)) {
            find_test(c, lines, k + 1, stores)
        } else if c.kind(l) is StoreRbp {
            if stores.len() < MAX_TRACKED_STORE_LOAD_OFFSETS {
                find_test(c, lines, k + 1, stores.push(c.kind(l)->StoreRbp_offset))
            } else {
                None
            }
        } else if c.kind(l) is LoadRbp || widens_flag(c.body(l)) {
            find_test(c, lines, k + 1, stores)
        } else if tests_rax(c.body(l)) {
            Some((k, stores))
        } else {
            None
        }
    }
}

/// The slot that line `l` loads, or loaded before it was removed.
pub open spec fn load_slot(c: Code, l: int) -> Option<i32> {
    match c.kind(l) {
        LineKind::LoadRbp { offset, .. } => Some(offset),
        LineKind::Nop => match types::classified(c.texts[l]).kind {
            LineKind::LoadRbp { offset, .. } => Some(offset),
            _ => None,
        },
        _ => None,
    }
}

/// The first slots that lines `from` to `to` load, after those in `found`.
pub open spec fn loads_between(c: Code, from: int, to: int, found: Seq<i32>) -> Seq<i32>
    decreases to + 1 - from,
{
    if from > to {
        found
    } else {
        match load_slot(c, from) {
            Some(offset) => loads_between(
                c,
                from + 1,
                to,
                if found.len() < MAX_TRACKED_STORE_LOAD_OFFSETS {
                    found.push(offset)
                } else {
                    found
                },
            ),
            None => loads_between(c, from + 1, to, found),
        }
    }
}

/// Each of the slots `stores` is among those that lines `from` to `to` load.
pub open spec fn stores_are_read(c: Code, from: int, to: int, stores: Seq<i32>) -> bool {
    forall|k: int|
        0 <= k < stores.len() ==> loads_between(c, from, to, Seq::empty()).contains(
            #[trigger] stores[k],
        )
}

/// Whether the branch is taken when the result is not zero, and its target.
pub open spec fn branch_on_zero(s: Seq<char>) -> Option<(bool, Seq<char>)> {
    match text::after(s, "jne "@) {
        Some(t) => Some((true, text::trim(t))),
        None => match text::after(s, "je "@) {
            Some(t) => Some((false, text::trim(t))),
            None => None,
        },
    }
}

/// The branch on the result of the comparison at line `i`, whose next lines are
/// `lines`: the position of the test, and the branch that does without it.
pub open spec fn fused_branch(c: Code, lines: Seq<usize>) -> Option<(int, Seq<char>)> {
    if lines.len() < 3 || !(c.kind(lines[0] as int) is SetCC) {
        None
    } else {
        match (helpers::setcc_cond(c.body(lines[0] as int)), find_test(c, lines, 1, Seq::empty())) {
            (Some(cc), Some((t, stores))) => if t + 1 < lines.len() && stores_are_read(
                c,
                lines[0] as int,
                lines[t] as int,
                stores,
            ) {
                match branch_on_zero(c.body(lines[t + 1] as int)) {
                    Some((on_nonzero, target)) => Some(
                        (
                            t,
                            "    j"@ + fused_condition(cc, on_nonzero) + " "@ + target,
                        ),
                    ),
                    None => None,
                }
            } else {
                None
            },
            _ => None,
        }
    }
}

/// The condition of the branch in place of one on whether the result of `setCC` is
/// not zero, or on whether it is.
pub open spec fn fused_condition(cc: Seq<char>, on_nonzero: bool) -> Seq<char> {
    if on_nonzero {
        cc
    } else {
        helpers::inverted(cc)
    }
}

/// The branch that does without the result of `setCC` is taken exactly when the branch
/// on it is: that result is one where the condition holds, and zero elsewhere.
pub proof fn law_fused_branch_is_taken_alike(cc: Seq<char>, f: Flags, on_nonzero: bool)
    requires
        helpers::condition(cc, f) is Some,
    ensures
        ({
            let result: int = if helpers::condition(cc, f) == Some(true) {
                1
            } else {
                0
            };
            helpers::condition(fused_condition(cc, on_nonzero), f) == Some(
                if on_nonzero {
                    result != 0
                } else {
                    result == 0
                },
            )
        }),
{
    helpers::law_inverted_condition_is_the_opposite(cc, f);
}

/// A comparison whose result is only made to be branched on is branched on itself.
pub open spec fn compare_at(c: Code, i: int) -> Option<(Code, int)> {
    let lines = helpers::live_lines(c, i + 1, (CMP_FUSION_LOOKAHEAD - 1) as nat);
    if c.kind(i) is Cmp {
        match fused_branch(c, lines) {
            Some((t, line)) => Some(
                (
                    sweep::remove_first(c, lines, (t + 1) as nat).put(lines[t + 1] as int, line),
                    lines[t + 1] + 1,
                ),
            ),
            None => None,
        }
    } else {
        None
    }
}

pub open spec fn compare_rule() -> Rule {
    |c: Code, i: int| compare_at(c, i)
}

fn find_test_line(store: &LineStore, infos: &[LineInfo], lines: &Vec<usize>) -> (r: Option<
    (usize, Vec<i32>),
>)
    requires
        types::code(*store, infos@).wf(),
        lines@.len() >= 1,
        forall|k: int| 0 <= k < lines@.len() ==> #[trigger] lines@[k] < infos@.len(),
    ensures
        match r {
            Some((t, stores)) => find_test(types::code(*store, infos@), lines@, 1, Seq::empty())
                == Some((t as int, stores@)) && 1 <= t < lines@.len(),
            None => find_test(types::code(*store, infos@), lines@, 1, Seq::empty()) is None,
        },
{
    let ghost c = types::code(*store, infos@);
    let mut stores: Vec<i32> = Vec::new();
    let mut k: usize = 1;
    assert(stores@ =~= Seq::empty());
    while k < lines.len()
        invariant
            c == types::code(*store, infos@),
            c.wf(),
            1 <= k <= lines@.len(),
            forall|n: int| 0 <= n < lines@.len() ==> #[trigger] lines@[n] < infos@.len(),
            find_test(c, lines@, 1, Seq::empty()) == find_test(c, lines@, k as int, stores@),
        decreases lines@.len() - k,
    {
        let l = lines[k];
        let line = body_of(store, infos, l);
        if starts_with(line, "movzbq %al,") || starts_with(line, "movzbl %al,") {
            k += 1;
            continue;
        }
        if let LineKind::StoreRbp { offset, .. } = infos[l].kind {
            if stores.len() >= MAX_TRACKED_STORE_LOAD_OFFSETS {
                return None;
            }
            stores.push(offset);
            k += 1;
            continue;
        }
        if matches!(infos[l].kind, LineKind::LoadRbp { .. }) || same(line, "cltq") || starts_with(
            line,
            "movslq ",
        ) {
            k += 1;
            continue;
        }
        if same(line, "testq %rax, %rax") || same(line, "testl %eax, %eax") {
            return Some((k, stores));
        }
        return None;
    }
    None
}

fn find_load_slot(store: &LineStore, infos: &[LineInfo], l: usize) -> (r: Option<i32>)
    requires
        types::code(*store, infos@).wf(),
        l < infos@.len(),
    ensures
        r == load_slot(types::code(*store, infos@), l as int),
{
    match infos[l].kind {
        LineKind::LoadRbp { offset, .. } => Some(offset),
        LineKind::Nop => match classify_line(store.get(l)).kind {
            LineKind::LoadRbp { offset, .. } => Some(offset),
            _ => None,
        },
        _ => None,
    }
}

fn contains_offset(v: &Vec<i32>, x: i32) -> (r: bool)
    ensures
        r == v@.contains(x),
{
    let mut i: usize = 0;
    while i < v.len()
        invariant
            i <= v@.len(),
            forall|k: int| 0 <= k < i ==> v@[k] != x,
        decreases v@.len() - i,
    {
        if v[i] == x {
            assert(v@[i as int] == x);
            return true;
        }
        i += 1;
    }
    false
}

fn are_stores_read(
    store: &LineStore,
    infos: &[LineInfo],
    from: usize,
    to: usize,
    stores: &Vec<i32>,
) -> (r: bool)
    requires
        types::code(*store, infos@).wf(),
        to < infos@.len(),
    ensures
        r == stores_are_read(types::code(*store, infos@), from as int, to as int, stores@),
{
    let ghost c = types::code(*store, infos@);
    let len = infos.len();
    let mut loads: Vec<i32> = Vec::new();
    let mut l: usize = from;
    assert(loads@ =~= Seq::empty());
    while l <= to
        invariant
            c == types::code(*store, infos@),
            c.wf(),
            to < len == infos@.len(),
            loads_between(c, from as int, to as int, Seq::empty()) == loads_between(
                c,
                l as int,
                to as int,
                loads@,
            ),
        decreases to + 1 - l,
    {
        if let Some(offset) = find_load_slot(store, infos, l) {
            if loads.len() < MAX_TRACKED_STORE_LOAD_OFFSETS {
                loads.push(offset);
            }
        }
        l += 1;
    }
    let mut k: usize = 0;
    while k < stores.len()
        invariant
            c == types::code(*store, infos@),
            loads@ == loads_between(c, from as int, to as int, Seq::empty()),
            k <= stores@.len(),
            forall|n: int| 0 <= n < k ==> loads@.contains(#[trigger] stores@[n]),
        decreases stores@.len() - k,
    {
        if !contains_offset(&loads, stores[k]) {
            assert(!loads@.contains(stores@[k as int]));
            return false;
        }
        k += 1;
    }
    true
}

fn find_fused_branch(store: &LineStore, infos: &[LineInfo], lines: &Vec<usize>) -> (r: Option<
    (usize, String),
>)
    requires
        types::code(*store, infos@).wf(),
        forall|k: int| 0 <= k < lines@.len() ==> #[trigger] lines@[k] < infos@.len(),
    ensures
        match r {
            Some((t, line)) => fused_branch(types::code(*store, infos@), lines@) == Some(
                (t as int, line@),
            ) && t + 1 < lines@.len(),
            None => fused_branch(types::code(*store, infos@), lines@) is None,
        },
{
    if lines.len() < 3 || !matches!(infos[lines[0]].kind, LineKind::SetCC { .. }) {
        return None;
    }
    let cc = match parse_setcc(body_of(store, infos, lines[0])) {
        Some(cc) => cc,
        None => {
            return None;
        },
    };
    let (t, stores) = match find_test_line(store, infos, lines) {
        Some(found) => found,
        None => {
            return None;
        },
    };
    if lines.len() - t <= 1 || !are_stores_read(store, infos, lines[0], lines[t], &stores) {
        return None;
    }
    let branch = body_of(store, infos, lines[t + 1]);
    let (fused, target) = match strip_prefix(branch, "jne ") {
        Some(target) => (cc, trim_text(target)),
        None => match strip_prefix(branch, "je ") {
            Some(target) => (invert_cc(cc), trim_text(target)),
            None => {
                return None;
            },
        },
    };
    let mut line = "    j".to_owned();
    line.append(fused);
    line.append(" ");
    line.append(target);
    Some((t, line))
}

fn compare_step(store: &mut LineStore, infos: &mut [LineInfo], i: usize) -> (r: Option<usize>)
    requires
        types::code(*old(store), old(infos)@).wf(),
        i < old(infos)@.len(),
    ensures
        sweep::stepped(
            compare_at(types::code(*old(store), old(infos)@), i as int),
            types::code(*old(store), old(infos)@),
            types::code(*final(store), final(infos)@),
            i as int,
            r,
        ),
{
    let ghost c = types::code(*store, infos@);
    let len = infos.len();
    if !matches!(infos[i].kind, LineKind::Cmp) {
        return None;
    }
    let lines = collect_non_nop_indices(store, infos, i + 1, CMP_FUSION_LOOKAHEAD - 1);
    match find_fused_branch(store, infos, &lines) {
        Some((t, line)) => {
            let mut n: usize = 0;
            while n <= t
                invariant
                    t + 1 < lines@.len() < 8,
                    n <= t + 1,
                    len == infos@.len(),
                    forall|k: int| 0 <= k < lines@.len() ==> i < #[trigger] lines@[k] < len,
                    types::code(*store, infos@).wf(),
                    types::code(*store, infos@) == sweep::remove_first(c, lines@, n as nat),
                decreases t + 1 - n,
            {
                mark_nop(&mut infos[lines[n]]);
                n += 1;
            }
            let at = lines[t + 1];
            replace_line(store, &mut infos[at], at, line);
            Some(at + 1)
        },
        None => None,
    }
}

/// Branches on comparisons directly where only their result was branched on.
pub fn fuse_compare_and_branch(store: &mut LineStore, infos: &mut [LineInfo]) -> (changed: bool)
    requires
        types::code(*old(store), old(infos)@).wf(),
    ensures
        (types::code(*final(store), final(infos)@), changed) == sweep::sweep(
            compare_rule(),
            types::code(*old(store), old(infos)@),
            0,
            0,
        ),
        types::code(*final(store), final(infos)@).wf(),
{
    let ghost c0 = types::code(*store, infos@);
    let len = infos.len();
    let mut changed = false;
    let mut i: usize = 0;
    while i < len
        invariant
            len == infos@.len(),
            sweep::under_way(
                compare_rule(),
                c0,
                types::code(*store, infos@),
                i as int,
                0,
                changed,
            ),
        decreases len - i,
    {
        match compare_step(store, infos, i) {
            Some(next) => {
                changed = true;
                i = next;
            },
            None => {
                i += 1;
            },
        }
    }
    changed
}

// ── AND/test/branch fusion ──────────────────────────────────────────────────
//
//   andl $IMM, %rB; [mov chain]; testl %rC, %rC; jCC target
//
// The `and` sets the flags by its result, and the moves keep them, so the test is
// redundant. If nothing else uses the result, the `and` becomes a test itself, of
// the register that its operand was copied from.

/// The immediate, the register and the width (64 bits?) of an `and`.
pub open spec fn and_imm(s: Seq<char>) -> Option<(Seq<char>, RegId, bool)> {
    let (rest, wide) = match text::after(s, "andl $"@) {
        Some(r) => (Some(r), false),
        None => (text::after(s, "andq $"@), true),
    };
    match rest {
        Some(r) => match text::split(r, ", "@) {
            Some((imm, reg)) => {
                let fam = types::family(text::trim(reg));
                if types::gp(fam) {
                    Some((imm, fam, wide))
                } else {
                    None
                }
            },
            None => None,
        },
        None => None,
    }
}

/// The text after one of two prefixes.
pub open spec fn after_either(s: Seq<char>, p: Seq<char>, q: Seq<char>) -> Option<Seq<char>> {
    match text::after(s, p) {
        Some(r) => Some(r),
        None => text::after(s, q),
    }
}

/// The register that is tested with itself.
pub open spec fn test_self(s: Seq<char>) -> Option<RegId> {
    match after_either(s, "testl "@, "testq "@) {
        Some(rest) => match text::split(rest, ", "@) {
            Some((a, b)) => {
                let fam = types::family(text::trim(a));
                if text::trim(a) == text::trim(b) && types::gp(fam) {
                    Some(fam)
                } else {
                    None
                }
            },
            None => None,
        },
        None => None,
    }
}

/// The registers of a move of 32 or 64 bits.
pub open spec fn any_reg_mov(s: Seq<char>) -> Option<(RegId, RegId)> {
    match after_either(s, "movl "@, "movq "@) {
        Some(rest) => match text::split(rest, ", "@) {
            Some((a, b)) => {
                let src = types::family(text::trim(a));
                let dst = types::family(text::trim(b));
                if !text::has(text::trim(a), "("@) && !text::has(text::trim(b), "("@) && types::gp(
                    src,
                ) && types::gp(dst) {
                    Some((src, dst))
                } else {
                    None
                }
            },
            None => None,
        },
        None => None,
    }
}

pub open spec fn holds(regs: u16, reg: RegId) -> bool {
    regs & (1u16 << reg) != 0
}

/// The mask of an `and`: is it of 64 bits, and is it so small that the result has its
/// upper 33 bits clear?
#[derive(Clone, Copy, Debug, PartialEq, Eq, Structural)]
pub struct Mask {
    pub wide: bool,
    pub small: bool,
}

/// The mask of `and $imm, %reg` of 64 or of 32 bits.
pub open spec fn mask_of(imm: Seq<char>, wide: bool) -> Mask {
    Mask {
        wide,
        small: match text::integer(imm) {
            Some(n) => 0 <= n <= 0x7FFF_FFFF,
            None => false,
        },
    }
}

/// Where the result of an `and` is, some lines behind it.
#[verifier::ext_equal]
pub struct Copies {
    /// The registers that hold the result, as a bit set.
    pub regs: u16,
    /// The registers that held it at some time.
    pub ever: u16,
    /// The moves that copied it, up to four.
    pub moves: Seq<usize>,
    /// Has nothing but those moves used it?
    pub clean: bool,
}

/// The result right behind the `and`.
pub open spec fn fresh_result(reg: RegId) -> Copies {
    Copies { regs: 1u16 << reg, ever: 1u16 << reg, moves: Seq::empty(), clean: true }
}

/// The move at line `j` copies the whole result on, out of a register among `regs`.
pub open spec fn copies_on(c: Code, j: int, m: Mask, regs: u16) -> Option<RegId> {
    match any_reg_mov(c.body(j)) {
        Some((src, dst)) => if holds(regs, src) && dst != 4 && dst != 5 && (m.small || !m.wide
            || "movq "@.is_prefix_of(c.body(j))) {
            Some(dst)
        } else {
            None
        },
        None => None,
    }
}

/// The result after the move at line `j` has copied it to `dst`.
pub open spec fn copied(x: Copies, j: int, dst: RegId) -> Copies {
    Copies {
        regs: x.regs | (1u16 << dst),
        ever: x.ever | (1u16 << dst),
        moves: if x.moves.len() < 4 {
            x.moves.push(j as usize)
        } else {
            x.moves
        },
        clean: x.clean && x.moves.len() < 4,
    }
}

/// `regs` without the register that is written.
pub open spec fn without(regs: u16, dest: RegId) -> u16 {
    if types::gp(dest) {
        regs & !(1u16 << dest)
    } else {
        regs
    }
}

/// The result after line `j`, which does not copy it.
pub open spec fn passed(c: Code, j: int, x: Copies) -> Copies {
    Copies {
        regs: without(x.regs, helpers::dest_of(c.kind(j))),
        clean: x.clean && c.infos[j].reg_refs & x.ever == 0,
        ..x
    }
}

/// Does a test by `s` of a register that holds the result set the flags as the `and`
/// did?
pub open spec fn tests_alike(s: Seq<char>, m: Mask) -> bool {
    m.small || m.wide == "testq "@.is_prefix_of(s)
}

/// Does a conditional jump depend on the zero flag alone?
#[verifier::opaque]
pub open spec fn asks_zero(s: Seq<char>) -> bool {
    "je "@.is_prefix_of(s) || "jne "@.is_prefix_of(s) || "jz "@.is_prefix_of(s)
        || "jnz "@.is_prefix_of(s)
}

/// Is the flags' only use behind line `j` a jump that depends on the zero flag alone?
pub open spec fn zero_asked(c: Code, j: int) -> bool {
    let k = c.live_from(j + 1);
    let l = c.live_from(k + 1);
    k < c.len() && c.kind(k) is CondJmp && asks_zero(c.body(k)) && !(l < c.len() && c.kind(
        l,
    ) is CondJmp)
}

/// Does the jump behind the test at line `j` go the same way if it goes by the flags of
/// the `and`? A test of all 64 bits of a result of 32 differs in the sign flag only.
pub open spec fn test_spared(c: Code, j: int, m: Mask) -> bool {
    tests_alike(c.body(j), m) || (!m.wide && zero_asked(c, j))
}

/// From line `j` up to `end`, the test of a register that holds the result, and
/// where the result is then.
pub open spec fn redundant_test(c: Code, j: int, end: int, m: Mask, x: Copies) -> Option<
    (int, Copies),
>
    decreases end - j,
{
    if j >= end {
        None
    } else if c.nop(j) {
        redundant_test(c, j + 1, end, m, x)
    } else if c.infos[j].barrier() {
        None
    } else if c.kind(j) is Cmp {
        match test_self(c.body(j)) {
            Some(reg) => if holds(x.regs, reg) && test_spared(c, j, m) {
                Some((j, x))
            } else {
                None
            },
            None => None,
        }
    } else {
        match copies_on(c, j, m, x.regs) {
            Some(dst) => redundant_test(c, j + 1, end, m, copied(x, j, dst)),
            None => if liveness::keeps_flags(c.body(j)) && !helpers::implicit_use(c.body(j)) {
                redundant_test(c, j + 1, end, m, passed(c, j, x))
            } else {
                None
            },
        }
    }
}

/// Nothing from line `k` on uses the registers that `moves` write.
pub open spec fn moves_unused(c: Code, t: Targets, k: int, moves: Seq<usize>) -> bool {
    forall|n: int|
        0 <= n < moves.len() ==> unused_dest(c, t, k, #[trigger] moves[n] as int)
}

/// Nothing from line `k` on uses the register that line `m` writes.
pub open spec fn unused_dest(c: Code, t: Targets, k: int, m: int) -> bool {
    types::gp(helpers::dest_of(c.kind(m))) && liveness::unused_after_ext(
        c,
        t,
        k,
        helpers::dest_of(c.kind(m)),
    )
}

/// The move before line `i` that made the copy in `reg`: its line and its source.
pub open spec fn copied_from(c: Code, i: int, reg: RegId) -> Option<(int, RegId)> {
    let p = address_folds::back_live(c, i - 1);
    if i > 0 && !c.nop(p) {
        match helpers::reg_move(c.kind(p), c.body(p)) {
            Some((src, dst)) => if dst == reg && src != reg {
                Some((p, src))
            } else {
                None
            },
            None => None,
        }
    } else {
        None
    }
}

/// `test $imm, %reg` of 64 or of 32 bits.
pub open spec fn test_line(imm: Seq<char>, reg: RegId, wide: bool) -> Seq<char> {
    (if wide {
        "    testq $"@
    } else {
        "    testl $"@
    }) + imm + ", "@ + types::reg_text(
        if wide {
            0
        } else {
            1
        },
        reg,
    )
}

/// The `and` at line `i`, whose result is not used, becomes a test.
pub open spec fn and_to_test(
    c: Code,
    i: int,
    imm: Seq<char>,
    reg: RegId,
    wide: bool,
    moves: Seq<usize>,
) -> Code {
    let d = sweep::remove_first(c, moves, moves.len());
    match copied_from(d, i, reg) {
        Some((p, src)) => d.put(i, test_line(imm, src, wide)).remove(p),
        None => d.put(i, test_line(imm, reg, wide)),
    }
}

pub open spec fn and_test_at(c: Code, t: Targets, i: int) -> Option<(Code, int)> {
    if c.kind(i) is Other {
        match and_imm(c.body(i)) {
            Some((imm, reg, wide)) => {
                let end = if i + 6 < c.len() {
                    i + 6
                } else {
                    c.len()
                };
                if reg == 4 || reg == 5 {
                    None
                } else {
                    match redundant_test(c, i + 1, end, mask_of(imm, wide), fresh_result(reg)) {
                        Some((j, x)) => {
                            let k = c.live_from(j + 1);
                            let d = c.remove(j);
                            if k >= c.len() || !(c.kind(k) is CondJmp) {
                                None
                            } else if x.clean && liveness::unused_after_ext(d, t, k, reg)
                                && moves_unused(d, t, k, x.moves) {
                                Some((and_to_test(d, i, imm, reg, wide, x.moves), k + 1))
                            } else {
                                Some((d, k + 1))
                            }
                        },
                        None => None,
                    }
                }
            },
            None => None,
        }
    } else {
        None
    }
}

pub open spec fn and_test_rule(t: Targets) -> Rule {
    |c: Code, i: int| and_test_at(c, t, i)
}

/// Parse `andl $IMM, %reg` or `andq $IMM, %reg`.
/// Returns (immediate_string, dest_register_family, is_andq).
pub fn parse_and_imm(trimmed: &str) -> (r: Option<(&str, RegId, bool)>)
    ensures
        match r {
            Some((imm, reg, wide)) => and_imm(trimmed@) == Some((imm@, reg, wide)) && types::gp(
                reg,
            ),
            None => and_imm(trimmed@) is None,
        },
{
    let (rest, wide) = match strip_prefix(trimmed, "andl $") {
        Some(rest) => (rest, false),
        None => match strip_prefix(trimmed, "andq $") {
            Some(rest) => (rest, true),
            None => {
                return None;
            },
        },
    };
    match split_once(rest, ", ") {
        Some((imm, reg)) => {
            let fam = register_family_fast(trim_text(reg));
            if is_valid_gp_reg(fam) {
                Some((imm, fam, wide))
            } else {
                None
            }
        },
        None => None,
    }
}

fn strip_either<'a>(s: &'a str, p: &str, q: &str) -> (r: Option<&'a str>)
    ensures
        text::piece(r) == after_either(s@, p@, q@),
{
    match strip_prefix(s, p) {
        Some(r) => Some(r),
        None => strip_prefix(s, q),
    }
}

/// Parse `testl %reg, %reg` or `testq %reg, %reg` (self-test).
/// Returns the register family if both operands are the same register.
pub fn parse_test_self(trimmed: &str) -> (r: Option<RegId>)
    ensures
        r == test_self(trimmed@),
        r is Some ==> types::gp(r->0),
{
    match strip_either(trimmed, "testl ", "testq ") {
        Some(rest) => match split_once(rest, ", ") {
            Some((a, b)) => {
                let a = trim_text(a);
                let fam = register_family_fast(a);
                if same(a, trim_text(b)) && is_valid_gp_reg(fam) {
                    Some(fam)
                } else {
                    None
                }
            },
            None => None,
        },
        None => None,
    }
}

/// Parse a reg-to-reg mov of any size: `movl %src, %dst` or `movq %src, %dst`.
/// Returns (src_family, dst_family). Excludes memory operands.
pub fn parse_any_reg_mov(trimmed: &str) -> (r: Option<(RegId, RegId)>)
    ensures
        r == any_reg_mov(trimmed@),
        match r {
            Some((src, dst)) => types::gp(src) && types::gp(dst),
            None => true,
        },
{
    match strip_either(trimmed, "movl ", "movq ") {
        Some(rest) => match split_once(rest, ", ") {
            Some((a, b)) => {
                let a = trim_text(a);
                let b = trim_text(b);
                let src = register_family_fast(a);
                let dst = register_family_fast(b);
                if !contains(a, "(") && !contains(b, "(") && is_valid_gp_reg(src)
                    && is_valid_gp_reg(dst) {
                    Some((src, dst))
                } else {
                    None
                }
            },
            None => None,
        },
        None => None,
    }
}

/// Where the result of an `and` is, some lines behind it.
struct Trace {
    regs: u16,
    ever: u16,
    moves: Vec<usize>,
    clean: bool,
}

impl View for Trace {
    type V = Copies;

    closed spec fn view(&self) -> Copies {
        Copies { regs: self.regs, ever: self.ever, moves: self.moves@, clean: self.clean }
    }
}

fn measure_mask(imm: &str, wide: bool) -> (r: Mask)
    ensures
        r == mask_of(imm@, wide),
{
    let small = match parse_i64(imm) {
        Some(n) => 0 <= n && n <= 0x7FFF_FFFF,
        None => false,
    };
    Mask { wide, small }
}

fn find_copy(body: &str, m: Mask, regs: u16) -> (r: Option<RegId>)
    ensures
        match any_reg_mov(body@) {
            Some((src, dst)) => if holds(regs, src) && dst != 4 && dst != 5 && (m.small || !m.wide
                || "movq "@.is_prefix_of(body@)) {
                r == Some(dst)
            } else {
                r is None
            },
            None => r is None,
        },
        r matches Some(dst) ==> types::gp(dst),
{
    match parse_any_reg_mov(body) {
        Some((src, dst)) => if regs & (1u16 << src) != 0 && dst != 4 && dst != 5 && (m.small
            || !m.wide || starts_with(body, "movq ")) {
            Some(dst)
        } else {
            None
        },
        None => None,
    }
}

fn is_zero_asked(store: &LineStore, infos: &[LineInfo], j: usize) -> (r: bool)
    requires
        types::code(*store, infos@).wf(),
        j < infos@.len(),
    ensures
        r == zero_asked(types::code(*store, infos@), j as int),
{
    let ghost c = types::code(*store, infos@);
    let len = infos.len();
    let k = next_live(infos, j + 1);
    assert(c.live_from(j + 1) == k);
    if k >= len || !matches!(infos[k].kind, LineKind::CondJmp) {
        return false;
    }
    assert(c.infos[k as int] == infos@[k as int]);
    let body = body_of(store, infos, k);
    proof {
        reveal(asks_zero);
    }
    if !(starts_with(body, "je ") || starts_with(body, "jne ") || starts_with(body, "jz ")
        || starts_with(body, "jnz ")) {
        return false;
    }
    let l = next_live(infos, k + 1);
    assert(c.live_from(k + 1) == l);
    !(l < len && matches!(infos[l].kind, LineKind::CondJmp))
}

fn find_redundant_test(
    store: &LineStore,
    infos: &[LineInfo],
    from: usize,
    end: usize,
    m: Mask,
    reg: RegId,
) -> (r: Option<(usize, Trace)>)
    requires
        types::code(*store, infos@).wf(),
        from <= end <= infos@.len(),
        types::gp(reg),
    ensures
        match r {
            Some((j, x)) => redundant_test(
                types::code(*store, infos@),
                from as int,
                end as int,
                m,
                fresh_result(reg),
            ) == Some((j as int, x@)) && from <= j < end && (forall|n: int|
                0 <= n < x@.moves.len() ==> from <= #[trigger] x@.moves[n] < end),
            None => redundant_test(
                types::code(*store, infos@),
                from as int,
                end as int,
                m,
                fresh_result(reg),
            ) is None,
        },
{
    let ghost c = types::code(*store, infos@);
    let mut x = Trace { regs: 1u16 << reg, ever: 1u16 << reg, moves: Vec::new(), clean: true };
    let mut j: usize = from;
    assert(x@ =~= fresh_result(reg));
    while j < end
        invariant
            c == types::code(*store, infos@),
            c.wf(),
            from <= j <= end <= infos@.len(),
            forall|n: int| 0 <= n < x@.moves.len() ==> from <= #[trigger] x@.moves[n] < end,
            redundant_test(c, from as int, end as int, m, fresh_result(reg)) == redundant_test(
                c,
                j as int,
                end as int,
                m,
                x@,
            ),
        decreases end - j,
    {
        assert(c.infos[j as int] == infos@[j as int]);
        if infos[j].is_nop() {
            j += 1;
            continue;
        }
        if infos[j].is_barrier() {
            return None;
        }
        let body = body_of(store, infos, j);
        if matches!(infos[j].kind, LineKind::Cmp) {
            if let Some(tested) = parse_test_self(body) {
                if x.regs & (1u16 << tested) != 0 && (m.small || m.wide == starts_with(
                    body,
                    "testq ",
                ) || (!m.wide && is_zero_asked(store, infos, j))) {
                    return Some((j, x));
                }
            }
            return None;
        }
        let ghost before = x@;
        match find_copy(body, m, x.regs) {
            Some(dst) => {
                x.regs = x.regs | (1u16 << dst);
                x.ever = x.ever | (1u16 << dst);
                if x.moves.len() < 4 {
                    x.moves.push(j);
                } else {
                    x.clean = false;
                }
                assert(x@ =~= copied(before, j as int, dst));
            },
            None => {
                if !is_flag_preserving(body) || has_implicit_reg_usage(body) {
                    return None;
                }
                let dest = get_dest_reg(&infos[j]);
                if is_valid_gp_reg(dest) {
                    x.regs = x.regs & !(1u16 << dest);
                }
                x.clean = x.clean && infos[j].reg_refs & x.ever == 0;
                assert(x@ =~= passed(c, j as int, before));
            },
        }
        j += 1;
    }
    None
}

fn are_moves_unused(
    store: &LineStore,
    infos: &[LineInfo],
    from: usize,
    moves: &Vec<usize>,
    targets: &JumpTargets,
) -> (r: bool)
    requires
        types::code(*store, infos@).wf(),
        forall|n: int| 0 <= n < moves@.len() ==> #[trigger] moves@[n] < infos@.len(),
    ensures
        r == moves_unused(types::code(*store, infos@), targets@, from as int, moves@),
{
    let ghost c = types::code(*store, infos@);
    let mut n: usize = 0;
    while n < moves.len()
        invariant
            c == types::code(*store, infos@),
            c.wf(),
            n <= moves@.len(),
            forall|x: int| 0 <= x < moves@.len() ==> #[trigger] moves@[x] < infos@.len(),
            forall|x: int|
                0 <= x < n ==> unused_dest(c, targets@, from as int, #[trigger] moves@[x] as int),
        decreases moves@.len() - n,
    {
        let m = moves[n];
        assert(c.infos[m as int] == infos@[m as int]);
        let dest = get_dest_reg(&infos[m]);
        if !is_valid_gp_reg(dest) || !is_reg_unused_after_ext(infos, store, from, dest, targets) {
            assert(!unused_dest(c, targets@, from as int, moves@[n as int] as int));
            return false;
        }
        n += 1;
    }
    true
}

fn find_copied_from(store: &LineStore, infos: &[LineInfo], i: usize, reg: RegId) -> (r: Option<
    (usize, RegId),
>)
    requires
        types::code(*store, infos@).wf(),
        i < infos@.len(),
    ensures
        match r {
            Some((p, src)) => copied_from(types::code(*store, infos@), i as int, reg) == Some(
                (p as int, src),
            ) && p < i && types::gp(src),
            None => copied_from(types::code(*store, infos@), i as int, reg) is None,
        },
{
    if i == 0 {
        return None;
    }
    let p = previous_live(store, infos, i - 1);
    if infos[p].is_nop() {
        return None;
    }
    match parse_reg_to_reg_movq(&infos[p], body_of(store, infos, p)) {
        Some((src, dst)) => if dst == reg && src != reg {
            Some((p, src))
        } else {
            None
        },
        None => None,
    }
}

fn convert_and_to_test(
    store: &mut LineStore,
    infos: &mut [LineInfo],
    i: usize,
    imm: &str,
    reg: RegId,
    wide: bool,
    moves: &Vec<usize>,
)
    requires
        types::code(*old(store), old(infos)@).wf(),
        i < old(infos)@.len(),
        types::gp(reg),
        forall|n: int| 0 <= n < moves@.len() ==> #[trigger] moves@[n] < old(infos)@.len(),
    ensures
        types::code(*final(store), final(infos)@).wf(),
        final(infos)@.len() == old(infos)@.len(),
        types::code(*final(store), final(infos)@) == and_to_test(
            types::code(*old(store), old(infos)@),
            i as int,
            imm@,
            reg,
            wide,
            moves@,
        ),
{
    let ghost c = types::code(*store, infos@);
    let len = infos.len();
    let mut n: usize = 0;
    while n < moves.len()
        invariant
            n <= moves@.len(),
            len == infos@.len(),
            forall|x: int| 0 <= x < moves@.len() ==> #[trigger] moves@[x] < len,
            types::code(*store, infos@).wf(),
            types::code(*store, infos@) == sweep::remove_first(c, moves@, n as nat),
        decreases moves@.len() - n,
    {
        mark_nop(&mut infos[moves[n]]);
        n += 1;
    }
    let copied = find_copied_from(store, infos, i, reg);
    let tested = match copied {
        Some((_, src)) => src,
        None => reg,
    };
    let size: usize = if wide {
        0
    } else {
        1
    };
    let mut line = if wide {
        "    testq $".to_owned()
    } else {
        "    testl $".to_owned()
    };
    line.append(imm);
    line.append(", ");
    line.append(reg_name(size, tested));
    replace_line(store, &mut infos[i], i, line);
    if let Some((p, _)) = copied {
        mark_nop(&mut infos[p]);
    }
}

fn and_test_step(store: &mut LineStore, infos: &mut [LineInfo], i: usize, targets: &JumpTargets) -> (r:
    Option<usize>)
    requires
        types::code(*old(store), old(infos)@).wf(),
        i < old(infos)@.len(),
    ensures
        sweep::stepped(
            and_test_at(types::code(*old(store), old(infos)@), targets@, i as int),
            types::code(*old(store), old(infos)@),
            types::code(*final(store), final(infos)@),
            i as int,
            r,
        ),
{
    let ghost c = types::code(*store, infos@);
    let len = infos.len();
    if !matches!(infos[i].kind, LineKind::Other { .. }) {
        return None;
    }
    let (imm, reg, wide) = match parse_and_imm(body_of(store, infos, i)) {
        Some((imm, reg, wide)) => (imm.to_owned(), reg, wide),
        None => {
            return None;
        },
    };
    if reg == 4 || reg == 5 {
        return None;
    }
    let end: usize = if len - i > 6 {
        i + 6
    } else {
        len
    };
    let m = measure_mask(imm.as_str(), wide);
    let (j, x) = match find_redundant_test(store, infos, i + 1, end, m, reg) {
        Some(found) => found,
        None => {
            return None;
        },
    };
    let k = next_live(infos, j + 1);
    assert(c.live_from(j + 1) == k);
    if k >= len || !matches!(infos[k].kind, LineKind::CondJmp) {
        return None;
    }
    mark_nop(&mut infos[j]);
    if x.clean && is_reg_unused_after_ext(infos, store, k, reg, targets) && are_moves_unused(
        store,
        infos,
        k,
        &x.moves,
        targets,
    ) {
        convert_and_to_test(store, infos, i, imm.as_str(), reg, wide, &x.moves);
    }
    Some(k + 1)
}

/// Eliminate redundant test instructions after flag-setting AND operations, and
/// convert dead ANDs to non-destructive TEST instructions.
pub fn fuse_and_test_branch(store: &mut LineStore, infos: &mut [LineInfo]) -> (changed: bool)
    requires
        types::code(*old(store), old(infos)@).wf(),
    ensures
        (types::code(*final(store), final(infos)@), changed) == sweep::sweep(
            and_test_rule(helpers::targets_of(types::code(*old(store), old(infos)@))),
            types::code(*old(store), old(infos)@),
            0,
            0,
        ),
        types::code(*final(store), final(infos)@).wf(),
{
    let ghost c0 = types::code(*store, infos@);
    let targets = collect_jump_targets(store, infos);
    let len = infos.len();
    let mut changed = false;
    let mut i: usize = 0;
    while i < len
        invariant
            len == infos@.len(),
            sweep::under_way(
                and_test_rule(targets@),
                c0,
                types::code(*store, infos@),
                i as int,
                0,
                changed,
            ),
        decreases len - i,
    {
        match and_test_step(store, infos, i, &targets) {
            Some(next) => {
                changed = true;
                i = next;
            },
            None => {
                i += 1;
            },
        }
    }
    changed
}

} // verus!
