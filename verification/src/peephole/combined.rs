//! The simple local patterns, tried in one sweep over the lines:
//!   1. moves of a register to itself;
//!   2. a move back right after a move;
//!   3. jumps to the label that follows;
//!   4. a conditional jump over a jump, which becomes the inverted jump;
//!   5. loads of what was just stored;
//!   6. extensions of what is extended already;
//!   7. zeroing `%rax` when it is zero already.

use vstd::prelude::*;

use super::helpers;
use super::helpers::{
    also_writes_rax, body_of, invert_cc, next_code, next_live,
};
use super::sweep;
use super::text;
use super::text::{same, split_once, strip_prefix, strip_suffix, trim_text};
use super::types;
use super::types::{
    is_valid_gp_reg, mark_nop, register_family_fast, replace_line, Code, ExtKind, LineInfo,
    LineKind, LineStore, RegId, REG_NONE,
};

verus! {

// ── What is known of %rax ───────────────────────────────────────────────────

/// Line `i` sets `%rax` to zero.
pub open spec fn zeroes_rax(c: Code, i: int) -> bool {
    c.kind(i) == (LineKind::Other { dest_reg: 0 }) && c.body(i) == "xorl %eax, %eax"@
}

/// Is `%rax` known to be zero after line `i`, given whether it was before?
pub open spec fn zero_after(c: Code, i: int, zero: bool) -> bool {
    match c.kind(i) {
        LineKind::StoreRbp { .. } => zero,
        LineKind::Other { dest_reg } => if dest_reg == 0 {
            zeroes_rax(c, i)
        } else {
            zero && !helpers::writes_rax(c.body(i))
        },
        LineKind::LoadRbp { reg, .. } => zero && reg != 0,
        LineKind::Pop { reg } => zero && reg != 0,
        LineKind::SetCC { reg } => zero && reg != 0,
        LineKind::Push { .. } => zero,
        LineKind::Cmp => zero,
        LineKind::Directive => zero,
        _ => false,
    }
}

fn is_rax_zeroing(store: &LineStore, infos: &[LineInfo], i: usize) -> (r: bool)
    requires
        types::code(*store, infos@).wf(),
        i < infos@.len(),
    ensures
        r == zeroes_rax(types::code(*store, infos@), i as int),
{
    match infos[i].kind {
        LineKind::Other { dest_reg } => dest_reg == 0 && same(
            body_of(store, infos, i),
            "xorl %eax, %eax",
        ),
        _ => false,
    }
}

fn track_zero(store: &LineStore, infos: &[LineInfo], i: usize, zero: bool) -> (r: bool)
    requires
        types::code(*store, infos@).wf(),
        i < infos@.len(),
    ensures
        r == zero_after(types::code(*store, infos@), i as int, zero),
{
    match infos[i].kind {
        LineKind::StoreRbp { .. } => zero,
        LineKind::Other { dest_reg } => if dest_reg == 0 {
            is_rax_zeroing(store, infos, i)
        } else {
            zero && !also_writes_rax(body_of(store, infos, i))
        },
        LineKind::LoadRbp { reg, .. } => zero && reg != 0,
        LineKind::Pop { reg } => zero && reg != 0,
        LineKind::SetCC { reg } => zero && reg != 0,
        LineKind::Push { .. } => zero,
        LineKind::Cmp => zero,
        LineKind::Directive => zero,
        _ => false,
    }
}

// ── Reverse moves ───────────────────────────────────────────────────────────
//
//   movq %A, %B; movq %B, %A -> movq %A, %B
//
// Only stores to the stack may stand between the two: they change no register.

/// The families of the two operands of a `movq`.
pub open spec fn movq_families(s: Seq<char>) -> Option<(RegId, RegId)> {
    match text::after(s, "movq "@) {
        Some(rest) => match text::split(rest, ","@) {
            Some((a, b)) => Some((types::family(text::trim(a)), types::family(text::trim(b)))),
            None => None,
        },
        None => None,
    }
}

/// The first line from `j` on, and before `end`, that is no store to the stack.
pub open spec fn past_stores(c: Code, j: int, end: int) -> int
    decreases end - j,
{
    if j < end && (c.nop(j) || c.kind(j) is StoreRbp) {
        past_stores(c, j + 1, end)
    } else {
        j
    }
}

pub open spec fn least(a: int, b: int) -> int {
    if a <= b {
        a
    } else {
        b
    }
}

/// The move that undoes the one at line `i`.
pub open spec fn reverse_move(c: Code, i: int) -> Option<int> {
    match movq_families(c.body(i)) {
        Some((a, b)) => {
            let end = least(i + 8, c.len());
            let j = past_stores(c, i + 1, end);
            if c.kind(i) is Other && types::gp(c.kind(i)->dest_reg) && types::gp(a) && types::gp(b)
                && a != b && j < end && c.kind(j) == (LineKind::Other { dest_reg: a })
                && movq_families(c.body(j)) == Some((b, a)) {
                Some(j)
            } else {
                None
            }
        },
        None => None,
    }
}

fn parse_movq_families(s: &str) -> (r: Option<(RegId, RegId)>)
    ensures
        r == movq_families(s@),
{
    match strip_prefix(s, "movq ") {
        Some(rest) => match split_once(rest, ",") {
            Some((a, b)) => Some(
                (register_family_fast(trim_text(a)), register_family_fast(trim_text(b))),
            ),
            None => None,
        },
        None => None,
    }
}

fn skip_stores(store: &LineStore, infos: &[LineInfo], from: usize, end: usize) -> (r: usize)
    requires
        from <= end <= infos@.len(),
    ensures
        from <= r <= end,
        r == past_stores(types::code(*store, infos@), from as int, end as int),
{
    let ghost c = types::code(*store, infos@);
    let mut j: usize = from;
    while j < end && (infos[j].is_nop() || matches!(infos[j].kind, LineKind::StoreRbp { .. }))
        invariant
            c == types::code(*store, infos@),
            from <= j <= end <= infos@.len(),
            past_stores(c, from as int, end as int) == past_stores(c, j as int, end as int),
        decreases end - j,
    {
        j += 1;
    }
    j
}

fn find_reverse_move(store: &LineStore, infos: &[LineInfo], i: usize) -> (r: Option<usize>)
    requires
        types::code(*store, infos@).wf(),
        i < infos@.len(),
    ensures
        match r {
            Some(j) => reverse_move(types::code(*store, infos@), i as int) == Some(j as int) && i
                < j < infos@.len(),
            None => reverse_move(types::code(*store, infos@), i as int) is None,
        },
{
    let len = infos.len();
    match infos[i].kind {
        LineKind::Other { dest_reg } => if !is_valid_gp_reg(dest_reg) {
            return None;
        },
        _ => {
            return None;
        },
    }
    match parse_movq_families(body_of(store, infos, i)) {
        Some((a, b)) => {
            if !is_valid_gp_reg(a) || !is_valid_gp_reg(b) || a == b {
                return None;
            }
            let end: usize = if len - i > 8 {
                i + 8
            } else {
                len
            };
            let j = skip_stores(store, infos, i + 1, end);
            if j >= end {
                return None;
            }
            match infos[j].kind {
                LineKind::Other { dest_reg } => if dest_reg != a {
                    return None;
                },
                _ => {
                    return None;
                },
            }
            match parse_movq_families(body_of(store, infos, j)) {
                Some((x, y)) => if x == b && y == a {
                    Some(j)
                } else {
                    None
                },
                None => None,
            }
        },
        None => None,
    }
}

// ── Jumps ───────────────────────────────────────────────────────────────────

/// The target of the jump at line `i`.
pub open spec fn jmp_target(c: Code, i: int) -> Option<Seq<char>> {
    if c.kind(i) is Jmp {
        match text::after(c.body(i), "jmp "@) {
            Some(t) => Some(text::trim(t)),
            None => None,
        }
    } else {
        None
    }
}

/// The next code from line `j` on is the label `name`.
pub open spec fn label_follows(c: Code, j: int, name: Seq<char>) -> bool {
    let k = helpers::code_from(c, j);
    k < c.len() && c.kind(k) is Label && text::before(c.body(k), ":"@) == Some(name)
}

/// The jump at line `i` goes to the label that follows.
pub open spec fn jumps_to_next(c: Code, i: int) -> bool {
    match jmp_target(c, i) {
        Some(t) => label_follows(c, i + 1, t),
        None => false,
    }
}

/// The condition and the target of the conditional jump at line `i`.
pub open spec fn cond_jump(c: Code, i: int) -> Option<(Seq<char>, Seq<char>)> {
    if c.kind(i) is CondJmp {
        match text::split(c.body(i), " "@) {
            Some((op, t)) => if op.len() > 0 {
                Some((op.skip(1), text::trim(t)))
            } else {
                None
            },
            None => None,
        }
    } else {
        None
    }
}

/// The conditional jump at line `i` goes over the jump after it: that jump's line,
/// and the inverted jump that can stand for both.
pub open spec fn inversion(c: Code, i: int) -> Option<(int, Seq<char>)> {
    match cond_jump(c, i) {
        Some((cc, over)) => {
            let j = c.live_from(i + 1);
            if j < c.len() {
                match jmp_target(c, j) {
                    Some(t) => if label_follows(c, j + 1, over) && helpers::inverted(cc) != cc {
                        Some((j, "    j"@ + helpers::inverted(cc) + " "@ + t))
                    } else {
                        None
                    },
                    None => None,
                }
            } else {
                None
            }
        },
        None => None,
    }
}

fn find_jmp_target<'a>(store: &'a LineStore, infos: &[LineInfo], i: usize) -> (r: Option<&'a str>)
    requires
        types::code(*store, infos@).wf(),
        i < infos@.len(),
    ensures
        text::piece(r) == jmp_target(types::code(*store, infos@), i as int),
{
    if !matches!(infos[i].kind, LineKind::Jmp) {
        return None;
    }
    match strip_prefix(body_of(store, infos, i), "jmp ") {
        Some(t) => Some(trim_text(t)),
        None => None,
    }
}

fn is_label_next(store: &LineStore, infos: &[LineInfo], from: usize, name: &str) -> (r: bool)
    requires
        types::code(*store, infos@).wf(),
        from <= infos@.len(),
    ensures
        r == label_follows(types::code(*store, infos@), from as int, name@),
{
    let k = next_code(store, infos, from);
    if k >= infos.len() || !matches!(infos[k].kind, LineKind::Label) {
        return false;
    }
    match strip_suffix(body_of(store, infos, k), ":") {
        Some(label) => same(label, name),
        None => false,
    }
}

fn is_jump_to_next(store: &LineStore, infos: &[LineInfo], i: usize) -> (r: bool)
    requires
        types::code(*store, infos@).wf(),
        i < infos@.len(),
    ensures
        r == jumps_to_next(types::code(*store, infos@), i as int),
{
    let len = infos.len();
    assert(i < len);
    match find_jmp_target(store, infos, i) {
        Some(target) => is_label_next(store, infos, i + 1, target),
        None => false,
    }
}

fn parse_cond_jump<'a>(store: &'a LineStore, infos: &[LineInfo], i: usize) -> (r: Option<
    (&'a str, &'a str),
>)
    requires
        types::code(*store, infos@).wf(),
        i < infos@.len(),
    ensures
        text::pieces(r) == cond_jump(types::code(*store, infos@), i as int),
{
    if !matches!(infos[i].kind, LineKind::CondJmp) {
        return None;
    }
    match split_once(body_of(store, infos, i), " ") {
        Some((op, t)) => {
            let n = op.unicode_len();
            if n == 0 {
                return None;
            }
            let cc = op.substring_char(1, n);
            assert(cc@ =~= op@.skip(1));
            Some((cc, trim_text(t)))
        },
        None => None,
    }
}

fn find_inversion(store: &LineStore, infos: &[LineInfo], i: usize) -> (r: Option<(usize, String)>)
    requires
        types::code(*store, infos@).wf(),
        i < infos@.len(),
    ensures
        match r {
            Some((j, line)) => inversion(types::code(*store, infos@), i as int) == Some(
                (j as int, line@),
            ) && i < j < infos@.len(),
            None => inversion(types::code(*store, infos@), i as int) is None,
        },
{
    let ghost c = types::code(*store, infos@);
    let len = infos.len();
    match parse_cond_jump(store, infos, i) {
        Some((cc, over)) => {
            let j = next_live(infos, i + 1);
            assert(c.live_from(i + 1) == j);
            if j >= len {
                return None;
            }
            match find_jmp_target(store, infos, j) {
                Some(target) => {
                    let inv = invert_cc(cc);
                    if !is_label_next(store, infos, j + 1, over) || same(inv, cc) {
                        return None;
                    }
                    let mut line = "    j".to_owned();
                    line.append(inv);
                    line.append(" ");
                    line.append(target);
                    Some((j, line))
                },
                None => None,
            }
        },
        None => None,
    }
}

// ── Adjacent store and load ─────────────────────────────────────────────────

/// Line `i + 1` loads what line `i` stores, into the same register.
pub open spec fn reloads(c: Code, i: int) -> bool {
    i + 1 < c.len() && match (c.kind(i), c.kind(i + 1)) {
        (
            LineKind::StoreRbp { reg, offset, size },
            LineKind::LoadRbp { reg: to, offset: at, size: width },
        ) => offset == at && size == width && reg == to && reg != REG_NONE,
        _ => false,
    }
}

fn is_reload(store: &LineStore, infos: &[LineInfo], i: usize) -> (r: bool)
    requires
        i < infos@.len(),
    ensures
        r == reloads(types::code(*store, infos@), i as int),
{
    if infos.len() - i <= 1 {
        return false;
    }
    match (infos[i].kind, infos[i + 1].kind) {
        (
            LineKind::StoreRbp { reg, offset, size },
            LineKind::LoadRbp { reg: to, offset: at, size: width },
        ) => offset == at && size == width && reg == to && reg != REG_NONE,
        _ => false,
    }
}

// ── Redundant extensions ────────────────────────────────────────────────────

/// Line `k` leaves `%rax` alone.
pub open spec fn spares_rax(c: Code, k: int) -> bool {
    match c.kind(k) {
        LineKind::Nop => true,
        LineKind::StoreRbp { .. } => true,
        LineKind::Other { dest_reg } => dest_reg != 0 && !helpers::writes_rax(c.body(k)),
        LineKind::LoadRbp { reg, .. } => reg != 0,
        _ => false,
    }
}

/// The first line from `j` on, and before `end`, that may write `%rax`.
pub open spec fn past_spares(c: Code, j: int, end: int) -> int
    decreases end - j,
{
    if j < end && spares_rax(c, j) {
        past_spares(c, j + 1, end)
    } else {
        j
    }
}

/// Is the extension `next` without effect on what `prev` leaves in `%rax`?
pub open spec fn extended_already(prev: ExtKind, next: ExtKind) -> bool {
    match next {
        ExtKind::MovzbqAlRax => prev is ProducerMovzbqToRax || prev is MovzbqAlRax,
        ExtKind::MovzwqAxRax => prev is ProducerMovzwqToRax || prev is MovzwqAxRax,
        ExtKind::MovsbqAlRax => prev is ProducerMovsbqToRax || prev is MovsbqAlRax,
        ExtKind::MovslqEaxRax => prev is ProducerMovslqToRax || prev is MovslqEaxRax,
        // What is extended from fewer than 32 bits is its own sign extension.
        ExtKind::Cltq => prev is ProducerMovslqToRax || prev is ProducerMovqConstRax
            || prev is MovslqEaxRax || prev is Cltq || prev is ProducerMovzbToEax
            || prev is ProducerMovzwToEax || prev is ProducerMovzbqToRax
            || prev is ProducerMovzwqToRax || prev is MovzbqAlRax || prev is MovzwqAxRax
            || prev is ProducerMovsbqToRax,
        ExtKind::MovlEaxEax => prev is ProducerArith32 || prev is ProducerMovlToEax
            || prev is ProducerMovzbToEax || prev is ProducerMovzbqToRax
            || prev is ProducerMovzwToEax || prev is ProducerMovzwqToRax || prev is ProducerDiv32
            || prev is MovlEaxEax,
        _ => false,
    }
}

/// Does this leave a sign-extended value in `%rax`?
pub open spec fn sign_extends(ext: ExtKind) -> bool {
    ext is ProducerMovslqToRax || ext is ProducerMovqConstRax || ext is MovslqEaxRax || ext is Cltq
}

/// May line `k`, at which the extension was looked for, write `%rax`?
pub open spec fn may_write_rax(c: Code, k: int) -> bool {
    match c.kind(k) {
        LineKind::Other { dest_reg } => dest_reg == 0 || helpers::writes_rax(c.body(k)),
        LineKind::LoadRbp { reg, .. } => reg == 0,
        LineKind::StoreRbp { .. } => false,
        LineKind::Nop => false,
        LineKind::Empty => false,
        _ => true,
    }
}

/// Going back from line `k` to line `end`, a sign-extended value is left in
/// `%rax` before anything else writes it.
pub open spec fn extended_before(c: Code, k: int, end: int) -> bool
    decreases k + 1 - end,
{
    if k < end || k < 0 {
        false
    } else if c.nop(k) || c.kind(k) is StoreRbp {
        extended_before(c, k - 1, end)
    } else if c.infos[k].barrier() {
        false
    } else if sign_extends(c.infos[k].ext_kind) {
        true
    } else {
        match c.kind(k) {
            LineKind::Other { dest_reg } => dest_reg != 0 && !helpers::writes_rax(c.body(k))
                && extended_before(c, k - 1, end),
            LineKind::LoadRbp { reg, .. } => reg != 0 && extended_before(c, k - 1, end),
            _ => false,
        }
    }
}

/// The extension after line `i` that has no effect.
pub open spec fn redundant_ext(c: Code, i: int) -> Option<int> {
    let j = past_spares(c, i + 1, least(i + 10, c.len()));
    if j < c.len() && !c.nop(j) && (extended_already(c.infos[i].ext_kind, c.infos[j].ext_kind) || (
    c.infos[j].ext_kind is Cltq && !may_write_rax(c, i) && extended_before(
        c,
        i - 1,
        i - 6,
    ))) {
        Some(j)
    } else {
        None
    }
}

fn leaves_rax(store: &LineStore, infos: &[LineInfo], k: usize) -> (r: bool)
    requires
        types::code(*store, infos@).wf(),
        k < infos@.len(),
    ensures
        r == spares_rax(types::code(*store, infos@), k as int),
{
    match infos[k].kind {
        LineKind::Nop => true,
        LineKind::StoreRbp { .. } => true,
        LineKind::Other { dest_reg } => dest_reg != 0 && !also_writes_rax(
            body_of(store, infos, k),
        ),
        LineKind::LoadRbp { reg, .. } => reg != 0,
        _ => false,
    }
}

fn is_extended_already(prev: ExtKind, next: ExtKind) -> (r: bool)
    ensures
        r == extended_already(prev, next),
{
    match next {
        ExtKind::MovzbqAlRax => matches!(
            prev,
            ExtKind::ProducerMovzbqToRax | ExtKind::MovzbqAlRax
        ),
        ExtKind::MovzwqAxRax => matches!(
            prev,
            ExtKind::ProducerMovzwqToRax | ExtKind::MovzwqAxRax
        ),
        ExtKind::MovsbqAlRax => matches!(
            prev,
            ExtKind::ProducerMovsbqToRax | ExtKind::MovsbqAlRax
        ),
        ExtKind::MovslqEaxRax => matches!(
            prev,
            ExtKind::ProducerMovslqToRax | ExtKind::MovslqEaxRax
        ),
        ExtKind::Cltq => matches!(
            prev,
            ExtKind::ProducerMovslqToRax | ExtKind::ProducerMovqConstRax | ExtKind::MovslqEaxRax
            | ExtKind::Cltq | ExtKind::ProducerMovzbToEax | ExtKind::ProducerMovzwToEax
            | ExtKind::ProducerMovzbqToRax | ExtKind::ProducerMovzwqToRax | ExtKind::MovzbqAlRax
            | ExtKind::MovzwqAxRax | ExtKind::ProducerMovsbqToRax
        ),
        ExtKind::MovlEaxEax => matches!(
            prev,
            ExtKind::ProducerArith32 | ExtKind::ProducerMovlToEax | ExtKind::ProducerMovzbToEax
            | ExtKind::ProducerMovzbqToRax | ExtKind::ProducerMovzwToEax
            | ExtKind::ProducerMovzwqToRax | ExtKind::ProducerDiv32 | ExtKind::MovlEaxEax
        ),
        _ => false,
    }
}

fn could_write_rax(store: &LineStore, infos: &[LineInfo], k: usize) -> (r: bool)
    requires
        types::code(*store, infos@).wf(),
        k < infos@.len(),
    ensures
        r == may_write_rax(types::code(*store, infos@), k as int),
{
    match infos[k].kind {
        LineKind::Other { dest_reg } => dest_reg == 0 || also_writes_rax(
            body_of(store, infos, k),
        ),
        LineKind::LoadRbp { reg, .. } => reg == 0,
        LineKind::StoreRbp { .. } => false,
        LineKind::Nop => false,
        LineKind::Empty => false,
        _ => true,
    }
}

fn was_extended_before(store: &LineStore, infos: &[LineInfo], i: usize) -> (r: bool)
    requires
        types::code(*store, infos@).wf(),
        i < infos@.len(),
    ensures
        r == extended_before(types::code(*store, infos@), i - 1, i - 6),
{
    let ghost c = types::code(*store, infos@);
    let limit: usize = if i > 6 {
        i - 6
    } else {
        0
    };
    let mut k: usize = i;
    while k > limit
        invariant
            c == types::code(*store, infos@),
            c.wf(),
            limit <= k <= i < infos@.len(),
            limit == i - 6 || (limit == 0 && i <= 6),
            extended_before(c, i - 1, i - 6) == extended_before(c, k - 1, i - 6),
        decreases k,
    {
        let info = infos[k - 1];
        assert(c.infos[k - 1] == info);
        if info.is_nop() || matches!(info.kind, LineKind::StoreRbp { .. }) {
            k -= 1;
            continue;
        }
        if info.is_barrier() {
            return false;
        }
        if matches!(
            info.ext_kind,
            ExtKind::ProducerMovslqToRax | ExtKind::ProducerMovqConstRax | ExtKind::MovslqEaxRax
            | ExtKind::Cltq
        ) {
            return true;
        }
        let writes = match info.kind {
            LineKind::Other { dest_reg } => dest_reg == 0 || also_writes_rax(
                body_of(store, infos, k - 1),
            ),
            LineKind::LoadRbp { reg, .. } => reg == 0,
            _ => true,
        };
        if writes {
            return false;
        }
        k -= 1;
    }
    false
}

fn find_redundant_ext(store: &LineStore, infos: &[LineInfo], i: usize) -> (r: Option<usize>)
    requires
        types::code(*store, infos@).wf(),
        i < infos@.len(),
    ensures
        match r {
            Some(j) => redundant_ext(types::code(*store, infos@), i as int) == Some(j as int) && i
                < j < infos@.len(),
            None => redundant_ext(types::code(*store, infos@), i as int) is None,
        },
{
    let ghost c = types::code(*store, infos@);
    let len = infos.len();
    let end: usize = if len - i > 10 {
        i + 10
    } else {
        len
    };
    let mut j: usize = i + 1;
    while j < end && leaves_rax(store, infos, j)
        invariant
            c == types::code(*store, infos@),
            c.wf(),
            i < j <= end <= infos@.len(),
            past_spares(c, i + 1, end as int) == past_spares(c, j as int, end as int),
        decreases end - j,
    {
        j += 1;
    }
    if j >= len || infos[j].is_nop() {
        return None;
    }
    let next = infos[j].ext_kind;
    if is_extended_already(infos[i].ext_kind, next) {
        return Some(j);
    }
    if matches!(next, ExtKind::Cltq) && !could_write_rax(store, infos, i) && was_extended_before(
        store,
        infos,
        i,
    ) {
        return Some(j);
    }
    None
}

// ── The sweep ───────────────────────────────────────────────────────────────

/// The lines after the first of the patterns that applies at line `i`.
pub open spec fn local_at(c: Code, i: int) -> Option<Code> {
    if c.kind(i) is SelfMove {
        Some(c.remove(i))
    } else if reverse_move(c, i) is Some {
        Some(c.remove(reverse_move(c, i)->0))
    } else if jumps_to_next(c, i) {
        Some(c.remove(i))
    } else if inversion(c, i) is Some {
        let (j, line) = inversion(c, i)->0;
        Some(c.put(i, line).remove(j))
    } else if reloads(c, i) {
        Some(c.remove(i + 1))
    } else if redundant_ext(c, i) is Some {
        Some(c.remove(redundant_ext(c, i)->0))
    } else {
        None
    }
}

/// The lines after the sweep from line `i` on, and whether a pattern applied.
/// `zero` says whether `%rax` is known to be zero before line `i`.
pub open spec fn local_sweep(c: Code, i: int, zero: bool) -> (Code, bool)
    decreases sweep::to_go(c, i),
{
    if i < 0 || i >= c.len() {
        (c, false)
    } else if c.nop(i) {
        local_sweep(c, i + 1, zero)
    } else if zero && zeroes_rax(c, i) {
        (local_sweep(c.remove(i), i + 1, zero).0, true)
    } else {
        match local_at(c, i) {
            Some(d) => if d.len() == c.len() {
                (local_sweep(d, i + 1, zero_after(c, i, zero)).0, true)
            } else {
                (c, false)
            },
            None => local_sweep(c, i + 1, zero_after(c, i, zero)),
        }
    }
}

fn local_step(store: &mut LineStore, infos: &mut [LineInfo], i: usize) -> (applied: bool)
    requires
        types::code(*old(store), old(infos)@).wf(),
        i < old(infos)@.len(),
    ensures
        types::code(*final(store), final(infos)@).wf(),
        final(infos)@.len() == old(infos)@.len(),
        local_at(types::code(*old(store), old(infos)@), i as int) == if applied {
            Some(types::code(*final(store), final(infos)@))
        } else {
            None
        },
        !applied ==> types::code(*final(store), final(infos)@) == types::code(
            *old(store),
            old(infos)@,
        ),
{
    if matches!(infos[i].kind, LineKind::SelfMove) {
        mark_nop(&mut infos[i]);
        return true;
    }
    if let Some(j) = find_reverse_move(store, infos, i) {
        mark_nop(&mut infos[j]);
        return true;
    }
    if is_jump_to_next(store, infos, i) {
        mark_nop(&mut infos[i]);
        return true;
    }
    if let Some((j, line)) = find_inversion(store, infos, i) {
        replace_line(store, &mut infos[i], i, line);
        mark_nop(&mut infos[j]);
        return true;
    }
    if is_reload(store, infos, i) {
        mark_nop(&mut infos[i + 1]);
        return true;
    }
    if let Some(j) = find_redundant_ext(store, infos, i) {
        mark_nop(&mut infos[j]);
        return true;
    }
    false
}

/// Tries the local patterns at each line in turn.
pub fn combined_local_pass(store: &mut LineStore, infos: &mut [LineInfo]) -> (changed: bool)
    requires
        types::code(*old(store), old(infos)@).wf(),
    ensures
        (types::code(*final(store), final(infos)@), changed) == local_sweep(
            types::code(*old(store), old(infos)@),
            0,
            false,
        ),
        types::code(*final(store), final(infos)@).wf(),
{
    let ghost c0 = types::code(*store, infos@);
    let len = infos.len();
    let mut changed = false;
    let mut zero = false;
    let mut i: usize = 0;
    while i < len
        invariant
            i <= len == infos@.len(),
            types::code(*store, infos@).wf(),
            local_sweep(c0, 0, false) == (
                local_sweep(types::code(*store, infos@), i as int, zero).0,
                changed || local_sweep(types::code(*store, infos@), i as int, zero).1,
            ),
        decreases len - i,
    {
        if infos[i].is_nop() {
            i += 1;
            continue;
        }
        if zero && is_rax_zeroing(store, infos, i) {
            mark_nop(&mut infos[i]);
            changed = true;
            i += 1;
            continue;
        }
        zero = track_zero(store, infos, i, zero);
        if local_step(store, infos, i) {
            changed = true;
        }
        i += 1;
    }
    changed
}

} // verus!
