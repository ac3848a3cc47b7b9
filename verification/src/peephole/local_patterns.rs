//! Local patterns that fold two neighbouring instructions into one.

use vstd::prelude::*;

use super::helpers;
use super::helpers::{body_of, mentions_family, next_live};
use super::liveness;
use super::liveness::is_reg_dead_after;
use super::sweep;
use super::sweep::Rule;
use super::text;
use super::text::{contains, rsplit_once, same, split_once, strip_prefix, trim_text};
use super::types;
use super::types::{
    mark_nop, reg_name, register_family_fast, replace_line, Code, ExtKind, LineInfo, LineStore,
    RegId, REG_NONE,
};

verus! {

// ── Movq + extension/truncation fusion ──────────────────────────────────────
//
// Fuses `movq SRC, %rax` followed by an extension or truncation of `%rax` into
// one instruction:
//   movq %REG, %rax + movl %eax, %eax   -> movl %REGd, %eax
//   movq %REG, %rax + movslq %eax, %rax -> movslq %REGd, %rax
//   movq %REG, %rax + cltq              -> movslq %REGd, %rax
//   movq %REG, %rax + movzbq %al, %rax  -> movzbl %REGb, %eax
//   movq %REG, %rax + movzwq %ax, %rax  -> movzwl %REGw, %eax
//   movq %REG, %rax + movsbq %al, %rax  -> movsbq %REGb, %rax
// A memory source takes the place of the register as it is.

/// Is this an extension or truncation that can be fused with a move?
pub open spec fn fusable(ext: ExtKind) -> bool {
    ext is MovlEaxEax || ext is MovslqEaxRax || ext is Cltq || ext is MovzbqAlRax
        || ext is MovzwqAxRax || ext is MovsbqAlRax
}

/// The fused instruction up to its source.
pub open spec fn fused_head(ext: ExtKind) -> Seq<char> {
    match ext {
        ExtKind::MovlEaxEax => "    movl "@,
        ExtKind::MovzbqAlRax => "    movzbl "@,
        ExtKind::MovzwqAxRax => "    movzwl "@,
        ExtKind::MovsbqAlRax => "    movsbq "@,
        _ => "    movslq "@,
    }
}

/// The fused instruction from its source on.
pub open spec fn fused_tail(ext: ExtKind) -> Seq<char> {
    if ext is MovlEaxEax || ext is MovzbqAlRax || ext is MovzwqAxRax {
        ", %eax"@
    } else {
        ", %rax"@
    }
}

/// The size of the source register that an extension reads.
pub open spec fn fused_size(ext: ExtKind) -> usize {
    if ext is MovzbqAlRax || ext is MovsbqAlRax {
        3
    } else if ext is MovzwqAxRax {
        2
    } else {
        1
    }
}

/// The memory operand of `movq MEM, %rax`.
pub open spec fn memory_source(s: Seq<char>) -> Option<Seq<char>> {
    match text::after(s, "movq "@) {
        Some(rest) => match text::rsplit(rest, ", %rax"@) {
            Some((src, _)) => Some(text::trim(src)),
            None => None,
        },
        None => None,
    }
}

/// The source register of `movq %REG, %rax`.
pub open spec fn register_source(s: Seq<char>) -> Option<RegId> {
    match text::after(s, "movq "@) {
        Some(rest) => match text::split(rest, ","@) {
            Some((src, _)) => {
                let fam = types::family(text::trim(src));
                if fam != REG_NONE && fam != 0 {
                    Some(fam)
                } else {
                    None
                }
            },
            None => None,
        },
        None => None,
    }
}

/// The operand that takes the place of `%rax` in the fused instruction.
pub open spec fn fused_source(c: Code, i: int, ext: ExtKind) -> Option<Seq<char>> {
    if c.infos[i].ext_kind is ProducerMovqMemToRax {
        memory_source(c.body(i))
    } else if c.infos[i].ext_kind is ProducerMovqRegToRax {
        match register_source(c.body(i)) {
            Some(fam) => Some(types::reg_text(fused_size(ext), fam)),
            None => None,
        }
    } else {
        None
    }
}

/// A move to `%rax` and the extension or truncation after it become one.
pub open spec fn fuse_ext_at(c: Code, i: int) -> Option<(Code, int)> {
    let j = c.live_from(i + 1);
    if j < c.len() && fusable(c.infos[j].ext_kind) {
        let ext = c.infos[j].ext_kind;
        match fused_source(c, i, ext) {
            Some(src) => Some(
                (c.put(i, fused_head(ext) + src + fused_tail(ext)).remove(j), j + 1),
            ),
            None => None,
        }
    } else {
        None
    }
}

pub open spec fn fuse_ext_rule() -> Rule {
    |c: Code, i: int| fuse_ext_at(c, i)
}

fn is_fusable(ext: ExtKind) -> (r: bool)
    ensures
        r == fusable(ext),
{
    matches!(
        ext,
        ExtKind::MovlEaxEax | ExtKind::MovslqEaxRax | ExtKind::Cltq | ExtKind::MovzbqAlRax
        | ExtKind::MovzwqAxRax | ExtKind::MovsbqAlRax
    )
}

fn fused_line(ext: ExtKind, src: &str) -> (r: String)
    ensures
        r@ == fused_head(ext) + src@ + fused_tail(ext),
{
    let mut line = match ext {
        ExtKind::MovlEaxEax => "    movl ".to_owned(),
        ExtKind::MovzbqAlRax => "    movzbl ".to_owned(),
        ExtKind::MovzwqAxRax => "    movzwl ".to_owned(),
        ExtKind::MovsbqAlRax => "    movsbq ".to_owned(),
        _ => "    movslq ".to_owned(),
    };
    line.append(src);
    if matches!(ext, ExtKind::MovlEaxEax | ExtKind::MovzbqAlRax | ExtKind::MovzwqAxRax) {
        line.append(", %eax");
    } else {
        line.append(", %rax");
    }
    line
}

fn parse_memory_source(s: &str) -> (r: Option<&str>)
    ensures
        text::piece(r) == memory_source(s@),
{
    match strip_prefix(s, "movq ") {
        Some(rest) => match rsplit_once(rest, ", %rax") {
            Some((src, _)) => Some(trim_text(src)),
            None => None,
        },
        None => None,
    }
}

fn parse_register_source(s: &str) -> (r: Option<RegId>)
    ensures
        r == register_source(s@),
        r matches Some(fam) ==> types::gp(fam),
{
    match strip_prefix(s, "movq ") {
        Some(rest) => match split_once(rest, ",") {
            Some((src, _)) => {
                let src = trim_text(src);
                let fam = register_family_fast(src);
                proof {
                    types::lemma_family_range(src@);
                }
                if fam != REG_NONE && fam != 0 {
                    Some(fam)
                } else {
                    None
                }
            },
            None => None,
        },
        None => None,
    }
}

/// The fused instruction for line `i` and the extension `ext` after it.
fn build_fused(store: &LineStore, infos: &[LineInfo], i: usize, ext: ExtKind) -> (r: Option<String>)
    requires
        types::code(*store, infos@).wf(),
        i < infos@.len(),
    ensures
        match r {
            Some(line) => fused_source(types::code(*store, infos@), i as int, ext) matches Some(src)
                && line@ == fused_head(ext) + src + fused_tail(ext),
            None => fused_source(types::code(*store, infos@), i as int, ext) is None,
        },
{
    let body = body_of(store, infos, i);
    match infos[i].ext_kind {
        ExtKind::ProducerMovqMemToRax => match parse_memory_source(body) {
            Some(src) => Some(fused_line(ext, src)),
            None => None,
        },
        ExtKind::ProducerMovqRegToRax => match parse_register_source(body) {
            Some(fam) => {
                let size: usize = match ext {
                    ExtKind::MovzbqAlRax | ExtKind::MovsbqAlRax => 3,
                    ExtKind::MovzwqAxRax => 2,
                    _ => 1,
                };
                Some(fused_line(ext, reg_name(size, fam)))
            },
            None => None,
        },
        _ => None,
    }
}

fn fuse_ext_step(store: &mut LineStore, infos: &mut [LineInfo], i: usize) -> (r: Option<usize>)
    requires
        types::code(*old(store), old(infos)@).wf(),
        i < old(infos)@.len(),
    ensures
        sweep::stepped(
            fuse_ext_at(types::code(*old(store), old(infos)@), i as int),
            types::code(*old(store), old(infos)@),
            types::code(*final(store), final(infos)@),
            i as int,
            r,
        ),
{
    let ghost c = types::code(*store, infos@);
    let j = next_live(infos, i + 1);
    assert(c.live_from(i + 1) == j);
    if j >= infos.len() || !is_fusable(infos[j].ext_kind) {
        return None;
    }
    match build_fused(store, infos, i, infos[j].ext_kind) {
        Some(line) => {
            replace_line(store, &mut infos[i], i, line);
            mark_nop(&mut infos[j]);
            Some(j + 1)
        },
        None => None,
    }
}

/// Fuses each move to `%rax` with the extension or truncation after it.
pub fn fuse_movq_ext_truncation(store: &mut LineStore, infos: &mut [LineInfo]) -> (changed: bool)
    requires
        types::code(*old(store), old(infos)@).wf(),
    ensures
        (types::code(*final(store), final(infos)@), changed) == sweep::sweep(
            fuse_ext_rule(),
            types::code(*old(store), old(infos)@),
            0,
            1,
        ),
        types::code(*final(store), final(infos)@).wf(),
{
    let ghost c0 = types::code(*store, infos@);
    let len = infos.len();
    let mut changed = false;
    let mut i: usize = 0;
    while i < len && len - i > 1
        invariant
            len == infos@.len(),
            sweep::under_way(
                fuse_ext_rule(),
                c0,
                types::code(*store, infos@),
                i as int,
                1,
                changed,
            ),
        decreases len - i,
    {
        match fuse_ext_step(store, infos, i) {
            Some(next) => {
                changed = true;
                i = next;
            },
            None => {
                i += 1;
            },
        }
    }
    changed
}

// ── XMM-through-accumulator folding ─────────────────────────────────────────
//
// Folds a move of `%xmm0` through the accumulator into one move, where the accumulator
// is dead afterwards:
//   movq %xmm0, %rax; movq %rax, %REG    =>  movq %xmm0, %REG
//   movq %xmm0, %rax; movq %rax, MEM     =>  movsd %xmm0, MEM
//   movd %xmm0, %eax; movl %eax, DEST    =>  movd %xmm0, DEST

/// Where line `j` moves what line `i` took out of `%xmm0`, and whether it is of 64 bits.
pub open spec fn xmm_dest(c: Code, i: int, j: int) -> Option<(Seq<char>, bool)> {
    if c.body(i) == "movq %xmm0, %rax"@ {
        match text::after(c.body(j), "movq %rax, "@) {
            Some(d) => Some((text::trim(d), true)),
            None => None,
        }
    } else if c.body(i) == "movd %xmm0, %eax"@ {
        match text::after(c.body(j), "movl %eax, "@) {
            Some(d) => Some((text::trim(d), false)),
            None => None,
        }
    } else {
        None
    }
}

/// The move of `%xmm0` to `dest`: of 64 bits to a register or to memory, or of 32 bits.
pub open spec fn xmm_move(dest: Seq<char>, wide: bool) -> Seq<char> {
    if !wide {
        "    movd %xmm0, "@ + dest
    } else if text::has(dest, "("@) {
        "    movsd %xmm0, "@ + dest
    } else {
        "    movq %xmm0, "@ + dest
    }
}

/// A move of `%xmm0` through `%rax` goes straight to its destination.
pub open spec fn xmm_at(c: Code, i: int) -> Option<(Code, int)> {
    let j = c.live_from(i + 1);
    if c.nop(i) || j >= c.len() {
        None
    } else {
        match xmm_dest(c, i, j) {
            Some((dest, wide)) => if !helpers::names_family(dest, 0) && liveness::dead_after(
                c,
                j + 1,
                0,
            ) {
                Some((c.put(i, xmm_move(dest, wide)).remove(j), j + 1))
            } else {
                None
            },
            None => None,
        }
    }
}

pub open spec fn xmm_rule() -> Rule {
    |c: Code, i: int| xmm_at(c, i)
}

fn find_xmm_dest(store: &LineStore, infos: &[LineInfo], i: usize, j: usize) -> (r: Option<
    (String, bool),
>)
    requires
        types::code(*store, infos@).wf(),
        i < infos@.len(),
        j < infos@.len(),
    ensures
        match r {
            Some((dest, wide)) => xmm_dest(types::code(*store, infos@), i as int, j as int) == Some(
                (dest@, wide),
            ),
            None => xmm_dest(types::code(*store, infos@), i as int, j as int) is None,
        },
{
    let from = body_of(store, infos, i);
    let to = body_of(store, infos, j);
    if same(from, "movq %xmm0, %rax") {
        match strip_prefix(to, "movq %rax, ") {
            Some(d) => Some((trim_text(d).to_owned(), true)),
            None => None,
        }
    } else if same(from, "movd %xmm0, %eax") {
        match strip_prefix(to, "movl %eax, ") {
            Some(d) => Some((trim_text(d).to_owned(), false)),
            None => None,
        }
    } else {
        None
    }
}

fn build_xmm_move(dest: &str, wide: bool) -> (r: String)
    ensures
        r@ == xmm_move(dest@, wide),
{
    let mut line = if !wide {
        "    movd %xmm0, ".to_owned()
    } else if contains(dest, "(") {
        "    movsd %xmm0, ".to_owned()
    } else {
        "    movq %xmm0, ".to_owned()
    };
    line.append(dest);
    line
}

fn xmm_step(store: &mut LineStore, infos: &mut [LineInfo], i: usize) -> (r: Option<usize>)
    requires
        types::code(*old(store), old(infos)@).wf(),
        i < old(infos)@.len(),
    ensures
        sweep::stepped(
            xmm_at(types::code(*old(store), old(infos)@), i as int),
            types::code(*old(store), old(infos)@),
            types::code(*final(store), final(infos)@),
            i as int,
            r,
        ),
{
    let ghost c = types::code(*store, infos@);
    if infos[i].is_nop() {
        return None;
    }
    let j = next_live(infos, i + 1);
    assert(c.live_from(i + 1) == j);
    if j >= infos.len() {
        return None;
    }
    match find_xmm_dest(store, infos, i, j) {
        Some((dest, wide)) => {
            if mentions_family(dest.as_str(), 0) || !is_reg_dead_after(infos, store, j + 1, 0) {
                return None;
            }
            let line = build_xmm_move(dest.as_str(), wide);
            replace_line(store, &mut infos[i], i, line);
            mark_nop(&mut infos[j]);
            Some(j + 1)
        },
        None => None,
    }
}

/// Folds each move of `%xmm0` through `%rax` into one move.
pub fn fold_xmm_through_accumulator(store: &mut LineStore, infos: &mut [LineInfo]) -> (changed: bool)
    requires
        types::code(*old(store), old(infos)@).wf(),
    ensures
        (types::code(*final(store), final(infos)@), changed) == sweep::sweep(
            xmm_rule(),
            types::code(*old(store), old(infos)@),
            0,
            1,
        ),
        types::code(*final(store), final(infos)@).wf(),
{
    let ghost c0 = types::code(*store, infos@);
    let len = infos.len();
    let mut changed = false;
    let mut i: usize = 0;
    while i < len && len - i > 1
        invariant
            len == infos@.len(),
            sweep::under_way(
                xmm_rule(),
                c0,
                types::code(*store, infos@),
                i as int,
                1,
                changed,
            ),
        decreases len - i,
    {
        match xmm_step(store, infos, i) {
            Some(next) => {
                changed = true;
                i = next;
            },
            None => {
                i += 1;
            },
        }
    }
    changed
}

} // verus!
