//! What operands hold and take, and that the moves that are fused with an extension or go
//! straight from `%xmm0` to their destination do what the lines they stand for do.

use vstd::prelude::*;

use super::equivalence;
use super::helpers;
use super::local_patterns;
use super::machine;
use super::machine::{Processor, State};
use super::paths;
use super::sweep;
use super::text;
use super::types;
use super::types::{Code, ExtKind, RegId};
use super::values;

verus! {

/// How operands are read and written.
pub struct Operands {
    /// The 64 bits that stand at an operand. A narrower read takes the lowest of them.
    pub read: spec_fn(Seq<char>, State) -> u64,
    /// The state with a value of 64 bits, or of 32, put where an operand says.
    pub write: spec_fn(Seq<char>, bool, u64, State) -> State,
    /// The low half of `%xmm0`, which is none of the general-purpose registers.
    pub xmm: spec_fn(int) -> u64,
}

/// The fused instruction for an extension and an operand.
pub open spec fn fused_text(ext: ExtKind, src: Seq<char>) -> Seq<char> {
    local_patterns::fused_head(ext).skip(4) + src + local_patterns::fused_tail(ext)
}

/// The move of `%xmm0` to an operand.
pub open spec fn xmm_text(dest: Seq<char>, wide: bool) -> Seq<char> {
    local_patterns::xmm_move(dest, wide).skip(4)
}

/// A processor that reads operands so: of a register what it holds, and with an extension
/// what that makes of the operand.
#[verifier::opaque]
pub open spec fn reads(p: Processor, o: Operands) -> bool {
    &&& forall|size: usize, reg: RegId, st: State|
        reg < 16 && size < 4 && st.wf() ==> #[trigger] (o.read)(types::reg_text(size, reg), st)
            == st.regs[reg as int]
    &&& forall|s: Seq<char>, st: State|
        #![trigger p.run(s, st)]
        st.wf() ==> (types::ext_of(s) is ProducerMovqMemToRax ==> (local_patterns::memory_source(
            s,
        ) matches Some(src) ==> p.run(s, st) == st.with(0, (o.read)(src, st)))) && (types::ext_of(
            s,
        ) is ProducerMovqRegToRax ==> (local_patterns::register_source(s) matches Some(reg) ==> reg
            < 16 ==> p.run(s, st) == st.with(0, st.regs[reg as int])))
    &&& forall|ext: ExtKind, src: Seq<char>, st: State|
        st.wf() && local_patterns::fusable(ext) ==> #[trigger] p.run(fused_text(ext, src), st)
            == st.with(0, values::extended(ext, (o.read)(src, st)))
}

/// A processor that moves `%xmm0`, `%rax` and their low halves so. An operand that does not
/// name `%rax` has nothing to do with it.
#[verifier::opaque]
pub open spec fn transfers(p: Processor, o: Operands) -> bool {
    &&& forall|dest: Seq<char>, wide: bool, v: u64, u: u64, st: State|
        #![trigger (o.write)(dest, wide, v, st.with(0, u))]
        st.wf() && !helpers::names_family(dest, 0) ==> (o.write)(dest, wide, v, st.with(0, u)) == (
        o.write)(dest, wide, v, st).with(0, u)
    &&& forall|st: State|
        st.wf() ==> #[trigger] p.run("movq %xmm0, %rax"@, st) == st.with(0, (o.xmm)(st.rest))
    &&& forall|st: State|
        st.wf() ==> #[trigger] p.run("movd %xmm0, %eax"@, st) == st.with(
            0,
            values::low32((o.xmm)(st.rest)),
        )
    &&& forall|s: Seq<char>, st: State|
        #![trigger p.run(s, st)]
        st.wf() ==> (text::after(s, "movq %rax, "@) matches Some(d) ==> p.run(s, st) == (o.write)(
            text::trim(d),
            true,
            st.regs[0],
            st,
        )) && (text::after(s, "movl %eax, "@) matches Some(d) ==> p.run(s, st) == (o.write)(
            text::trim(d),
            false,
            values::low32(st.regs[0]),
            st,
        ))
    &&& forall|dest: Seq<char>, wide: bool, st: State|
        st.wf() ==> #[trigger] p.run(xmm_text(dest, wide), st) == (o.write)(
            dest,
            wide,
            if wide {
                (o.xmm)(st.rest)
            } else {
                values::low32((o.xmm)(st.rest))
            },
            st,
        )
}

proof fn lemma_fused_indent(ext: ExtKind, src: Seq<char>)
    ensures
        local_patterns::fused_head(ext) + src + local_patterns::fused_tail(ext) == "    "@
            + fused_text(ext, src),
{
    reveal_strlit("    ");
    reveal_strlit("    movl ");
    reveal_strlit("    movzbl ");
    reveal_strlit("    movzwl ");
    reveal_strlit("    movsbq ");
    reveal_strlit("    movslq ");
    assert(local_patterns::fused_head(ext) =~= "    "@ + local_patterns::fused_head(ext).skip(4));
    assert(local_patterns::fused_head(ext) + src + local_patterns::fused_tail(ext) =~= "    "@
        + fused_text(ext, src));
}

proof fn lemma_xmm_indent(dest: Seq<char>, wide: bool)
    ensures
        local_patterns::xmm_move(dest, wide) == "    "@ + xmm_text(dest, wide),
{
    reveal_strlit("    ");
    reveal_strlit("    movd %xmm0, ");
    reveal_strlit("    movsd %xmm0, ");
    reveal_strlit("    movq %xmm0, ");
    assert(local_patterns::xmm_move(dest, wide) =~= "    "@ + xmm_text(dest, wide));
}

/// What is known of the part of line `m` in extensions comes from its text. A line that was
/// removed plays none.
pub open spec fn told(c: Code, m: int) -> bool {
    c.infos[m].ext_kind == if c.nop(m) {
        ExtKind::Plain
    } else {
        types::ext_of(c.body(m))
    }
}

/// The fused instruction leaves the state that the move and the extension leave.
pub proof fn law_fused_extension_keeps_state(
    p: Processor,
    o: Operands,
    c: Code,
    i: int,
    st: State,
)
    requires
        values::computes(p),
        reads(p, o),
        0 <= i < c.len(),
        told(c, i),
        told(c, c.live_from(i + 1)),
        local_patterns::fuse_ext_at(c, i) is Some,
        st.wf(),
    ensures
        ({
            let j = c.live_from(i + 1);
            let ext = c.infos[j].ext_kind;
            let line = fused_text(ext, local_patterns::fused_source(c, i, ext)->0);
            &&& local_patterns::fuse_ext_at(c, i) == Some(
                (c.put(i, "    "@ + line).remove(j), j + 1),
            )
            &&& p.run(line, st) == machine::after_code(p, c, i, j + 1, st)
        }),
{
    let j = c.live_from(i + 1);
    let ext = c.infos[j].ext_kind;
    let src = local_patterns::fused_source(c, i, ext)->0;
    let line = fused_text(ext, src);
    lemma_fused_indent(ext, src);
    machine::lemma_two_lines(p, c, i, st);
    let v = (o.read)(src, st);
    let mid = p.run(c.body(i), st);
    assert(mid == st.with(0, v) && p.run(line, st) == st.with(0, values::extended(ext, v))) by {
        reveal(reads);
        if c.infos[i].ext_kind is ProducerMovqRegToRax {
            let reg = local_patterns::register_source(c.body(i))->0;
            let rest = text::after(c.body(i), "movq "@)->0;
            types::lemma_family_range(text::trim(text::split(rest, ","@)->Some_0.0));
            assert(src == types::reg_text(local_patterns::fused_size(ext), reg));
        }
    }
    values::lemma_left(p, c.body(j), mid);
    assert(mid.with(0, values::extended(ext, v)) =~= st.with(0, values::extended(ext, v)));
}

/// The same lines from `k` up to `end`.
spec fn same_lines(c: Code, d: Code, k: int, end: int) -> bool {
    forall|m: int|
        k <= m < end ==> #[trigger] d.infos[m] == c.infos[m] && d.texts[m] == c.texts[m]
}

proof fn lemma_same_code(p: Processor, c: Code, d: Code, k: int, end: int, st: State)
    requires
        same_lines(c, d, k, end),
    ensures
        machine::after_code(p, d, k, end, st) == machine::after_code(p, c, k, end, st),
    decreases end - k,
{
    if k < end {
        assert(d.infos[k] == c.infos[k]);
        assert forall|m: int| k + 1 <= m < end implies #[trigger] d.infos[m] == c.infos[m]
            && d.texts[m] == c.texts[m] by {}
        if c.nop(k) {
            lemma_same_code(p, c, d, k + 1, end, st);
        } else {
            lemma_same_code(p, c, d, k + 1, end, p.run(c.body(k), st));
        }
    }
}

/// The lines after a fusion, up to where the sweep goes on, leave the state that they left.
proof fn lemma_fused_lines(p: Processor, o: Operands, c: Code, i: int, st: State)
    requires
        values::computes(p),
        reads(p, o),
        c.texts.len() == c.infos.len(),
        0 <= i < c.len(),
        told(c, i),
        told(c, c.live_from(i + 1)),
        local_patterns::fuse_ext_at(c, i) is Some,
        st.wf(),
    ensures
        ({
            let (d, next) = local_patterns::fuse_ext_at(c, i)->0;
            &&& i < next <= c.len()
            &&& d.texts.len() == c.texts.len()
            &&& d.infos.len() == c.infos.len()
            &&& same_lines(c, d, 0, i)
            &&& same_lines(c, d, next, c.len())
            &&& machine::after_code(p, d, i, next, st) == machine::after_code(p, c, i, next, st)
            &&& machine::after_code(p, c, i, next, st).wf()
        }),
{
    let j = c.live_from(i + 1);
    let ext = c.infos[j].ext_kind;
    let line = fused_text(ext, local_patterns::fused_source(c, i, ext)->0);
    let (d, next) = local_patterns::fuse_ext_at(c, i)->0;
    law_fused_extension_keeps_state(p, o, c, i, st);
    machine::lemma_two_lines(p, c, i, st);
    assert(line.len() > 0 && line[0] == 'm') by {
        reveal_strlit("    movl ");
        reveal_strlit("    movzbl ");
        reveal_strlit("    movzwl ");
        reveal_strlit("    movsbq ");
        reveal_strlit("    movslq ");
        assert(local_patterns::fused_head(ext)[4] == 'm');
    }
    equivalence::lemma_put_body(c, i, line);
    types::lemma_classified("    "@ + line);
    assert(!d.nop(i) && d.body(i) == line);
    assert forall|m: int| i + 1 <= m < next implies #[trigger] d.nop(m) by {
        if m < j {
            machine::lemma_up_to_live(c, i + 1, m);
        }
    }
    let after = p.run(line, st);
    machine::lemma_after_removed(p, d, i + 1, next, after);
    assert(after.wf()) by {
        values::lemma_wf(p, line, st);
    }
}

proof fn lemma_fused_sweep(p: Processor, o: Operands, c: Code, i: int, st: State)
    requires
        values::computes(p),
        reads(p, o),
        c.texts.len() == c.infos.len(),
        0 <= i,
        forall|m: int| i <= m < c.len() ==> #[trigger] told(c, m),
        st.wf(),
    ensures
        ({
            let e = sweep::sweep(local_patterns::fuse_ext_rule(), c, i, 1).0;
            &&& e.texts.len() == c.texts.len()
            &&& e.infos.len() == c.infos.len()
            &&& same_lines(c, e, 0, i)
            &&& machine::after_code(p, e, i, c.len(), st) == machine::after_code(
                p,
                c,
                i,
                c.len(),
                st,
            )
        }),
    decreases sweep::to_go(c, i),
{
    let rule = local_patterns::fuse_ext_rule();
    let e = sweep::sweep(rule, c, i, 1).0;
    let end = c.len();
    if i + 1 < end {
        assert(rule(c, i) == local_patterns::fuse_ext_at(c, i));
        assert(told(c, i));
        match local_patterns::fuse_ext_at(c, i) {
            Some((d, next)) => {
                assert(told(c, c.live_from(i + 1))) by {
                    machine::lemma_live_bound(c, i + 1);
                }
                lemma_fused_lines(p, o, c, i, st);
                let mid = machine::after_code(p, c, i, next, st);
                assert forall|m: int| next <= m < d.len() implies #[trigger] told(d, m) by {
                    assert(d.infos[m] == c.infos[m]);
                    assert(told(c, m));
                }
                lemma_fused_sweep(p, o, d, next, mid);
                assert(same_lines(d, e, i, next));
                lemma_same_code(p, d, e, i, next, st);
                lemma_same_code(p, c, d, next, end, mid);
                machine::lemma_after_split(p, c, i, next, end, st);
                machine::lemma_after_split(p, e, i, next, end, st);
                assert forall|m: int| 0 <= m < i implies #[trigger] e.infos[m] == c.infos[m]
                    && e.texts[m] == c.texts[m] by {
                    assert(d.infos[m] == c.infos[m]);
                }
            },
            None => {
                let next = if c.nop(i) {
                    st
                } else {
                    p.run(c.body(i), st)
                };
                values::lemma_wf(p, c.body(i), st);
                lemma_fused_sweep(p, o, c, i + 1, next);
                assert(e.infos[i] == c.infos[i]);
            },
        }
    }
}

/// Run one after the other, all the lines after the fusions leave the state that the lines
/// before them leave.
pub proof fn law_fused_extensions_keep_state(p: Processor, o: Operands, c: Code, st: State)
    requires
        values::computes(p),
        reads(p, o),
        c.faithful(),
        forall|m: int| 0 <= m < c.len() && #[trigger] c.nop(m) ==> c.infos[m].ext_kind is Plain,
        st.wf(),
    ensures
        ({
            let e = sweep::sweep(local_patterns::fuse_ext_rule(), c, 0, 1).0;
            machine::after_code(p, e, 0, e.len(), st) == machine::after_code(p, c, 0, c.len(), st)
        }),
{
    assert forall|m: int| 0 <= m < c.len() implies #[trigger] told(c, m) by {
        if !c.nop(m) {
            types::lemma_faithful_line(c, m);
        }
    }
    lemma_fused_sweep(p, o, c, 0, st);
}

/// The move straight from `%xmm0` leaves the state that the two moves leave, but for
/// `%rax`, which is not read from there on.
pub proof fn law_direct_xmm_move_keeps_state(
    p: Processor,
    o: Operands,
    c: Code,
    i: int,
    st: State,
)
    requires
        machine::sensible(p),
        transfers(p, o),
        c.faithful(),
        0 <= i < c.len(),
        local_patterns::xmm_at(c, i) is Some,
        st.wf(),
    ensures
        ({
            let j = c.live_from(i + 1);
            let (dest, wide) = local_patterns::xmm_dest(c, i, j)->0;
            let line = xmm_text(dest, wide);
            &&& local_patterns::xmm_at(c, i) == Some((c.put(i, "    "@ + line).remove(j), j + 1))
            &&& machine::agree_but(
                p.run(line, st),
                machine::after_code(p, c, i, j + 1, st),
                0,
            )
            &&& paths::not_read_from(c, 0, j + 1, false)
        }),
{
    let j = c.live_from(i + 1);
    let (dest, wide) = local_patterns::xmm_dest(c, i, j)->0;
    let line = xmm_text(dest, wide);
    lemma_xmm_indent(dest, wide);
    machine::lemma_two_lines(p, c, i, st);
    machine::lemma_run_wf(p, line, st);
    paths::lemma_dead_is_not_read(c, None, 0, j + 1, 16, 0, false);
    let x = (o.xmm)(st.rest);
    let v = if wide {
        x
    } else {
        values::low32(x)
    };
    assert(values::low32(values::low32(x)) == values::low32(x)) by {
        assert((x & 0xFFFF_FFFF) & 0xFFFF_FFFF == x & 0xFFFF_FFFF) by (bit_vector);
    }
    let one = p.run(line, st);
    let mid = p.run(c.body(i), st);
    let two = p.run(c.body(j), mid);
    assert(mid == st.with(0, v) && two == one.with(0, v)) by {
        reveal(transfers);
        assert(mid == st.with(0, v));
        assert(one == (o.write)(dest, wide, v, st));
        assert(two == (o.write)(dest, wide, v, st.with(0, v)));
    }
}

} // verus!
