//! What the local patterns leave alone, line by line.

use vstd::prelude::*;

use super::combined;
use super::helpers;
use super::laws;
use super::sweep;
use super::text;
use super::types;
use super::types::{Code, ExtKind, LineKind};

verus! {

/// Lines of these kinds stay as they are in the local patterns: labels, directives,
/// calls, returns, compares and stores to the stack.
pub open spec fn lasting(k: LineKind) -> bool {
    k is Label || k is Directive || k is Call || k is Ret || k is Cmp || k is StoreRbp
}

/// What the local patterns may make of line `m` of `c`: what was removed and the
/// lasting lines stay, a text that is new stands where a conditional jump stood, and
/// any other line that is new was removed.
pub open spec fn kept_or_inverted(c: Code, d: Code, m: int) -> bool {
    let same = d.texts[m] == c.texts[m] && d.infos[m] == c.infos[m];
    &&& c.nop(m) || lasting(c.kind(m)) ==> same
    &&& d.texts[m] != c.texts[m] ==> c.kind(m) is CondJmp
    &&& same || d.nop(m) || c.kind(m) is CondJmp
}

/// The classification of the lines from `i` on tells the text.
spec fn told_from(c: Code, i: int) -> bool {
    forall|m: int|
        i <= m < c.len() && !c.nop(m) ==> {
            &&& #[trigger] c.kind(m) == types::kind_of(c.body(m))
            &&& c.infos[m].ext_kind == types::ext_of(c.body(m))
        }
}

proof fn lemma_trim_last(s: Seq<char>)
    requires
        s.len() > 0,
        !text::is_space(s.last()),
    ensures
        text::trim(s).len() > 0,
        text::trim(s).last() == s.last(),
    decreases s.len(),
{
    if text::is_space(s[0]) {
        lemma_trim_last(s.skip(1));
    }
}

proof fn lemma_rest_last(s: Seq<char>, sep: Seq<char>)
    requires
        s.len() > 0,
        !text::is_space(s.last()),
        s.last() != ')',
    ensures
        match text::split(s, sep) {
            Some((_, b)) => types::rbp_slot(text::trim(b)) is None,
            None => true,
        },
{
    reveal_strlit("(%rbp)");
    if text::split(s, sep) is Some {
        let b = text::split(s, sep)->Some_0.1;
        text::lemma_first_at(s, sep, 0);
        if b.len() > 0 {
            assert(b.last() == s.last());
            lemma_trim_last(b);
        }
        let t = text::trim(b);
        if "(%rbp)"@.is_suffix_of(t) {
            assert(t.last() == "(%rbp)"@[5]);
        }
    }
}

proof fn lemma_extension_is_not_lasting(s: Seq<char>)
    requires
        match types::ext_of(s) {
            ExtKind::MovzbqAlRax | ExtKind::MovzwqAxRax | ExtKind::MovsbqAlRax
            | ExtKind::MovslqEaxRax | ExtKind::MovlEaxEax | ExtKind::Cltq => true,
            _ => false,
        },
    ensures
        !lasting(types::kind_of(s)),
        !(types::kind_of(s) is CondJmp),
{
    reveal_strlit("movzbq %al, %rax");
    reveal_strlit("movzwq %ax, %rax");
    reveal_strlit("movsbq %al, %rax");
    reveal_strlit("movslq %eax, %rax");
    reveal_strlit("movl %eax, %eax");
    reveal_strlit("cltq");
    reveal_strlit(":");
    reveal_strlit(".");
    reveal_strlit("#");
    reveal_strlit("j");
    reveal_strlit("call");
    reveal_strlit("ret");
    reveal_strlit("retq");
    reveal_strlit("movl ");
    reveal_strlit("movq ");
    reveal_strlit("movw ");
    reveal_strlit("movb ");
    assert(s[0] == 'm' || s[0] == 'c');
    assert(s[1] == 'o' || s[1] == 'l');
    assert(s.last() == 'x' || s.last() == 'q');
    assert(!":"@.is_suffix_of(s)) by {
        if ":"@.is_suffix_of(s) {
            assert(s.subrange(s.len() - 1, s.len() as int)[0] == ':');
        }
    }
    assert("call"@[1] == 'a');
    assert(!types::is_compare(s)) by {
        reveal_strlit("cmpq ");
        reveal_strlit("cmpl ");
        reveal_strlit("cmpw ");
        reveal_strlit("cmpb ");
        reveal_strlit("testq ");
        reveal_strlit("testl ");
        reveal_strlit("testw ");
        reveal_strlit("testb ");
        reveal_strlit("ucomisd ");
        reveal_strlit("ucomiss ");
        assert("cmpq "@[1] == 'm' && "cmpl "@[1] == 'm' && "cmpw "@[1] == 'm' && "cmpb "@[1]
            == 'm');
        assert("testq "@[0] == 't' && "testl "@[0] == 't' && "testw "@[0] == 't' && "testb "@[0]
            == 't');
        assert("ucomisd "@[0] == 'u' && "ucomiss "@[0] == 'u');
    }
    assert("."@[0] == '.' && "#"@[0] == '#' && "j"@[0] == 'j');
    assert("movq "@[3] == 'q' && "movw "@[3] == 'w' && "movb "@[3] == 'b' && "movl "@[3] == 'l');
    assert(!"movq "@.is_prefix_of(s) && !"movw "@.is_prefix_of(s) && !"movb "@.is_prefix_of(s));
    if "movl "@.is_prefix_of(s) {
        assert(s.skip("movl "@.len() as int).last() == s.last());
        lemma_rest_last(s.skip("movl "@.len() as int), ", "@);
    }
    assert(!(types::move_kind(s) matches Some(k) && lasting(k)));
    assert(s != "ret"@ && s != "retq"@);
}

proof fn lemma_jump_is_no_move(rest: Seq<char>)
    ensures
        !(types::classified("    j"@ + rest).kind is SelfMove),
{
    let s = "    j"@ + rest;
    reveal_strlit("    j");
    reveal_strlit("j");
    reveal_with_fuel(types::blanks, 5);
    assert(s.skip(1).skip(1) =~= s.skip(2));
    assert(s.skip(2).skip(1) =~= s.skip(3));
    assert(s.skip(3).skip(1) =~= s.skip(4));
    assert(types::blanks(s) == 4);
    assert("j"@.is_prefix_of(s.skip(4)));
}

/// What one pattern at line `i` makes of the lines: those before it stay, those after
/// it stay or are removed.
spec fn stepped(c: Code, d: Code, i: int) -> bool {
    &&& d.texts.len() == c.texts.len()
    &&& d.infos.len() == c.infos.len()
    &&& forall|m: int|
        0 <= m < c.len() ==> #[trigger] kept_or_inverted(c, d, m) && (m != i ==> d.texts[m]
            == c.texts[m] && (d.infos[m] == c.infos[m] || (m > i && d.nop(m))))
    &&& !(d.kind(i) is SelfMove)
}

proof fn lemma_removed(c: Code, i: int, j: int)
    requires
        0 <= i <= j < c.len(),
        c.texts.len() == c.infos.len(),
        !c.nop(j),
        !lasting(c.kind(j)),
        i == j || !(c.kind(i) is SelfMove),
    ensures
        stepped(c, c.remove(j), i),
{
    let d = c.remove(j);
    assert forall|m: int| 0 <= m < c.len() implies #[trigger] kept_or_inverted(c, d, m) && (m != i
        ==> d.texts[m] == c.texts[m] && (d.infos[m] == c.infos[m] || (m > i && d.nop(m)))) by {}
}

proof fn lemma_inverted(c: Code, i: int, j: int, rest: Seq<char>)
    requires
        0 <= i < j < c.len(),
        c.texts.len() == c.infos.len(),
        c.kind(i) is CondJmp,
        c.kind(j) is Jmp,
    ensures
        stepped(c, c.put(i, "    j"@ + rest).remove(j), i),
{
    let d = c.put(i, "    j"@ + rest).remove(j);
    lemma_jump_is_no_move(rest);
    assert forall|m: int| 0 <= m < c.len() implies #[trigger] kept_or_inverted(c, d, m) && (m != i
        ==> d.texts[m] == c.texts[m] && (d.infos[m] == c.infos[m] || (m > i && d.nop(m)))) by {}
}

proof fn lemma_step(c: Code, i: int)
    requires
        c.texts.len() == c.infos.len(),
        0 <= i < c.len(),
        !c.nop(i),
        told_from(c, i + 1),
    ensures
        match combined::local_at(c, i) {
            Some(d) => stepped(c, d, i),
            None => !(c.kind(i) is SelfMove),
        },
{
    laws::lemma_past_stores(c, i + 1, combined::least(i + 8, c.len()));
    laws::lemma_past_spares(c, i + 1, combined::least(i + 10, c.len()));
    laws::lemma_live_from(c, i + 1);
    if c.kind(i) is SelfMove {
        lemma_removed(c, i, i);
    } else if combined::reverse_move(c, i) is Some {
        lemma_removed(c, i, combined::reverse_move(c, i)->0);
    } else if combined::jumps_to_next(c, i) {
        lemma_removed(c, i, i);
    } else if combined::inversion(c, i) is Some {
        let (j, line) = combined::inversion(c, i)->0;
        let (cc, _) = combined::cond_jump(c, i)->0;
        let t = combined::jmp_target(c, j)->0;
        let rest = helpers::inverted(cc) + " "@ + t;
        assert(line =~= "    j"@ + rest);
        lemma_inverted(c, i, j, rest);
    } else if combined::reloads(c, i) {
        lemma_removed(c, i, i + 1);
    } else if combined::redundant_ext(c, i) is Some {
        let j = combined::redundant_ext(c, i)->0;
        assert(c.kind(j) == types::kind_of(c.body(j)));
        lemma_extension_is_not_lasting(c.body(j));
        lemma_removed(c, i, j);
    }
}

/// What the sweep from line `i` on makes of the lines.
spec fn swept(c: Code, e: Code, i: int) -> bool {
    &&& e.texts.len() == c.texts.len()
    &&& e.infos.len() == c.infos.len()
    &&& forall|m: int|
        0 <= m < c.len() ==> #[trigger] kept_or_inverted(c, e, m) && (m < i ==> e.texts[m]
            == c.texts[m] && e.infos[m] == c.infos[m]) && (m >= i ==> !(e.kind(m) is SelfMove))
}

proof fn lemma_told_still(c: Code, d: Code, i: int)
    requires
        told_from(c, i),
        stepped(c, d, i),
        0 <= i,
    ensures
        told_from(d, i + 1),
{
    assert forall|m: int| i + 1 <= m < d.len() && !d.nop(m) implies {
        &&& #[trigger] d.kind(m) == types::kind_of(d.body(m))
        &&& d.infos[m].ext_kind == types::ext_of(d.body(m))
    } by {
        assert(kept_or_inverted(c, d, m));
        assert(c.kind(m) == types::kind_of(c.body(m)));
    }
}

proof fn lemma_swept(c: Code, d: Code, e: Code, i: int)
    requires
        0 <= i < c.len(),
        c.texts.len() == c.infos.len(),
        stepped(c, d, i),
        swept(d, e, i + 1),
    ensures
        swept(c, e, i),
{
    assert forall|m: int| 0 <= m < c.len() implies #[trigger] kept_or_inverted(c, e, m) && (m < i
        ==> e.texts[m] == c.texts[m] && e.infos[m] == c.infos[m]) && (m >= i ==> !(e.kind(
        m,
    ) is SelfMove)) by {
        assert(kept_or_inverted(c, d, m));
        assert(kept_or_inverted(d, e, m));
    }
}

proof fn lemma_unstepped(c: Code, i: int)
    requires
        !(c.kind(i) is SelfMove),
    ensures
        stepped(c, c, i),
{
    assert forall|m: int| 0 <= m < c.len() implies #[trigger] kept_or_inverted(c, c, m) by {}
}

proof fn lemma_local_sweep_lines(c: Code, i: int, zero: bool)
    requires
        c.texts.len() == c.infos.len(),
        0 <= i,
        told_from(c, i),
    ensures
        swept(c, combined::local_sweep(c, i, zero).0, i),
    decreases sweep::to_go(c, i),
{
    let e = combined::local_sweep(c, i, zero).0;
    if i >= c.len() {
        assert forall|m: int| 0 <= m < c.len() implies #[trigger] kept_or_inverted(c, e, m) by {}
    } else if c.nop(i) {
        lemma_unstepped(c, i);
        lemma_told_still(c, c, i);
        lemma_local_sweep_lines(c, i + 1, zero);
        lemma_swept(c, c, e, i);
    } else if zero && combined::zeroes_rax(c, i) {
        let d = c.remove(i);
        lemma_removed(c, i, i);
        lemma_told_still(c, d, i);
        lemma_local_sweep_lines(d, i + 1, zero);
        lemma_swept(c, d, e, i);
    } else {
        let after = combined::zero_after(c, i, zero);
        lemma_step(c, i);
        match combined::local_at(c, i) {
            Some(d) => {
                lemma_told_still(c, d, i);
                lemma_local_sweep_lines(d, i + 1, after);
                lemma_swept(c, d, e, i);
            },
            None => {
                lemma_unstepped(c, i);
                lemma_told_still(c, c, i);
                lemma_local_sweep_lines(c, i + 1, after);
                lemma_swept(c, c, e, i);
            },
        }
    }
}

/// The local patterns leave labels, directives, calls, returns, compares and stores
/// to the stack as they are, give no line but a conditional jump a new text, and leave
/// no move of a register to itself. They report a change exactly if a line that was
/// left before is removed.
pub proof fn law_local_patterns_keep_lines(c: Code)
    requires
        c.wf(),
        c.faithful(),
    ensures
        combined::local_sweep(c, 0, false).0.len() == c.len(),
        combined::local_sweep(c, 0, false).0.texts.len() == c.texts.len(),
        forall|m: int|
            0 <= m < c.len() ==> #[trigger] kept_or_inverted(
                c,
                combined::local_sweep(c, 0, false).0,
                m,
            ),
        forall|m: int|
            0 <= m < c.len() ==> !(#[trigger] combined::local_sweep(c, 0, false).0.kind(
                m,
            ) is SelfMove),
        combined::local_sweep(c, 0, false).1 <==> exists|m: int|
            0 <= m < c.len() && !c.nop(m) && #[trigger] combined::local_sweep(c, 0, false).0.nop(
                m,
            ),
{
    let (e, changed) = combined::local_sweep(c, 0, false);
    assert forall|m: int| 0 <= m < c.len() && !c.nop(m) implies {
        &&& #[trigger] c.kind(m) == types::kind_of(c.body(m))
        &&& c.infos[m].ext_kind == types::ext_of(c.body(m))
    } by {
        types::lemma_faithful_line(c, m);
    }
    lemma_local_sweep_lines(c, 0, false);
    laws::law_combined_local_pass(c);
    assert forall|m: int| 0 <= m < c.len() implies !(#[trigger] e.kind(m) is SelfMove) by {
        assert(kept_or_inverted(c, e, m));
    }
    if changed && !(exists|m: int| 0 <= m < c.len() && !c.nop(m) && #[trigger] e.nop(m)) {
        assert forall|m: int| 0 <= m < c.len() implies ((#[trigger] c.infos[m]).kind is Nop) == ((
        #[trigger] e.infos[m]).kind is Nop) by {
            assert(kept_or_inverted(c, e, m));
            assert(c.nop(m) == e.nop(m));
        }
        sweep::lemma_live_among_same(c.infos, e.infos, c.infos.len());
    }
}

} // verus!
