//! The shape that the local passes share: one sweep over the lines, trying a
//! rule at each of them.

use vstd::prelude::*;

use super::types;
use super::types::{Code, LineInfo};

verus! {

/// A rewrite rule: what becomes of the lines when the rule applies at a line,
/// and the line where the sweep goes on.
pub type Rule = spec_fn(Code, int) -> Option<(Code, int)>;

/// Number of lines from line `i` on.
pub open spec fn to_go(c: Code, i: int) -> int {
    if i < c.len() {
        c.len() - i
    } else {
        0
    }
}

/// The lines after a sweep from line `i` on, and whether the rule ever applied.
/// The sweep ends where fewer than `ahead` lines follow.
pub open spec fn sweep(rule: Rule, c: Code, i: int, ahead: int) -> (Code, bool)
    decreases to_go(c, i),
{
    if i + ahead >= c.len() || ahead < 0 {
        (c, false)
    } else {
        match rule(c, i) {
            Some((d, next)) => if next > i && d.len() == c.len() {
                (sweep(rule, d, next, ahead).0, true)
            } else {
                (c, false)
            },
            None => sweep(rule, c, i + 1, ahead),
        }
    }
}

/// One step of a sweep: the lines before and after, and where the sweep goes on
/// if the rule applied at line `i`.
pub open spec fn stepped(
    at: Option<(Code, int)>,
    before: Code,
    after: Code,
    i: int,
    next: Option<usize>,
) -> bool {
    &&& after.wf()
    &&& after.len() == before.len()
    &&& match next {
        Some(n) => at == Some((after, n as int)) && i < n <= before.len(),
        None => at is None && after == before,
    }
}

/// A sweep that started with the lines `c0` has reached line `i` with the lines
/// `c`.
pub open spec fn under_way(
    rule: Rule,
    c0: Code,
    c: Code,
    i: int,
    ahead: int,
    changed: bool,
) -> bool {
    &&& c.wf()
    &&& 0 <= i <= c.len()
    &&& sweep(rule, c0, 0, ahead) == (
        sweep(rule, c, i, ahead).0,
        changed || sweep(rule, c, i, ahead).1,
    )
}

/// Number of lines among the first `n` that were not removed.
pub open spec fn live_among(infos: Seq<LineInfo>, n: nat) -> nat
    decreases n,
{
    if n == 0 {
        0
    } else {
        live_among(infos, (n - 1) as nat) + if infos[n - 1].kind is Nop {
            0nat
        } else {
            1nat
        }
    }
}

/// Number of lines that were not removed.
pub open spec fn live_count(c: Code) -> nat {
    live_among(c.infos, c.infos.len())
}

/// `d` has the lines of `c`, and what was removed from `c` is still removed.
pub open spec fn settles(c: Code, d: Code) -> bool {
    &&& d.texts.len() == c.texts.len()
    &&& d.infos.len() == c.infos.len()
    &&& forall|i: int|
        #![trigger d.infos[i]]
        0 <= i < c.len() && c.nop(i) ==> d.infos[i] == c.infos[i] && d.texts[i] == c.texts[i]
}

/// `d` settles `c` and has at least `gain` lines fewer.
pub open spec fn shrinks(c: Code, d: Code, gain: nat) -> bool {
    settles(c, d) && live_count(d) + gain <= live_count(c)
}

pub proof fn lemma_live_among_same(a: Seq<LineInfo>, b: Seq<LineInfo>, n: nat)
    requires
        n <= a.len(),
        n <= b.len(),
        forall|i: int|
            0 <= i < n ==> ((#[trigger] a[i]).kind is Nop) == ((#[trigger] b[i]).kind is Nop),
    ensures
        live_among(a, n) == live_among(b, n),
    decreases n,
{
    if n > 0 {
        assert((a[n - 1].kind is Nop) == (b[n - 1].kind is Nop));
        lemma_live_among_same(a, b, (n - 1) as nat);
    }
}

proof fn lemma_live_among_update(a: Seq<LineInfo>, i: int, x: LineInfo, n: nat)
    requires
        0 <= i < n <= a.len(),
    ensures
        live_among(a.update(i, x), n) + (if a[i].kind is Nop {
            0nat
        } else {
            1nat
        }) == live_among(a, n) + (if x.kind is Nop {
            0nat
        } else {
            1nat
        }),
    decreases n,
{
    if n - 1 == i {
        lemma_live_among_same(a, a.update(i, x), (n - 1) as nat);
    } else {
        lemma_live_among_update(a, i, x, (n - 1) as nat);
    }
}

/// Removing a line that was not removed before makes the code one line shorter.
pub proof fn lemma_remove(c: Code, i: int)
    requires
        0 <= i < c.len(),
        c.wf(),
        !c.nop(i),
    ensures
        c.remove(i).wf(),
        shrinks(c, c.remove(i), 1),
{
    lemma_live_among_update(c.infos, i, c.infos[i].removed(), c.infos.len());
}

/// Rewriting a line that was not removed keeps the number of lines.
pub proof fn lemma_put(c: Code, i: int, line: Seq<char>)
    requires
        0 <= i < c.len(),
        c.wf(),
        !c.nop(i),
    ensures
        c.put(i, line).wf(),
        shrinks(c, c.put(i, line), 0),
{
    types::lemma_classified(line);
    lemma_live_among_update(c.infos, i, types::classified(line), c.infos.len());
}

/// Shrinking adds up.
pub proof fn lemma_shrinks_trans(c: Code, d: Code, e: Code, x: nat, y: nat)
    requires
        shrinks(c, d, x),
        shrinks(d, e, y),
    ensures
        shrinks(c, e, x + y),
{
    assert forall|i: int|
        #![trigger e.infos[i]]
        0 <= i < c.len() && c.nop(i) implies e.infos[i] == c.infos[i] && e.texts[i]
        == c.texts[i] by {
        assert(d.infos[i] == c.infos[i]);
        assert(d.nop(i));
        assert(e.infos[i] == d.infos[i]);
    }
}

/// The same lines without the first `n` of `lines`.
pub open spec fn remove_first(c: Code, lines: Seq<usize>, n: nat) -> Code
    decreases n,
{
    if n == 0 {
        c
    } else {
        remove_first(c, lines, (n - 1) as nat).remove(lines[n - 1] as int)
    }
}

/// If each application of a rule shrinks the code, so does the sweep.
pub proof fn lemma_sweep_shrinks(rule: Rule, c: Code, i: int, ahead: int, gain: nat)
    requires
        0 <= i,
        c.wf(),
        forall|x: Code, k: int|
            x.wf() && 0 <= k < x.len() ==> (match #[trigger] rule(x, k) {
                Some((y, _)) => y.wf() && shrinks(x, y, gain),
                None => true,
            }),
    ensures
        sweep(rule, c, i, ahead).0.wf(),
        shrinks(c, sweep(rule, c, i, ahead).0, if sweep(rule, c, i, ahead).1 {
            gain
        } else {
            0
        }),
        !sweep(rule, c, i, ahead).1 ==> sweep(rule, c, i, ahead).0 == c,
    decreases to_go(c, i),
{
    if i + ahead >= c.len() || ahead < 0 {
    } else {
        match rule(c, i) {
            Some((d, next)) => {
                if next > i && d.len() == c.len() {
                    lemma_sweep_shrinks(rule, d, next, ahead, gain);
                    let e = sweep(rule, d, next, ahead);
                    let more = if e.1 {
                        gain
                    } else {
                        0
                    };
                    lemma_shrinks_trans(c, d, e.0, gain, more);
                }
            },
            None => lemma_sweep_shrinks(rule, c, i + 1, ahead, gain),
        }
    }
}

} // verus!
