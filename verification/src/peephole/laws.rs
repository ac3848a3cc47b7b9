//! What every pass keeps: the number of lines, and what was removed before. A pass
//! that reports no change made none, and the folds make the code shorter whenever
//! they report one.

use vstd::prelude::*;

use super::address_folds;
use super::combined;
use super::compare_branch;
use super::helpers;
use super::helpers::Targets;
use super::join_blocks;
use super::labels;
use super::local_patterns;
use super::loop_trampoline;
use super::narrow;
use super::routing;
use super::sweep;
use super::sweep::Rule;
use super::types;
use super::types::Code;

verus! {

/// The result of a pass: as many lines as before, what was removed stays removed,
/// at least `gain` lines fewer are left if there was a change, and nothing
/// happened if there was none.
pub open spec fn improves(c: Code, result: (Code, bool), gain: nat) -> bool {
    &&& result.0.wf()
    &&& sweep::shrinks(
        c,
        result.0,
        if result.1 {
            gain
        } else {
            0
        },
    )
    &&& !result.1 ==> result.0 == c
}

/// An application of a rule, if any, shrinks the code.
spec fn shrinks_at(c: Code, at: Option<(Code, int)>, gain: nat) -> bool {
    match at {
        Some((d, _)) => d.wf() && sweep::shrinks(c, d, gain),
        None => true,
    }
}

pub proof fn lemma_live_from(c: Code, i: int)
    requires
        0 <= i <= c.len(),
    ensures
        i <= c.live_from(i) <= c.len(),
        c.live_from(i) < c.len() ==> !c.nop(c.live_from(i)),
    decreases c.len() - i,
{
    if i < c.len() && c.nop(i) {
        lemma_live_from(c, i + 1);
    }
}

proof fn lemma_remove_put(c: Code, i: int, j: int, line: Seq<char>)
    requires
        c.wf(),
        0 <= i < c.len(),
        0 <= j < c.len(),
        i != j,
        !c.nop(i),
        !c.nop(j),
    ensures
        c.remove(i).put(j, line).wf(),
        sweep::shrinks(c, c.remove(i).put(j, line), 1),
        c.put(j, line).remove(i).wf(),
        sweep::shrinks(c, c.put(j, line).remove(i), 1),
{
    sweep::lemma_remove(c, i);
    sweep::lemma_put(c.remove(i), j, line);
    sweep::lemma_shrinks_trans(c, c.remove(i), c.remove(i).put(j, line), 1, 0);
    assert(c.put(j, line).remove(i).infos =~= c.remove(i).put(j, line).infos);
}

proof fn lemma_remove_two_put(c: Code, i: int, j: int, k: int, line: Seq<char>)
    requires
        c.wf(),
        0 <= i < c.len(),
        0 <= j < c.len(),
        0 <= k < c.len(),
        i != j,
        i != k,
        j != k,
        !c.nop(i),
        !c.nop(j),
        !c.nop(k),
    ensures
        c.remove(i).remove(j).put(k, line).wf(),
        sweep::shrinks(c, c.remove(i).remove(j).put(k, line), 2),
{
    sweep::lemma_remove(c, i);
    lemma_remove_put(c.remove(i), j, k, line);
    sweep::lemma_shrinks_trans(c, c.remove(i), c.remove(i).remove(j).put(k, line), 1, 1);
}

proof fn lemma_sweep_improves(rule: Rule, c: Code, ahead: int, gain: nat)
    requires
        c.wf(),
        forall|x: Code, k: int|
            x.wf() && 0 <= k < x.len() ==> shrinks_at(x, #[trigger] rule(x, k), gain),
    ensures
        improves(c, sweep::sweep(rule, c, 0, ahead), gain),
{
    assert forall|x: Code, k: int| x.wf() && 0 <= k < x.len() implies (match #[trigger] rule(
        x,
        k,
    ) {
        Some((y, _)) => y.wf() && sweep::shrinks(x, y, gain),
        None => true,
    }) by {
        assert(shrinks_at(x, rule(x, k), gain));
    }
    sweep::lemma_sweep_shrinks(rule, c, 0, ahead, gain);
}

proof fn lemma_fuse_ext(c: Code, i: int)
    requires
        c.wf(),
        0 <= i < c.len(),
    ensures
        shrinks_at(c, local_patterns::fuse_ext_at(c, i), 1),
{
    let j = c.live_from(i + 1);
    lemma_live_from(c, i + 1);
    assert(c.infos[i].fits(c.texts[i]));
    if j < c.len() && !c.nop(i) {
        assert forall|line: Seq<char>|
            (#[trigger] c.put(i, line).remove(j)).wf() && sweep::shrinks(
                c,
                c.put(i, line).remove(j),
                1,
            ) by {
            lemma_remove_put(c, j, i, line);
        }
    }
}

/// Each fused extension leaves one line fewer.
pub proof fn law_fuse_movq_ext_truncation(c: Code)
    requires
        c.wf(),
    ensures
        improves(
            c,
            sweep::sweep(local_patterns::fuse_ext_rule(), c, 0, 1),
            1,
        ),
{
    assert forall|x: Code, k: int| x.wf() && 0 <= k < x.len() implies shrinks_at(
        x,
        #[trigger] local_patterns::fuse_ext_rule()(x, k),
        1,
    ) by {
        lemma_fuse_ext(x, k);
    }
    lemma_sweep_improves(local_patterns::fuse_ext_rule(), c, 1, 1);
}

proof fn lemma_xmm(c: Code, i: int)
    requires
        c.wf(),
        0 <= i < c.len(),
    ensures
        shrinks_at(c, local_patterns::xmm_at(c, i), 1),
{
    let j = c.live_from(i + 1);
    lemma_live_from(c, i + 1);
    assert(c.infos[i].fits(c.texts[i]));
    if j < c.len() && !c.nop(i) {
        assert forall|line: Seq<char>|
            (#[trigger] c.put(i, line).remove(j)).wf() && sweep::shrinks(
                c,
                c.put(i, line).remove(j),
                1,
            ) by {
            lemma_remove_put(c, j, i, line);
        }
    }
}

/// Each folded move of `%xmm0` leaves one line fewer.
pub proof fn law_fold_xmm_through_accumulator(c: Code)
    requires
        c.wf(),
    ensures
        improves(
            c,
            sweep::sweep(local_patterns::xmm_rule(), c, 0, 1),
            1,
        ),
{
    assert forall|x: Code, k: int| x.wf() && 0 <= k < x.len() implies shrinks_at(
        x,
        #[trigger] local_patterns::xmm_rule()(x, k),
        1,
    ) by {
        lemma_xmm(x, k);
    }
    lemma_sweep_improves(local_patterns::xmm_rule(), c, 1, 1);
}

proof fn lemma_narrow(c: Code, i: int)
    requires
        c.wf(),
        0 <= i < c.len(),
    ensures
        shrinks_at(c, narrow::narrow_at(c, i), 0),
{
    if !c.nop(i) {
        assert forall|line: Seq<char>|
            (#[trigger] c.put(i, line)).wf() && sweep::shrinks(c, c.put(i, line), 0) by {
            sweep::lemma_put(c, i, line);
        }
        sweep::lemma_remove(c, i);
        if narrow::writes_gp(c, i) && narrow::narrow_and(c.body(i)) is Some {
            let d = c.put(i, narrow::narrow_and(c.body(i))->0);
            let j = d.live_from(i + 1);
            lemma_live_from(d, i + 1);
            if j < d.len() {
                sweep::lemma_remove(d, j);
                sweep::lemma_shrinks_trans(c, d, d.remove(j), 0, 1);
                assert forall|line: Seq<char>|
                    (#[trigger] d.put(j, line)).wf() && sweep::shrinks(c, d.put(j, line), 0) by {
                    sweep::lemma_put(d, j, line);
                    sweep::lemma_shrinks_trans(c, d, d.put(j, line), 0, 0);
                }
            }
        }
    }
}

/// Narrowing never adds a line.
pub proof fn law_narrow_64_to_32(c: Code)
    requires
        c.wf(),
    ensures
        improves(
            c,
            sweep::sweep(narrow::narrow_rule(), c, 0, 0),
            0,
        ),
{
    assert forall|x: Code, k: int| x.wf() && 0 <= k < x.len() implies shrinks_at(
        x,
        #[trigger] narrow::narrow_rule()(x, k),
        0,
    ) by {
        lemma_narrow(x, k);
    }
    lemma_sweep_improves(narrow::narrow_rule(), c, 0, 0);
}

proof fn lemma_secondary(c: Code, t: Targets, i: int)
    requires
        c.wf(),
        0 <= i < c.len(),
    ensures
        shrinks_at(c, address_folds::secondary_at(c, t, i), 1),
{
    let j = c.live_from(i + 1);
    lemma_live_from(c, i + 1);
    assert(c.infos[i].fits(c.texts[i]));
    if j < c.len() && !c.nop(i) {
        assert forall|line: Seq<char>|
            (#[trigger] c.remove(i).put(j, line)).wf() && sweep::shrinks(
                c,
                c.remove(i).put(j, line),
                1,
            ) by {
            lemma_remove_put(c, i, j, line);
        }
    }
}

/// Each folded address leaves one line fewer.
pub proof fn law_fold_address_through_secondary(c: Code)
    requires
        c.wf(),
    ensures
        improves(
            c,
            sweep::sweep(address_folds::secondary_rule(helpers::targets_of(c)), c, 0, 1),
            1,
        ),
{
    let t = helpers::targets_of(c);
    assert forall|x: Code, k: int| x.wf() && 0 <= k < x.len() implies shrinks_at(
        x,
        #[trigger] address_folds::secondary_rule(t)(x, k),
        1,
    ) by {
        lemma_secondary(x, t, k);
    }
    lemma_sweep_improves(address_folds::secondary_rule(t), c, 1, 1);
}

proof fn lemma_double(c: Code, i: int)
    requires
        c.wf(),
        0 <= i < c.len(),
    ensures
        shrinks_at(c, address_folds::double_at(c, i), 1),
{
    let j = c.live_from(i + 1);
    lemma_live_from(c, i + 1);
    assert(c.infos[i].fits(c.texts[i]));
    if j < c.len() && !c.nop(i) {
        assert forall|line: Seq<char>|
            (#[trigger] c.remove(i).put(j, line)).wf() && sweep::shrinks(
                c,
                c.remove(i).put(j, line),
                1,
            ) by {
            lemma_remove_put(c, i, j, line);
        }
    }
}

/// Each folded doubling leaves one line fewer.
pub proof fn law_fold_double_to_leaq(c: Code)
    requires
        c.wf(),
    ensures
        improves(
            c,
            sweep::sweep(address_folds::double_rule(), c, 0, 1),
            1,
        ),
{
    assert forall|x: Code, k: int| x.wf() && 0 <= k < x.len() implies shrinks_at(
        x,
        #[trigger] address_folds::double_rule()(x, k),
        1,
    ) by {
        lemma_double(x, k);
    }
    lemma_sweep_improves(address_folds::double_rule(), c, 1, 1);
}

proof fn lemma_addimm(c: Code, i: int)
    requires
        c.wf(),
        0 <= i < c.len(),
    ensures
        shrinks_at(c, address_folds::addimm_at(c, i), 1),
{
    let j = c.live_from(i + 1);
    lemma_live_from(c, i + 1);
    assert(c.infos[i].fits(c.texts[i]));
    if j < c.len() && !c.nop(i) {
        assert forall|line: Seq<char>|
            (#[trigger] c.remove(i).put(j, line)).wf() && sweep::shrinks(
                c,
                c.remove(i).put(j, line),
                1,
            ) by {
            lemma_remove_put(c, i, j, line);
        }
    }
}

/// Each folded addition leaves one line fewer.
pub proof fn law_fold_movq_addimm_to_leaq(c: Code)
    requires
        c.wf(),
    ensures
        improves(
            c,
            sweep::sweep(address_folds::addimm_rule(), c, 0, 1),
            1,
        ),
{
    assert forall|x: Code, k: int| x.wf() && 0 <= k < x.len() implies shrinks_at(
        x,
        #[trigger] address_folds::addimm_rule()(x, k),
        1,
    ) by {
        lemma_addimm(x, k);
    }
    lemma_sweep_improves(address_folds::addimm_rule(), c, 1, 1);
}

proof fn lemma_back_live(c: Code, k: int)
    requires
        0 <= k < c.len(),
    ensures
        0 <= address_folds::back_live(c, k) <= k,
    decreases k,
{
    if k > 0 && c.nop(k) {
        lemma_back_live(c, k - 1);
    }
}

proof fn lemma_scaled(c: Code, t: Targets, i: int)
    requires
        c.wf(),
        0 <= i < c.len(),
    ensures
        shrinks_at(c, address_folds::scaled_at(c, t, i), 1),
{
    let j = c.live_from(i + 1);
    lemma_live_from(c, i + 1);
    assert(c.infos[i].fits(c.texts[i]));
    if j < c.len() && !c.nop(i) {
        assert forall|line: Seq<char>|
            (#[trigger] c.remove(i).put(j, line)).wf() && sweep::shrinks(
                c,
                c.remove(i).put(j, line),
                1,
            ) by {
            lemma_remove_put(c, i, j, line);
        }
        if i > 0 {
            let p = address_folds::back_live(c, i - 1);
            lemma_back_live(c, i - 1);
            if !c.nop(p) {
                assert forall|line: Seq<char>|
                    (#[trigger] c.remove(p).remove(i).put(j, line)).wf() && sweep::shrinks(
                        c,
                        c.remove(p).remove(i).put(j, line),
                        1,
                    ) by {
                    lemma_remove_two_put(c, p, i, j, line);
                }
            }
        }
    }
}

/// Each folded scaled address leaves one line fewer.
pub proof fn law_fold_scaled_address_into_load(c: Code)
    requires
        c.wf(),
    ensures
        improves(
            c,
            sweep::sweep(address_folds::scaled_rule(helpers::targets_of(c)), c, 0, 1),
            1,
        ),
{
    let t = helpers::targets_of(c);
    assert forall|x: Code, k: int| x.wf() && 0 <= k < x.len() implies shrinks_at(
        x,
        #[trigger] address_folds::scaled_rule(t)(x, k),
        1,
    ) by {
        lemma_scaled(x, t, k);
    }
    lemma_sweep_improves(address_folds::scaled_rule(t), c, 1, 1);
}

proof fn lemma_commutative(c: Code, t: Targets, i: int)
    requires
        c.wf(),
        0 <= i < c.len(),
    ensures
        shrinks_at(c, routing::commutative_at(c, t, i), 2),
{
    let j = c.live_from(i + 1);
    lemma_live_from(c, i + 1);
    if j < c.len() && !c.nop(i) {
        let k = c.live_from(j + 1);
        lemma_live_from(c, j + 1);
        if k < c.len() {
            assert forall|line: Seq<char>|
                (#[trigger] c.remove(i).remove(j).put(k, line)).wf() && sweep::shrinks(
                    c,
                    c.remove(i).remove(j).put(k, line),
                    2,
                ) by {
                lemma_remove_two_put(c, i, j, k, line);
            }
        }
    }
}

/// Each folded operation leaves two lines fewer.
pub proof fn law_fold_commutative_through_temp(c: Code)
    requires
        c.wf(),
    ensures
        improves(
            c,
            sweep::sweep(routing::commutative_rule(helpers::targets_of(c)), c, 0, 2),
            2,
        ),
{
    let t = helpers::targets_of(c);
    assert forall|x: Code, k: int| x.wf() && 0 <= k < x.len() implies shrinks_at(
        x,
        #[trigger] routing::commutative_rule(t)(x, k),
        2,
    ) by {
        lemma_commutative(x, t, k);
    }
    lemma_sweep_improves(routing::commutative_rule(t), c, 2, 2);
}

proof fn lemma_routing(c: Code, t: Targets, i: int)
    requires
        c.wf(),
        0 <= i < c.len(),
    ensures
        shrinks_at(c, routing::routing_at(c, t, i), 1),
{
    let j = c.live_from(i + 1);
    lemma_live_from(c, i + 1);
    assert(c.infos[i].fits(c.texts[i]));
    if j < c.len() && !c.nop(i) {
        assert forall|line: Seq<char>|
            (#[trigger] c.remove(i).put(j, line)).wf() && sweep::shrinks(
                c,
                c.remove(i).put(j, line),
                1,
            ) by {
            lemma_remove_put(c, i, j, line);
        }
    }
}

/// Each folded routing leaves one line fewer.
pub proof fn law_fold_accumulator_routing(c: Code)
    requires
        c.wf(),
    ensures
        improves(
            c,
            sweep::sweep(routing::routing_rule(helpers::targets_of(c)), c, 0, 1),
            1,
        ),
{
    let t = helpers::targets_of(c);
    assert forall|x: Code, k: int| x.wf() && 0 <= k < x.len() implies shrinks_at(
        x,
        #[trigger] routing::routing_rule(t)(x, k),
        1,
    ) by {
        lemma_routing(x, t, k);
    }
    lemma_sweep_improves(routing::routing_rule(t), c, 1, 1);
}

proof fn lemma_increment(c: Code, t: Targets, i: int)
    requires
        c.wf(),
        0 <= i < c.len(),
    ensures
        shrinks_at(c, routing::increment_at(c, t, i), 2),
{
    let j = c.live_from(i + 1);
    lemma_live_from(c, i + 1);
    if j < c.len() && !c.nop(i) {
        let k = c.live_from(j + 1);
        lemma_live_from(c, j + 1);
        if k < c.len() {
            assert forall|line: Seq<char>|
                (#[trigger] c.remove(i).remove(j).put(k, line)).wf() && sweep::shrinks(
                    c,
                    c.remove(i).remove(j).put(k, line),
                    2,
                ) by {
                lemma_remove_two_put(c, i, j, k, line);
            }
        }
    }
}

/// Each folded increment leaves two lines fewer.
pub proof fn law_fold_increment_in_place(c: Code)
    requires
        c.wf(),
    ensures
        improves(
            c,
            sweep::sweep(routing::increment_rule(helpers::targets_of(c)), c, 0, 2),
            2,
        ),
{
    let t = helpers::targets_of(c);
    assert forall|x: Code, k: int| x.wf() && 0 <= k < x.len() implies shrinks_at(
        x,
        #[trigger] routing::increment_rule(t)(x, k),
        2,
    ) by {
        lemma_increment(x, t, k);
    }
    lemma_sweep_improves(routing::increment_rule(t), c, 2, 2);
}

// ── Lines that are touched ──────────────────────────────────────────────────

/// `d` settles `c` and is well-formed.
spec fn keeps(c: Code, d: Code) -> bool {
    d.wf() && sweep::settles(c, d)
}

/// Each of `lines` exists and was not removed from `c`.
spec fn all_live(c: Code, lines: Seq<usize>) -> bool {
    forall|k: int| 0 <= k < lines.len() ==> live_line(c, #[trigger] lines[k])
}

spec fn live_line(c: Code, l: usize) -> bool {
    l < c.len() && !c.nop(l as int)
}

proof fn lemma_touch(c: Code, d: Code, l: int, line: Seq<char>)
    requires
        keeps(c, d),
        0 <= l < c.len(),
        !c.nop(l),
    ensures
        keeps(c, d.put(l, line)),
        keeps(c, d.remove(l)),
{
    types::lemma_classified(line);
    assert(d.infos[l].fits(d.texts[l]));
}

proof fn lemma_live_among_at_most(c: Code, d: Code, n: nat)
    requires
        sweep::settles(c, d),
        n <= c.len(),
    ensures
        sweep::live_among(d.infos, n) <= sweep::live_among(c.infos, n),
    decreases n,
{
    if n > 0 {
        lemma_live_among_at_most(c, d, (n - 1) as nat);
        assert(c.nop(n - 1) ==> d.infos[n - 1] == c.infos[n - 1]);
    }
}

proof fn lemma_keeps_shrinks(c: Code, d: Code)
    requires
        keeps(c, d),
    ensures
        sweep::shrinks(c, d, 0),
{
    lemma_live_among_at_most(c, d, c.infos.len());
}

proof fn lemma_remove_first_keeps(c: Code, d: Code, lines: Seq<usize>, n: nat)
    requires
        keeps(c, d),
        all_live(c, lines),
        n <= lines.len(),
    ensures
        keeps(c, sweep::remove_first(d, lines, n)),
    decreases n,
{
    if n > 0 {
        lemma_remove_first_keeps(c, d, lines, (n - 1) as nat);
        assert(live_line(c, lines[n - 1]));
        lemma_touch(
            c,
            sweep::remove_first(d, lines, (n - 1) as nat),
            lines[n - 1] as int,
            Seq::empty(),
        );
    }
}

/// If each application of a rule to code of this length shrinks it, so does the
/// sweep.
proof fn lemma_sized_sweep(rule: Rule, c: Code, i: int, ahead: int, gain: nat)
    requires
        0 <= i,
        c.wf(),
        forall|x: Code, k: int|
            x.wf() && x.len() == c.len() && 0 <= k < x.len() ==> shrinks_at(
                x,
                #[trigger] rule(x, k),
                gain,
            ),
    ensures
        improves(c, sweep::sweep(rule, c, i, ahead), gain),
    decreases sweep::to_go(c, i),
{
    if i + ahead >= c.len() || ahead < 0 {
    } else {
        assert(shrinks_at(c, rule(c, i), gain));
        match rule(c, i) {
            Some((d, next)) => {
                if next > i && d.len() == c.len() {
                    lemma_sized_sweep(rule, d, next, ahead, gain);
                    let e = sweep::sweep(rule, d, next, ahead);
                    let more = if e.1 {
                        gain
                    } else {
                        0
                    };
                    sweep::lemma_shrinks_trans(c, d, e.0, gain, more);
                }
            },
            None => lemma_sized_sweep(rule, c, i + 1, ahead, gain),
        }
    }
}

// ── Load destination redirect ───────────────────────────────────────────────

proof fn lemma_reads_live(
    c: Code,
    j: int,
    k: int,
    end: int,
    temp: types::RegId,
    dest: types::RegId,
    uses: Seq<usize>,
)
    requires
        c.len() <= usize::MAX,
        0 <= j < k,
        all_live(c, uses),
        forall|n: int| 0 <= n < uses.len() ==> j < #[trigger] uses[n],
    ensures
        match routing::reads_of(c, k, end, temp, dest, uses) {
            Some(r) => all_live(c, r) && (forall|n: int|
                0 <= n < r.len() ==> j < #[trigger] r[n]),
            None => true,
        },
    decreases end - k,
{
    if k >= end || k >= c.len() {
    } else if c.nop(k) {
        lemma_reads_live(c, j, k + 1, end, temp, dest, uses);
    } else {
        assert(live_line(c, k as usize));
        let more = uses.push(k as usize);
        assert forall|n: int| 0 <= n < more.len() implies live_line(c, #[trigger] more[n]) && j
            < more[n] by {
            if n < uses.len() {
                assert(more[n] == uses[n]);
            }
        }
        lemma_reads_live(c, j, k + 1, end, temp, dest, more);
        lemma_reads_live(c, j, k + 1, end, temp, dest, uses);
    }
}

proof fn lemma_rewrite_uses_keeps(
    c: Code,
    d: Code,
    uses: Seq<usize>,
    n: nat,
    temp: types::RegId,
    dest: types::RegId,
)
    requires
        keeps(c, d),
        all_live(c, uses),
        n <= uses.len(),
    ensures
        keeps(c, routing::rewrite_uses(d, uses, n, temp, dest)),
    decreases n,
{
    if n > 0 {
        lemma_rewrite_uses_keeps(c, d, uses, (n - 1) as nat, temp, dest);
        let e = routing::rewrite_uses(d, uses, (n - 1) as nat, temp, dest);
        assert(live_line(c, uses[n - 1]));
        let u = uses[n - 1] as int;
        lemma_touch(c, e, u, "    "@ + helpers::renamed(e.body(u), 0, temp, dest));
    }
}

proof fn lemma_redirect(c: Code, t: Targets, i: int)
    requires
        c.wf(),
        c.len() <= usize::MAX,
        0 <= i < c.len(),
    ensures
        shrinks_at(c, routing::redirect_at(c, t, i), 1),
{
    if routing::redirect_at(c, t, i) is Some {
        let temp = c.kind(i)->dest_reg;
        let j = c.live_from(i + 1);
        lemma_live_from(c, i + 1);
        let (dest, uses) = routing::redirection(c, t, i, j, temp)->0;
        lemma_reads_live(c, j, j + 1, j + 8, temp, dest, Seq::empty());
        let line = "    "@ + helpers::renamed(c.body(i), 0, temp, dest);
        let d = c.put(i, line).remove(j);
        lemma_remove_put(c, j, i, line);
        assert forall|n: int| 0 <= n < uses.len() implies live_line(d, #[trigger] uses[n]) by {
            assert(live_line(c, uses[n]));
        }
        lemma_rewrite_uses_keeps(d, d, uses, uses.len(), temp, dest);
        let e = routing::rewrite_uses(d, uses, uses.len(), temp, dest);
        lemma_keeps_shrinks(d, e);
        sweep::lemma_shrinks_trans(c, d, e, 1, 0);
    }
}

/// Each redirected load leaves one line fewer.
pub proof fn law_redirect_load_destination(c: Code)
    requires
        c.wf(),
        c.len() <= usize::MAX,
    ensures
        improves(
            c,
            sweep::sweep(routing::redirect_rule(helpers::targets_of(c)), c, 0, 1),
            1,
        ),
{
    let t = helpers::targets_of(c);
    assert forall|x: Code, k: int|
        x.wf() && x.len() == c.len() && 0 <= k < x.len() implies shrinks_at(
        x,
        #[trigger] routing::redirect_rule(t)(x, k),
        1,
    ) by {
        lemma_redirect(x, t, k);
    }
    lemma_sized_sweep(routing::redirect_rule(t), c, 0, 1, 1);
}

// ── Compare-and-branch fusion ───────────────────────────────────────────────

proof fn lemma_live_lines(c: Code, i: int, max: nat)
    requires
        c.len() <= usize::MAX,
        0 <= i <= c.len(),
    ensures
        all_live(c, helpers::live_lines(c, i, max)),
        forall|k: int|
            0 <= k < helpers::live_lines(c, i, max).len() ==> i <= #[trigger] helpers::live_lines(
                c,
                i,
                max,
            )[k],
        increasing(helpers::live_lines(c, i, max)),
    decreases max,
{
    let r = helpers::live_lines(c, i, max);
    let j = c.live_from(i);
    lemma_live_from(c, i);
    if max > 0 && j < c.len() {
        let rest = helpers::live_lines(c, j + 1, (max - 1) as nat);
        lemma_live_lines(c, j + 1, (max - 1) as nat);
        assert forall|k: int| 0 <= k < r.len() implies live_line(c, #[trigger] r[k]) && i
            <= r[k] by {
            if k > 0 {
                assert(r[k] == rest[k - 1]);
            }
        }
        assert forall|a: int, b: int| 0 <= a < b < r.len() implies #[trigger] r[a]
            < #[trigger] r[b] by {
            assert(r[b] == rest[b - 1]);
            if a > 0 {
                assert(r[a] == rest[a - 1]);
            }
        }
    }
}

spec fn increasing(lines: Seq<usize>) -> bool {
    forall|a: int, b: int| 0 <= a < b < lines.len() ==> #[trigger] lines[a] < #[trigger] lines[b]
}

proof fn lemma_remove_first_shrinks(c: Code, lines: Seq<usize>, n: nat)
    requires
        c.wf(),
        all_live(c, lines),
        increasing(lines),
        n <= lines.len(),
    ensures
        sweep::remove_first(c, lines, n).wf(),
        sweep::shrinks(c, sweep::remove_first(c, lines, n), n),
        forall|l: int|
            #![trigger c.infos[l]]
            0 <= l < c.len() && !c.nop(l) && (forall|k: int| 0 <= k < n ==> lines[k] != l)
                ==> !sweep::remove_first(c, lines, n).nop(l),
    decreases n,
{
    if n > 0 {
        lemma_remove_first_shrinks(c, lines, (n - 1) as nat);
        let d = sweep::remove_first(c, lines, (n - 1) as nat);
        let l = lines[n - 1] as int;
        assert(live_line(c, lines[n - 1]));
        assert(c.infos[l] == c.infos[l]);
        assert(!d.nop(l));
        sweep::lemma_remove(d, l);
        sweep::lemma_shrinks_trans(c, d, d.remove(l), (n - 1) as nat, 1);
    }
}

proof fn lemma_find_test(c: Code, lines: Seq<usize>, k: int, stores: Seq<i32>)
    requires
        0 <= k,
    ensures
        match compare_branch::find_test(c, lines, k, stores) {
            Some((t, _)) => k <= t < lines.len(),
            None => true,
        },
    decreases lines.len() - k,
{
    if k < lines.len() {
        let l = lines[k] as int;
        lemma_find_test(c, lines, k + 1, stores);
        lemma_find_test(c, lines, k + 1, stores.push(c.kind(l)->StoreRbp_offset));
    }
}

proof fn lemma_compare(c: Code, i: int)
    requires
        c.wf(),
        c.len() <= usize::MAX,
        0 <= i < c.len(),
    ensures
        shrinks_at(c, compare_branch::compare_at(c, i), 2),
{
    if compare_branch::compare_at(c, i) is Some {
        let lines = helpers::live_lines(
            c,
            i + 1,
            (compare_branch::CMP_FUSION_LOOKAHEAD - 1) as nat,
        );
        lemma_live_lines(c, i + 1, (compare_branch::CMP_FUSION_LOOKAHEAD - 1) as nat);
        lemma_find_test(c, lines, 1, Seq::empty());
        let (t, line) = compare_branch::fused_branch(c, lines)->0;
        let n = (t + 1) as nat;
        lemma_remove_first_shrinks(c, lines, n);
        let d = sweep::remove_first(c, lines, n);
        let at = lines[t + 1] as int;
        assert(live_line(c, lines[t + 1]));
        assert(c.infos[at] == c.infos[at]);
        sweep::lemma_put(d, at, line);
        sweep::lemma_shrinks_trans(c, d, d.put(at, line), n, 0);
    }
}

/// Each fused comparison leaves at least two lines fewer.
pub proof fn law_fuse_compare_and_branch(c: Code)
    requires
        c.wf(),
        c.len() <= usize::MAX,
    ensures
        improves(c, sweep::sweep(compare_branch::compare_rule(), c, 0, 0), 2),
{
    assert forall|x: Code, k: int|
        x.wf() && x.len() == c.len() && 0 <= k < x.len() implies shrinks_at(
        x,
        #[trigger] compare_branch::compare_rule()(x, k),
        2,
    ) by {
        lemma_compare(x, k);
    }
    lemma_sized_sweep(compare_branch::compare_rule(), c, 0, 0, 2);
}

// ── AND/test/branch fusion ──────────────────────────────────────────────────

proof fn lemma_redundant_test(
    c: Code,
    j: int,
    end: int,
    m: compare_branch::Mask,
    x: compare_branch::Copies,
)
    requires
        c.len() <= usize::MAX,
        0 <= j,
        end <= c.len(),
        all_live(c, x.moves),
        forall|n: int| 0 <= n < x.moves.len() ==> #[trigger] x.moves[n] < j,
    ensures
        match compare_branch::redundant_test(c, j, end, m, x) {
            Some((t, r)) => j <= t < end && c.kind(t) is Cmp && all_live(c, r.moves) && (forall|
                n: int,
            |
                0 <= n < r.moves.len() ==> #[trigger] r.moves[n] < t),
            None => true,
        },
    decreases end - j,
{
    if j < end {
        if c.nop(j) {
            lemma_redundant_test(c, j + 1, end, m, x);
        } else {
            let more = x.moves.push(j as usize);
            assert forall|n: int| 0 <= n < more.len() implies live_line(c, #[trigger] more[n])
                && more[n] < j + 1 by {
                if n < x.moves.len() {
                    assert(more[n] == x.moves[n]);
                }
            }
            match compare_branch::copies_on(c, j, m, x.regs) {
                Some(dst) => lemma_redundant_test(
                    c,
                    j + 1,
                    end,
                    m,
                    compare_branch::copied(x, j, dst),
                ),
                None => lemma_redundant_test(c, j + 1, end, m, compare_branch::passed(c, j, x)),
            }
        }
    }
}

proof fn lemma_and_test(c: Code, t: Targets, i: int)
    requires
        c.wf(),
        c.len() <= usize::MAX,
        0 <= i < c.len(),
    ensures
        shrinks_at(c, compare_branch::and_test_at(c, t, i), 1),
{
    if compare_branch::and_test_at(c, t, i) is Some {
        let (imm, reg, wide) = compare_branch::and_imm(c.body(i))->0;
        let end = if i + 6 < c.len() {
            i + 6
        } else {
            c.len()
        };
        let m = compare_branch::mask_of(imm, wide);
        let x = compare_branch::fresh_result(reg);
        lemma_redundant_test(c, i + 1, end, m, x);
        let (j, y) = compare_branch::redundant_test(c, i + 1, end, m, x)->0;
        let moves = y.moves;
        let d = c.remove(j);
        sweep::lemma_remove(c, j);
        assert forall|n: int| 0 <= n < moves.len() implies live_line(d, #[trigger] moves[n]) by {
            assert(live_line(c, moves[n]));
        }
        lemma_remove_first_keeps(d, d, moves, moves.len());
        let e = sweep::remove_first(d, moves, moves.len());
        match compare_branch::copied_from(e, i, reg) {
            Some((p, src)) => {
                lemma_back_live(e, i - 1);
                let line = compare_branch::test_line(imm, src, wide);
                assert(d.nop(p) ==> e.infos[p] == d.infos[p]);
                lemma_touch(d, e, i, line);
                lemma_touch(d, e.put(i, line), p, line);
                lemma_keeps_shrinks(d, e.put(i, line).remove(p));
                sweep::lemma_shrinks_trans(c, d, e.put(i, line).remove(p), 1, 0);
            },
            None => {
                let line = compare_branch::test_line(imm, reg, wide);
                lemma_touch(d, e, i, line);
                lemma_keeps_shrinks(d, e.put(i, line));
                sweep::lemma_shrinks_trans(c, d, e.put(i, line), 1, 0);
            },
        }
    }
}

/// Each test that is found redundant leaves one line fewer.
pub proof fn law_fuse_and_test_branch(c: Code)
    requires
        c.wf(),
        c.len() <= usize::MAX,
    ensures
        improves(
            c,
            sweep::sweep(compare_branch::and_test_rule(helpers::targets_of(c)), c, 0, 0),
            1,
        ),
{
    let t = helpers::targets_of(c);
    assert forall|x: Code, k: int|
        x.wf() && x.len() == c.len() && 0 <= k < x.len() implies shrinks_at(
        x,
        #[trigger] compare_branch::and_test_rule(t)(x, k),
        1,
    ) by {
        lemma_and_test(x, t, k);
    }
    lemma_sized_sweep(compare_branch::and_test_rule(t), c, 0, 0, 1);
}

// ── The combined pass ───────────────────────────────────────────────────────

pub proof fn lemma_past_stores(c: Code, j: int, end: int)
    ensures
        j <= combined::past_stores(c, j, end),
    decreases end - j,
{
    if j < end && (c.nop(j) || c.kind(j) is StoreRbp) {
        lemma_past_stores(c, j + 1, end);
    }
}

pub proof fn lemma_past_spares(c: Code, j: int, end: int)
    ensures
        j <= combined::past_spares(c, j, end),
    decreases end - j,
{
    if j < end && combined::spares_rax(c, j) {
        lemma_past_spares(c, j + 1, end);
    }
}

proof fn lemma_local(c: Code, i: int)
    requires
        c.wf(),
        0 <= i < c.len(),
        !c.nop(i),
    ensures
        match combined::local_at(c, i) {
            Some(d) => d.wf() && sweep::shrinks(c, d, 1),
            None => true,
        },
{
    sweep::lemma_remove(c, i);
    lemma_past_stores(c, i + 1, combined::least(i + 8, c.len()));
    lemma_past_spares(c, i + 1, combined::least(i + 10, c.len()));
    lemma_live_from(c, i + 1);
    if combined::reverse_move(c, i) is Some {
        sweep::lemma_remove(c, combined::reverse_move(c, i)->0);
    }
    if combined::inversion(c, i) is Some {
        let (j, line) = combined::inversion(c, i)->0;
        lemma_remove_put(c, j, i, line);
    }
    if combined::reloads(c, i) {
        sweep::lemma_remove(c, i + 1);
    }
    if combined::redundant_ext(c, i) is Some {
        sweep::lemma_remove(c, combined::redundant_ext(c, i)->0);
    }
}

proof fn lemma_local_sweep(c: Code, i: int, zero: bool)
    requires
        c.wf(),
        0 <= i,
    ensures
        improves(c, combined::local_sweep(c, i, zero), 1),
    decreases sweep::to_go(c, i),
{
    if i < c.len() {
        if c.nop(i) {
            lemma_local_sweep(c, i + 1, zero);
        } else if zero && combined::zeroes_rax(c, i) {
            sweep::lemma_remove(c, i);
            lemma_local_sweep(c.remove(i), i + 1, zero);
            let e = combined::local_sweep(c.remove(i), i + 1, zero);
            let more: nat = if e.1 {
                1
            } else {
                0
            };
            sweep::lemma_shrinks_trans(c, c.remove(i), e.0, 1, more);
        } else {
            lemma_local(c, i);
            let after = combined::zero_after(c, i, zero);
            match combined::local_at(c, i) {
                Some(d) => {
                    lemma_local_sweep(d, i + 1, after);
                    let e = combined::local_sweep(d, i + 1, after);
                    let more: nat = if e.1 {
                        1
                    } else {
                        0
                    };
                    sweep::lemma_shrinks_trans(c, d, e.0, 1, more);
                },
                None => lemma_local_sweep(c, i + 1, after),
            }
        }
    }
}

/// Each local pattern that applies leaves one line fewer.
pub proof fn law_combined_local_pass(c: Code)
    requires
        c.wf(),
    ensures
        improves(c, combined::local_sweep(c, 0, false), 1),
{
    lemma_local_sweep(c, 0, false);
}

// ── Loop trampolines ────────────────────────────────────────────────────────

proof fn lemma_trampoline_lines(c: Code, j: int, t: loop_trampoline::Trampoline)
    requires
        c.len() <= usize::MAX,
        0 <= j,
        all_live(c, t.lines),
    ensures
        all_live(c, loop_trampoline::trampoline_from(c, j, t).lines),
    decreases c.len() - j,
{
    if j < c.len() && (c.nop(j) || c.kind(j) is Empty) {
        lemma_trampoline_lines(c, j + 1, t);
    } else if j < c.len() {
        let one = t.lines.push(j as usize);
        assert(all_live(c, one));
        match loop_trampoline::block_move(c.body(j)) {
            Some(pair) => lemma_trampoline_lines(
                c,
                j + 1,
                loop_trampoline::Trampoline { moves: t.moves.push(pair), lines: one, ..t },
            ),
            None => {
                if loop_trampoline::loads_rax(c.kind(j)) {
                    if loop_trampoline::loaded_copy(c, j) is Some {
                        let k = loop_trampoline::loaded_copy(c, j)->0;
                        lemma_code_from(c, j + 1);
                        let two = one.push(k as usize);
                        assert(all_live(c, two));
                        lemma_trampoline_lines(
                            c,
                            k + 1,
                            loop_trampoline::Trampoline { lines: two, loads: t.loads + 1, ..t },
                        );
                    }
                }
            },
        }
    }
}

proof fn lemma_code_from(c: Code, j: int)
    requires
        0 <= j,
    ensures
        j <= helpers::code_from(c, j),
        helpers::code_from(c, j) < c.len() ==> !c.nop(helpers::code_from(c, j)),
    decreases c.len() - j,
{
    if j < c.len() && (c.nop(j) || c.kind(j) is Empty) {
        lemma_code_from(c, j + 1);
    }
}

proof fn lemma_find_copy(
    c: Code,
    k: int,
    src: types::RegId,
    dst: types::RegId,
    uses: Seq<usize>,
)
    requires
        k <= c.len() <= usize::MAX,
        all_live(c, uses),
    ensures
        match loop_trampoline::find_copy(c, k, src, dst, uses) {
            Some((l, r)) => 0 <= l < c.len() && !c.nop(l) && all_live(c, r),
            None => true,
        },
    decreases k,
{
    if k > 0 {
        let l = k - 1;
        if c.nop(l) {
            lemma_find_copy(c, l, src, dst, uses);
        } else {
            let more = uses.push(l as usize);
            assert(all_live(c, more));
            lemma_find_copy(c, l, src, dst, uses);
            lemma_find_copy(c, l, src, dst, more);
        }
    }
}

/// The lines that a plan touches were not removed.
spec fn plan_live(c: Code, p: loop_trampoline::Plan) -> bool {
    &&& all_live(c, p.copies)
    &&& forall|k: int| 0 <= k < p.renames.len() ==> live_line(c, (#[trigger] p.renames[k]).0)
}

proof fn lemma_plan_live(
    lines: Map<u32, int>,
    c: Code,
    branch: int,
    moves: Seq<(types::RegId, types::RegId)>,
    n: nat,
)
    requires
        c.len() <= usize::MAX,
        branch < c.len(),
        n <= moves.len(),
    ensures
        plan_live(c, loop_trampoline::plan_for(lines, c, branch, moves, n)),
    decreases n,
{
    if n > 0 {
        lemma_plan_live(lines, c, branch, moves, (n - 1) as nat);
        let p = loop_trampoline::plan_for(lines, c, branch, moves, (n - 1) as nat);
        let q = loop_trampoline::plan_for(lines, c, branch, moves, n);
        let (src, dst) = moves[n - 1];
        lemma_find_copy(c, branch, src, dst, Seq::empty());
        if loop_trampoline::coalescing(lines, c, branch, src, dst) is Some {
            let (l, uses) = loop_trampoline::coalescing(lines, c, branch, src, dst)->0;
            assert forall|k: int| 0 <= k < q.copies.len() implies live_line(
                c,
                #[trigger] q.copies[k],
            ) by {
                if k < p.copies.len() {
                    assert(q.copies[k] == p.copies[k]);
                }
            }
            assert forall|k: int| 0 <= k < q.renames.len() implies live_line(
                c,
                (#[trigger] q.renames[k]).0,
            ) by {
                if k < p.renames.len() {
                    assert(q.renames[k] == p.renames[k]);
                } else {
                    assert(q.renames[k].0 == uses[k - p.renames.len()]);
                }
            }
        }
    }
}

proof fn lemma_rename_all_keeps(
    c: Code,
    d: Code,
    renames: Seq<(usize, types::RegId, types::RegId)>,
    n: nat,
)
    requires
        keeps(c, d),
        forall|k: int| 0 <= k < renames.len() ==> live_line(c, (#[trigger] renames[k]).0),
        n <= renames.len(),
    ensures
        keeps(c, loop_trampoline::rename_all(d, renames, n)),
    decreases n,
{
    if n > 0 {
        lemma_rename_all_keeps(c, d, renames, (n - 1) as nat);
        let e = loop_trampoline::rename_all(d, renames, (n - 1) as nat);
        let (l, old_fam, new_fam) = renames[n - 1];
        assert(live_line(c, renames[n - 1].0));
        lemma_touch(
            c,
            e,
            l as int,
            "    "@ + helpers::renamed(e.body(l as int), 0, old_fam, new_fam),
        );
    }
}

proof fn lemma_drop_move_keeps(
    c: Code,
    d: Code,
    lines: Seq<usize>,
    k: int,
    src: types::RegId,
    dst: types::RegId,
)
    requires
        keeps(c, d),
        all_live(c, lines),
    ensures
        keeps(c, loop_trampoline::drop_move(d, lines, k, src, dst)),
    decreases lines.len() - k,
{
    if 0 <= k < lines.len() {
        assert(live_line(c, lines[k]));
        lemma_touch(c, d, lines[k] as int, Seq::empty());
        lemma_drop_move_keeps(c, d, lines, k + 1, src, dst);
    }
}

proof fn lemma_drop_moves_keeps(
    c: Code,
    d: Code,
    lines: Seq<usize>,
    moves: Seq<(types::RegId, types::RegId)>,
    done: Seq<bool>,
    n: nat,
)
    requires
        keeps(c, d),
        all_live(c, lines),
    ensures
        keeps(c, loop_trampoline::drop_moves(d, lines, moves, done, n)),
    decreases n,
{
    if n > 0 {
        lemma_drop_moves_keeps(c, d, lines, moves, done, (n - 1) as nat);
        let e = loop_trampoline::drop_moves(d, lines, moves, done, (n - 1) as nat);
        lemma_drop_move_keeps(c, e, lines, 0, moves[n - 1].0, moves[n - 1].1);
    }
}

proof fn lemma_bypass_keeps(
    c: Code,
    d: Code,
    lines: Seq<usize>,
    label: int,
    branch: int,
    target: u32,
)
    requires
        keeps(c, d),
        all_live(c, lines),
        0 <= label < c.len(),
        !c.nop(label),
        0 <= branch < c.len(),
        !c.nop(branch),
    ensures
        keeps(c, loop_trampoline::bypass(d, lines, label, branch, target)),
{
    lemma_remove_first_keeps(c, d, lines, lines.len());
    let e = sweep::remove_first(d, lines, lines.len());
    lemma_touch(c, e, label, Seq::empty());
    let f = e.remove(label);
    if super::text::split(f.body(branch), " "@) is Some {
        let (op, _) = super::text::split(f.body(branch), " "@)->0;
        lemma_touch(c, f, branch, "    "@ + op + " "@ + helpers::dotl(target));
    }
}

/// What is live in `d` was live in `c`.
proof fn lemma_live_before(c: Code, d: Code, lines: Seq<usize>)
    requires
        keeps(c, d),
        all_live(d, lines),
    ensures
        all_live(c, lines),
{
    assert forall|k: int| 0 <= k < lines.len() implies live_line(c, #[trigger] lines[k]) by {
        assert(live_line(d, lines[k]));
        assert(c.nop(lines[k] as int) ==> d.infos[lines[k] as int] == c.infos[lines[k] as int]);
    }
}

proof fn lemma_trampoline_step_keeps(
    c: Code,
    d: Code,
    lines: Map<u32, int>,
    label: int,
    branch: int,
)
    requires
        keeps(c, d),
        c.len() <= usize::MAX,
        0 <= label < c.len(),
        !c.nop(label),
        0 <= branch < c.len(),
        !c.nop(branch),
    ensures
        match loop_trampoline::trampoline_step(lines, d, label, branch) {
            Some(e) => keeps(c, e),
            None => true,
        },
{
    let t = loop_trampoline::trampoline_at(d, label);
    lemma_trampoline_lines(
        d,
        label + 1,
        loop_trampoline::Trampoline {
            moves: Seq::empty(),
            lines: Seq::empty(),
            loads: 0,
            target: None,
        },
    );
    lemma_live_before(c, d, t.lines);
    let p = loop_trampoline::plan_for(lines, d, branch, t.moves, t.moves.len());
    lemma_plan_live(lines, d, branch, t.moves, t.moves.len());
    lemma_live_before(c, d, p.copies);
    let renamed_lines = Seq::new(p.renames.len(), |k: int| p.renames[k].0);
    assert(all_live(d, renamed_lines));
    lemma_live_before(c, d, renamed_lines);
    assert forall|k: int| 0 <= k < p.renames.len() implies live_line(
        c,
        (#[trigger] p.renames[k]).0,
    ) by {
        assert(live_line(c, renamed_lines[k]));
    }
    lemma_remove_first_keeps(c, d, p.copies, p.copies.len());
    let e = sweep::remove_first(d, p.copies, p.copies.len());
    lemma_rename_all_keeps(c, e, p.renames, p.renames.len());
    let f = loop_trampoline::rename_all(e, p.renames, p.renames.len());
    if t.target is Some {
        lemma_bypass_keeps(c, f, t.lines, label, branch, t.target->0);
    }
    lemma_drop_moves_keeps(c, f, t.lines, t.moves, p.done, t.moves.len());
}

proof fn lemma_numbered_labels(c: Code, k: int)
    requires
        k <= c.len() <= usize::MAX,
    ensures
        forall|n: int|
            0 <= n < labels::numbered_labels(c, k).len() ==> live_line(
                c,
                (#[trigger] labels::numbered_labels(c, k)[n]).1,
            ),
    decreases k,
{
    if k > 0 {
        lemma_numbered_labels(c, k - 1);
        let before = labels::numbered_labels(c, k - 1);
        let r = labels::numbered_labels(c, k);
        assert forall|n: int| 0 <= n < r.len() implies live_line(c, (#[trigger] r[n]).1) by {
            if n < before.len() {
                assert(r[n] == before[n]);
            }
        }
    }
}

proof fn lemma_first_cond_branch(c: Code, n: u32, k: int)
    requires
        k <= c.len(),
    ensures
        match labels::first_cond_branch(c, n, k) {
            Some(i) => 0 <= i < c.len() && !c.nop(i),
            None => true,
        },
    decreases k,
{
    if k > 0 {
        lemma_first_cond_branch(c, n, k - 1);
    }
}

proof fn lemma_trampoline_sweep(
    c: Code,
    d: Code,
    lines: Map<u32, int>,
    found: Seq<(u32, usize)>,
    k: int,
)
    requires
        keeps(c, d),
        c.len() <= usize::MAX,
        0 <= k,
        forall|n: int| 0 <= n < found.len() ==> live_line(c, (#[trigger] found[n]).1),
    ensures
        keeps(
            c,
            loop_trampoline::trampoline_sweep(lines, labels::branch_map(c), d, found, k).0,
        ),
        !loop_trampoline::trampoline_sweep(lines, labels::branch_map(c), d, found, k).1
            ==> loop_trampoline::trampoline_sweep(lines, labels::branch_map(c), d, found, k).0
            == d,
    decreases found.len() - k,
{
    if k < found.len() {
        let (n, label) = found[k];
        assert(live_line(c, found[k].1));
        lemma_trampoline_sweep(c, d, lines, found, k + 1);
        if labels::branch_map(c).contains_key(n) {
            lemma_first_cond_branch(c, n, c.len());
            let branch = labels::branch_map(c)[n];
            lemma_trampoline_step_keeps(c, d, lines, label as int, branch);
            match loop_trampoline::trampoline_step(lines, d, label as int, branch) {
                Some(e) => lemma_trampoline_sweep(c, e, lines, found, k + 1),
                None => {},
            }
        }
    }
}

/// Eliminating trampolines never adds a line.
pub proof fn law_eliminate_loop_trampolines(c: Code)
    requires
        c.wf(),
        c.len() <= usize::MAX,
    ensures
        improves(c, loop_trampoline::without_trampolines(c), 0),
{
    lemma_numbered_labels(c, c.len());
    lemma_trampoline_sweep(
        c,
        c,
        labels::label_map(c),
        labels::numbered_labels(c, c.len()),
        0,
    );
    lemma_keeps_shrinks(c, c);
    lemma_keeps_shrinks(c, loop_trampoline::without_trampolines(c).0);
}

// ── Join blocks ─────────────────────────────────────────────────────────────

proof fn lemma_simple_lines(c: Code, k: int, end: int)
    requires
        0 <= k,
        end <= c.len() <= usize::MAX,
    ensures
        match join_blocks::simple_lines(c, k, end) {
            Some(r) => all_live(c, r),
            None => true,
        },
    decreases end - k,
{
    if k < end {
        lemma_simple_lines(c, k + 1, end);
        if !c.nop(k) && join_blocks::simple_lines(c, k + 1, end) is Some {
            let rest = join_blocks::simple_lines(c, k + 1, end)->0;
            let r = seq![k as usize] + rest;
            assert forall|n: int| 0 <= n < r.len() implies live_line(c, #[trigger] r[n]) by {
                if n > 0 {
                    assert(r[n] == rest[n - 1]);
                }
            }
        }
    }
}

proof fn lemma_straight_from(c: Code, k: int)
    ensures
        0 <= join_blocks::straight_from(c, k),
    decreases k,
{
    if k > 0 {
        lemma_straight_from(c, k - 1);
    }
}

proof fn lemma_fill_keeps(c: Code, d: Code, slots: Seq<usize>, new: Seq<Seq<char>>, n: nat)
    requires
        keeps(c, d),
        all_live(c, slots),
        n <= slots.len(),
    ensures
        keeps(c, join_blocks::fill(d, slots, new, n)),
    decreases n,
{
    if n > 0 {
        lemma_fill_keeps(c, d, slots, new, (n - 1) as nat);
        let e = join_blocks::fill(d, slots, new, (n - 1) as nat);
        assert(live_line(c, slots[n - 1]));
        lemma_touch(c, e, slots[n - 1] as int, new[n - 1]);
    }
}

proof fn lemma_join_sweep(blocks: Map<u32, join_blocks::Join>, c: Code, i: int)
    requires
        c.wf(),
        c.len() <= usize::MAX,
        0 <= i,
    ensures
        improves(c, join_blocks::join_sweep(blocks, c, i), 0),
    decreases sweep::to_go(c, i),
{
    if i < c.len() {
        match join_blocks::join_step(blocks, c, i) {
            Some(d) => {
                let from = join_blocks::straight_from(c, i);
                let lines = join_blocks::simple_lines(c, from, i)->0;
                lemma_straight_from(c, i);
                lemma_simple_lines(c, from, i);
                let slots = lines.push(i as usize);
                assert forall|n: int| 0 <= n < slots.len() implies live_line(
                    c,
                    #[trigger] slots[n],
                ) by {
                    if n < lines.len() {
                        assert(slots[n] == lines[n]);
                    }
                }
                let chain = join_blocks::jump_chain(blocks, c, i)->0;
                let new = join_blocks::composed(c, lines, chain).push(
                    "    jmp "@ + helpers::dotl(chain.target),
                );
                lemma_fill_keeps(c, c, slots, new, slots.len());
                lemma_keeps_shrinks(c, d);
                lemma_join_sweep(blocks, d, i + 1);
                sweep::lemma_shrinks_trans(
                    c,
                    d,
                    join_blocks::join_sweep(blocks, d, i + 1).0,
                    0,
                    0,
                );
            },
            None => lemma_join_sweep(blocks, c, i + 1),
        }
    }
}

/// Inlining join blocks never adds a line.
pub proof fn law_inline_join_blocks(c: Code)
    requires
        c.wf(),
        c.len() <= usize::MAX,
    ensures
        improves(c, join_blocks::with_joins_inlined(c), 0),
{
    lemma_join_sweep(join_blocks::join_map(c), c, 0);
}

} // verus!
