//! Renaming a register in straight-line code, and that the passes that do so keep what
//! the code does.

use vstd::prelude::*;

use super::equivalence;
use super::helpers;
use super::helpers::Targets;
use super::loop_trampoline;
use super::loop_trampoline::Trampoline;
use super::machine;
use super::machine::{Processor, State};
use super::routing;
use super::sweep;
use super::text;
use super::types;
use super::types::{Code, RegId};

verus! {

// ── One register in the place of another ────────────────────────────────────

/// The states are the same but for `a`, and in the first `a` and `b` hold the same.
pub open spec fn stands_for(o: State, n: State, a: RegId, b: RegId) -> bool {
    &&& o.wf() && n.wf()
    &&& machine::agree_but(n, o, a)
    &&& o.regs[a as int] == o.regs[b as int]
}

/// The instruction reads `a` and has nothing to do with `b`, which can take the place of
/// `a` in it.
pub open spec fn reads_first(s: Seq<char>, a: RegId, b: RegId) -> bool {
    machine::renamable(s, a, b) && machine::not_written(s, a) && machine::untouched(s, b)
}

/// The instruction has nothing to do with `a` nor with `b`.
pub open spec fn reads_neither(s: Seq<char>, a: RegId, b: RegId) -> bool {
    machine::untouched(s, a) && machine::untouched(s, b)
}

proof fn lemma_read_renamed(p: Processor, s: Seq<char>, a: RegId, b: RegId, o: State, n: State)
    requires
        machine::sensible(p),
        stands_for(o, n, a, b),
        reads_first(s, a, b),
        a < 16,
        b < 16,
        a != b,
    ensures
        stands_for(p.run(s, o), p.run(helpers::renamed(s, 0, a, b), n), a, b),
{
    let x = n.regs[a as int];
    machine::lemma_run_renamed(p, s, a, b, n);
    let turned = n.swapped(a, b);
    assert(turned =~= o.with(b, x)) by {
        assert(turned.regs =~= o.with(b, x).regs);
    }
    machine::lemma_run_ignores(p, s, b, o, x);
    machine::lemma_run_keeps(p, s, a, o);
    let q = p.run(s, o);
    let r = q.with(b, x).swapped(a, b);
    assert(r.regs =~= q.with(b, q.regs[a as int]).with(a, x).regs);
}

proof fn lemma_other_kept(p: Processor, s: Seq<char>, a: RegId, b: RegId, o: State, n: State)
    requires
        machine::sensible(p),
        stands_for(o, n, a, b),
        reads_neither(s, a, b),
        a < 16,
        b < 16,
    ensures
        stands_for(p.run(s, o), p.run(s, n), a, b),
{
    let x = n.regs[a as int];
    assert(n =~= o.with(a, x)) by {
        assert(n.regs =~= o.with(a, x).regs);
    }
    machine::lemma_run_ignores(p, s, a, o, x);
    machine::lemma_run_ignores(p, s, b, o, x);
}

/// Line `m` of `d` is that of `c`, with `b` in place of `a` if it is among `uses`.
pub open spec fn line_renamed(c: Code, d: Code, m: int, uses: Seq<usize>, a: RegId, b: RegId) -> bool {
    &&& d.nop(m) == c.nop(m)
    &&& d.body(m) == if uses.contains(m as usize) {
        helpers::renamed(c.body(m), 0, a, b)
    } else {
        c.body(m)
    }
}

/// Line `m` of `c` reads `a` if it is among `uses`, else it has nothing to do with `a` and
/// `b`.
pub open spec fn line_reads(c: Code, m: int, uses: Seq<usize>, a: RegId, b: RegId) -> bool {
    c.nop(m) || if uses.contains(m as usize) {
        reads_first(c.body(m), a, b)
    } else {
        reads_neither(c.body(m), a, b)
    }
}

proof fn lemma_lines_renamed(
    p: Processor,
    c: Code,
    d: Code,
    k: int,
    end: int,
    uses: Seq<usize>,
    a: RegId,
    b: RegId,
    o: State,
    n: State,
)
    requires
        machine::sensible(p),
        stands_for(o, n, a, b),
        a < 16,
        b < 16,
        a != b,
        forall|m: int| k <= m < end ==> #[trigger] line_renamed(c, d, m, uses, a, b),
        forall|m: int| k <= m < end ==> #[trigger] line_reads(c, m, uses, a, b),
    ensures
        stands_for(
            machine::after_code(p, c, k, end, o),
            machine::after_code(p, d, k, end, n),
            a,
            b,
        ),
    decreases end - k,
{
    if k < end {
        assert(line_renamed(c, d, k, uses, a, b));
        assert(line_reads(c, k, uses, a, b));
        if c.nop(k) {
            lemma_lines_renamed(p, c, d, k + 1, end, uses, a, b, o, n);
        } else {
            if uses.contains(k as usize) {
                lemma_read_renamed(p, c.body(k), a, b, o, n);
            } else {
                lemma_other_kept(p, c.body(k), a, b, o, n);
            }
            lemma_lines_renamed(
                p,
                c,
                d,
                k + 1,
                end,
                uses,
                a,
                b,
                p.run(c.body(k), o),
                p.run(d.body(k), n),
            );
        }
    }
}

// ── The lines that read a loaded value ──────────────────────────────────────

/// Line `u` reads `temp` and can be rewritten.
spec fn good_use(c: Code, u: int, temp: RegId, dest: RegId) -> bool {
    &&& !c.nop(u)
    &&& c.infos[u].refs(temp)
    &&& !c.infos[u].refs(dest)
    &&& helpers::dest_of(c.kind(u)) != temp
    &&& !helpers::implicit_use(c.body(u))
}

/// What is known of the lines that were found to read `temp`.
spec fn found_uses(
    c: Code,
    k: int,
    temp: RegId,
    dest: RegId,
    before: Seq<usize>,
    uses: Seq<usize>,
) -> bool {
    &&& before.len() <= uses.len()
    &&& forall|n: int| 0 <= n < before.len() ==> #[trigger] uses[n] == before[n]
    &&& forall|n: int|
        before.len() <= n < uses.len() ==> k <= #[trigger] uses[n] < c.len() && good_use(
            c,
            uses[n] as int,
            temp,
            dest,
        )
    &&& forall|n: int, x: int|
        before.len() <= n < x < uses.len() ==> #[trigger] uses[n] < #[trigger] uses[x]
    &&& forall|m: int|
        k <= m && before.len() < uses.len() && m < uses.last() && !c.nop(m) && !uses.contains(
            m as usize,
        ) ==> !(#[trigger] c.infos[m]).refs(temp)
}

proof fn lemma_reads_of(
    c: Code,
    k: int,
    end: int,
    temp: RegId,
    dest: RegId,
    before: Seq<usize>,
)
    requires
        c.len() <= usize::MAX,
        0 <= k,
        forall|n: int| 0 <= n < before.len() ==> #[trigger] before[n] < k,
    ensures
        routing::reads_of(c, k, end, temp, dest, before) matches Some(uses) ==> found_uses(
            c,
            k,
            temp,
            dest,
            before,
            uses,
        ),
    decreases end - k,
{
    if k < end && k < c.len() {
        if c.nop(k) || (!routing::is_flow(c.kind(k)) && !c.infos[k].refs(temp)) {
            lemma_reads_of(c, k + 1, end, temp, dest, before);
        } else if !routing::is_flow(c.kind(k)) && helpers::dest_of(c.kind(k)) != temp {
            let more = before.push(k as usize);
            lemma_reads_of(c, k + 1, end, temp, dest, more);
            if let Some(uses) = routing::reads_of(c, k, end, temp, dest, before) {
                if !c.infos[k].refs(dest) && before.len() < 3 && !helpers::implicit_use(
                    c.body(k),
                ) {
                    assert(found_uses(c, k + 1, temp, dest, more, uses));
                    assert(uses[before.len() as int] == more[before.len() as int]);
                    assert forall|n: int| 0 <= n < before.len() implies #[trigger] uses[n]
                        == before[n] by {
                        assert(uses[n] == more[n]);
                    }
                    assert forall|m: int|
                        k <= m && before.len() < uses.len() && m < uses.last() && !c.nop(m)
                            && !uses.contains(m as usize) implies !(#[trigger] c.infos[m]).refs(
                        temp,
                    ) by {
                        if m == k {
                            assert(uses[before.len() as int] == m as usize);
                        } else if uses.len() == more.len() {
                            assert(uses.last() == k);
                        }
                    }
                }
            }
        }
    }
}

/// The lines that were rewritten, and the others.
proof fn lemma_rewritten_lines(
    c: Code,
    uses: Seq<usize>,
    n: nat,
    temp: RegId,
    dest: RegId,
    m: int,
)
    requires
        c.texts.len() == c.infos.len(),
        c.len() <= usize::MAX,
        n <= uses.len(),
        0 <= m < c.len(),
        forall|x: int|
            0 <= x < uses.len() ==> (#[trigger] uses[x]) < c.len() && !c.nop(uses[x] as int)
                && starts_plainly(helpers::renamed(c.body(uses[x] as int), 0, temp, dest)),
        forall|x: int, y: int|
            0 <= x < y < uses.len() ==> #[trigger] uses[x] < #[trigger] uses[y],
    ensures
        ({
            let d = routing::rewrite_uses(c, uses, n, temp, dest);
            &&& d.texts.len() == c.texts.len()
            &&& d.infos.len() == c.infos.len()
            &&& uses.take(n as int).contains(m as usize) ==> d.body(m) == helpers::renamed(
                c.body(m),
                0,
                temp,
                dest,
            ) && !d.nop(m)
            &&& !uses.take(n as int).contains(m as usize) ==> d.texts[m] == c.texts[m] && d.infos[m]
                == c.infos[m]
        }),
    decreases n,
{
    if n > 0 {
        let before = routing::rewrite_uses(c, uses, (n - 1) as nat, temp, dest);
        let u = uses[n - 1] as int;
        lemma_rewritten_lines(c, uses, (n - 1) as nat, temp, dest, m);
        lemma_rewritten_lines(c, uses, (n - 1) as nat, temp, dest, u);
        let part = uses.take(n - 1);
        let all = uses.take(n as int);
        assert(!part.contains(u as usize)) by {
            if part.contains(u as usize) {
                let x = choose|x: int| 0 <= x < part.len() && part[x] == u as usize;
                assert(uses[x] < uses[n - 1]);
            }
        }
        assert(all.contains(m as usize) == (part.contains(m as usize) || m == u)) by {
            if part.contains(m as usize) {
                let x = choose|x: int| 0 <= x < part.len() && part[x] == m as usize;
                assert(all[x] == m as usize);
            }
            if m == u {
                assert(all[n - 1] == m as usize);
            }
            if all.contains(m as usize) {
                let x = choose|x: int| 0 <= x < all.len() && all[x] == m as usize;
                if x < n - 1 {
                    assert(part[x] == m as usize);
                }
            }
        }
        let text = helpers::renamed(c.body(u), 0, temp, dest);
        assert(before.body(u) == c.body(u));
        equivalence::lemma_put_body(before, u, text);
        lemma_put_kind(text);
    }
}

/// A text that does not begin with a blank.
pub open spec fn starts_plainly(s: Seq<char>) -> bool {
    s.len() > 0 && s[0] != ' ' && s[0] != '\t'
}

/// A line that is put is classified by its text without the indent.
pub proof fn lemma_put_kind(s: Seq<char>)
    requires
        starts_plainly(s),
    ensures
        types::classified("    "@ + s).kind == types::kind_of(s),
        !(types::kind_of(s) is Nop),
{
    reveal_strlit("    ");
    let line = "    "@ + s;
    assert(line.skip(1).skip(1).skip(1).skip(1) =~= s);
    assert(line[0] == ' ' && line.skip(1)[0] == ' ' && line.skip(1).skip(1)[0] == ' '
        && line.skip(1).skip(1).skip(1)[0] == ' ');
    reveal_with_fuel(types::blanks, 6);
    assert(line.skip(4) =~= s);
}

/// Nothing stands in the way of renaming `temp` to `dest` in the instruction: it is
/// straight-line code, uses neither implicitly, and names `temp` only in ways that can be
/// renamed.
pub open spec fn suits(s: Seq<char>, temp: RegId, dest: RegId) -> bool {
    &&& machine::straight(s)
    &&& !helpers::implicit_reg(s, temp)
    &&& !helpers::implicit_reg(s, dest)
    &&& !helpers::names_family(helpers::renamed(s, 0, temp, dest), temp)
    &&& starts_plainly(helpers::renamed(s, 0, temp, dest))
}

proof fn lemma_line_reads(
    c: Code,
    t: Targets,
    i: int,
    j: int,
    temp: RegId,
    dest: RegId,
    uses: Seq<usize>,
    m: int,
)
    requires
        c.faithful(),
        c.len() <= usize::MAX,
        0 <= i < j < m < routing::after_uses(j, uses),
        j < c.len(),
        helpers::movable(temp),
        routing::redirection(c, t, i, j, temp) == Some((dest, uses)),
        !c.nop(m) ==> suits(c.body(m), temp, dest),
    ensures
        m < c.len(),
        line_reads(c, m, uses, temp, dest),
{
    lemma_reads_of(c, j + 1, j + 8, temp, dest, Seq::empty());
    assert(found_uses(c, j + 1, temp, dest, Seq::empty(), uses));
    if uses.len() > 0 {
        assert(uses[uses.len() - 1] == uses.last());
        assert(uses.last() < c.len());
        if !c.nop(m) {
            types::lemma_faithful_line(c, m);
            reveal(machine::renamable);
            reveal(machine::not_written);
            reveal(machine::untouched);
            if uses.contains(m as usize) {
                let x = choose|x: int| 0 <= x < uses.len() && uses[x] == m as usize;
                assert(good_use(c, uses[x] as int, temp, dest));
            } else {
                assert(!c.infos[m].refs(temp));
                assert(!c.infos[m].refs(dest)) by {
                    if c.infos[m].refs(dest) {
                        assert(routing::touched_between(c, j + 1, uses.last() as int, dest, uses));
                    }
                }
            }
        }
    }
}

/// A load that goes straight to the register it is copied to, with the reads of the
/// temporary turned to that register, leaves the same state but for the temporary. The
/// load fills its register, and nothing stands in the way of the renaming.
pub proof fn law_redirected_load_keeps_state(p: Processor, c: Code, t: Targets, i: int, st: State)
    requires
        machine::sensible(p),
        c.faithful(),
        c.len() <= usize::MAX,
        0 <= i < c.len(),
        !c.nop(i),
        routing::redirect_at(c, t, i) is Some,
        st.wf(),
        ({
            let temp = c.kind(i)->dest_reg;
            let j = c.live_from(i + 1);
            let (dest, uses) = routing::redirection(c, t, i, j, temp)->0;
            &&& machine::retargetable(c.body(i), temp, dest)
            &&& starts_plainly(helpers::renamed(c.body(i), 0, temp, dest))
            &&& machine::copied(c.body(j)) == Some((temp, dest))
            &&& forall|m: int|
                j < m < routing::after_uses(j, uses) && !(#[trigger] c.nop(m)) ==> suits(
                    c.body(m),
                    temp,
                    dest,
                )
        }),
    ensures
        ({
            let temp = c.kind(i)->dest_reg;
            let (d, end) = routing::redirect_at(c, t, i)->0;
            machine::agree_but(
                machine::after_code(p, d, i, end, st),
                machine::after_code(p, c, i, end, st),
                temp,
            )
        }),
{
    let temp = c.kind(i)->dest_reg;
    let j = c.live_from(i + 1);
    let (dest, uses) = routing::redirection(c, t, i, j, temp)->0;
    let end = routing::after_uses(j, uses);
    let text = helpers::renamed(c.body(i), 0, temp, dest);
    let d0 = c.put(i, "    "@ + text).remove(j);
    let d = routing::rewrite_uses(d0, uses, uses.len(), temp, dest);
    machine::lemma_live_bound(c, i + 1);
    machine::lemma_live_stops(c, i + 1);
    assert(dest < 16 && temp < 16 && temp != dest);
    lemma_reads_of(c, j + 1, j + 8, temp, dest, Seq::empty());
    assert(found_uses(c, j + 1, temp, dest, Seq::empty(), uses));
    assert forall|x: int| 0 <= x < uses.len() implies (#[trigger] uses[x]) < d0.len() && !d0.nop(
        uses[x] as int,
    ) && starts_plainly(helpers::renamed(d0.body(uses[x] as int), 0, temp, dest)) by {
        let m = uses[x] as int;
        assert(good_use(c, m, temp, dest));
        assert(m < end) by {
            if x < uses.len() - 1 {
                assert(uses[x] < uses[uses.len() - 1]);
            }
        }
        assert(!c.nop(m));
        assert(suits(c.body(m), temp, dest));
        assert(d0.texts[m] == c.texts[m] && d0.infos[m] == c.infos[m]);
    }
    assert forall|m: int| j < m < end implies #[trigger] line_reads(c, m, uses, temp, dest) by {
        if !c.nop(m) {
            assert(suits(c.body(m), temp, dest));
        }
        lemma_line_reads(c, t, i, j, temp, dest, uses, m);
    }
    assert(uses.take(uses.len() as int) =~= uses);
    assert(end <= c.len()) by {
        if uses.len() > 0 {
            assert(uses[uses.len() - 1] < c.len());
        }
    }
    assert forall|m: int| j < m < end implies #[trigger] line_renamed(c, d, m, uses, temp, dest) by {
        lemma_rewritten_lines(d0, uses, uses.len(), temp, dest, m);
        assert(d0.texts[m] == c.texts[m] && d0.infos[m] == c.infos[m]);
        if uses.contains(m as usize) {
            let x = choose|x: int| 0 <= x < uses.len() && uses[x] == m as usize;
            assert(good_use(c, uses[x] as int, temp, dest));
        }
    }
    // The load and the move.
    assert forall|m: int| i <= m <= j implies !uses.contains(#[trigger] (m as usize)) by {
        if uses.contains(m as usize) {
            let x = choose|x: int| 0 <= x < uses.len() && uses[x] == m as usize;
            assert(uses[x] >= j + 1);
        }
    }
    lemma_rewritten_lines(d0, uses, uses.len(), temp, dest, i);
    lemma_rewritten_lines(d0, uses, uses.len(), temp, dest, j);
    equivalence::lemma_put_body(c, i, text);
    lemma_put_kind(text);
    assert(d.body(i) == text && !d.nop(i) && d.nop(j));
    machine::lemma_two_lines(p, c, i, st);
    let loaded = p.run(c.body(i), st);
    machine::lemma_run_wf(p, c.body(i), st);
    machine::lemma_run_copies(p, c.body(j), loaded);
    let o = p.run(c.body(j), loaded);
    machine::lemma_run_retargeted(p, c.body(i), temp, dest, st);
    let n = p.run(text, st);
    assert(machine::after_code(p, d, i, j + 1, st) == n) by {
        assert forall|m: int| i + 1 <= m < j + 1 implies #[trigger] d.nop(m) by {
            if m < j {
                machine::lemma_up_to_live(c, i + 1, m);
                lemma_rewritten_lines(d0, uses, uses.len(), temp, dest, m);
                assert(d0.infos[m] == c.infos[m]);
            }
        }
        machine::lemma_after_removed(p, d, i + 1, j + 1, n);
    }
    assert(stands_for(o, n, temp, dest));
    machine::lemma_after_split(p, c, i, j + 1, end, st);
    machine::lemma_after_split(p, d, i, j + 1, end, st);
    lemma_lines_renamed(p, c, d, j + 1, end, uses, temp, dest, o, n);
}

// ── A loop variable in its own register ─────────────────────────────────────

/// In the second state `b` holds what `a` holds in the first, and all registers but these
/// two are the same.
pub open spec fn plays(o: State, n: State, a: RegId, b: RegId) -> bool {
    &&& o.wf() && n.wf()
    &&& n.flags == o.flags && n.rest == o.rest
    &&& n.regs[b as int] == o.regs[a as int]
    &&& forall|r: int| 0 <= r < 16 && r != a && r != b ==> #[trigger] n.regs[r] == o.regs[r]
}

/// The instruction has nothing to do with `b`, which can take the place of `a` in it.
pub open spec fn uses_first(s: Seq<char>, a: RegId, b: RegId) -> bool {
    machine::renamable(s, a, b) && machine::untouched(s, b)
}

/// Line `m` uses `a` if it is among `uses`, else it has nothing to do with `a` and `b`.
pub open spec fn line_uses(c: Code, m: int, uses: Seq<usize>, a: RegId, b: RegId) -> bool {
    c.nop(m) || if uses.contains(m as usize) {
        uses_first(c.body(m), a, b)
    } else {
        reads_neither(c.body(m), a, b)
    }
}

proof fn lemma_use_renamed(p: Processor, s: Seq<char>, a: RegId, b: RegId, o: State, n: State)
    requires
        machine::sensible(p),
        plays(o, n, a, b),
        uses_first(s, a, b),
        a < 16,
        b < 16,
        a != b,
    ensures
        plays(p.run(s, o), p.run(helpers::renamed(s, 0, a, b), n), a, b),
{
    let x = n.regs[a as int];
    machine::lemma_run_renamed(p, s, a, b, n);
    let turned = n.swapped(a, b);
    assert(turned =~= o.with(b, x)) by {
        assert(turned.regs =~= o.with(b, x).regs);
    }
    machine::lemma_run_ignores(p, s, b, o, x);
}

proof fn lemma_other_played(p: Processor, s: Seq<char>, a: RegId, b: RegId, o: State, n: State)
    requires
        machine::sensible(p),
        plays(o, n, a, b),
        reads_neither(s, a, b),
        a < 16,
        b < 16,
        a != b,
    ensures
        plays(p.run(s, o), p.run(s, n), a, b),
{
    let x = n.regs[a as int];
    let y = n.regs[b as int];
    let mid = o.with(a, x);
    assert(n =~= mid.with(b, y)) by {
        assert(n.regs =~= mid.with(b, y).regs);
    }
    machine::lemma_run_ignores(p, s, a, o, x);
    machine::lemma_run_ignores(p, s, b, mid, y);
}

proof fn lemma_lines_played(
    p: Processor,
    c: Code,
    d: Code,
    k: int,
    end: int,
    uses: Seq<usize>,
    a: RegId,
    b: RegId,
    o: State,
    n: State,
)
    requires
        machine::sensible(p),
        plays(o, n, a, b),
        a < 16,
        b < 16,
        a != b,
        forall|m: int| k <= m < end ==> #[trigger] line_renamed(c, d, m, uses, a, b),
        forall|m: int| k <= m < end ==> #[trigger] line_uses(c, m, uses, a, b),
    ensures
        plays(
            machine::after_code(p, c, k, end, o),
            machine::after_code(p, d, k, end, n),
            a,
            b,
        ),
    decreases end - k,
{
    if k < end {
        assert(line_renamed(c, d, k, uses, a, b));
        assert(line_uses(c, k, uses, a, b));
        if c.nop(k) {
            lemma_lines_played(p, c, d, k + 1, end, uses, a, b, o, n);
        } else {
            if uses.contains(k as usize) {
                lemma_use_renamed(p, c.body(k), a, b, o, n);
            } else {
                lemma_other_played(p, c.body(k), a, b, o, n);
            }
            lemma_lines_played(
                p,
                c,
                d,
                k + 1,
                end,
                uses,
                a,
                b,
                p.run(c.body(k), o),
                p.run(d.body(k), n),
            );
        }
    }
}

/// What is known of the lines between the copy of `dst` to `src` and the branch.
spec fn found_copy(
    c: Code,
    k: int,
    src: RegId,
    dst: RegId,
    before: Seq<usize>,
    l: int,
    uses: Seq<usize>,
) -> bool {
    &&& 0 <= l < k
    &&& !c.nop(l)
    &&& c.body(l) == loop_trampoline::movq_text(types::reg_text(0, dst), types::reg_text(0, src))
    &&& before.len() <= uses.len()
    &&& forall|n: int| 0 <= n < before.len() ==> #[trigger] uses[n] == before[n]
    &&& forall|n: int| before.len() <= n < uses.len() ==> l < #[trigger] uses[n] < k && !c.nop(
        uses[n] as int,
    )
    &&& forall|n: int, x: int|
        before.len() <= n < x < uses.len() ==> #[trigger] uses[n] > #[trigger] uses[x]
    &&& forall|m: int|
        l < m < k && !c.nop(m) && !(c.kind(m) is Empty) ==> !(#[trigger] c.infos[m]).refs(dst)
            && !helpers::implicit_reg(c.body(m), src) && !helpers::implicit_reg(c.body(m), dst)
            && (uses.contains(m as usize) || !c.infos[m].refs(src))
}

proof fn lemma_find_copy(c: Code, k: int, src: RegId, dst: RegId, before: Seq<usize>)
    requires
        c.len() <= usize::MAX,
        k <= c.len(),
        forall|n: int| 0 <= n < before.len() ==> #[trigger] before[n] >= k,
    ensures
        loop_trampoline::find_copy(c, k, src, dst, before) matches Some((l, uses)) ==> found_copy(
            c,
            k,
            src,
            dst,
            before,
            l,
            uses,
        ),
    decreases k,
{
    if k > 0 {
        let m = k - 1;
        let more = before.push(m as usize);
        lemma_find_copy(c, m, src, dst, before);
        lemma_find_copy(c, m, src, dst, more);
        if let Some((l, uses)) = loop_trampoline::find_copy(c, k, src, dst, before) {
            if loop_trampoline::find_copy(c, m, src, dst, more) == Some((l, uses)) && !c.nop(m)
                && !(c.kind(m) is Empty) && found_copy(c, m, src, dst, more, l, uses) {
                assert(uses[before.len() as int] == more[before.len() as int]);
                assert(uses.contains(m as usize));
                assert forall|n: int| 0 <= n < before.len() implies #[trigger] uses[n]
                    == before[n] by {
                    assert(uses[n] == more[n]);
                }
                assert(found_copy(c, k, src, dst, before, l, uses));
            }
        }
    }
}

/// The lines that were renamed, and the others.
proof fn lemma_renamed_lines(
    c: Code,
    uses: Seq<usize>,
    n: nat,
    src: RegId,
    dst: RegId,
    m: int,
)
    requires
        c.texts.len() == c.infos.len(),
        c.len() <= usize::MAX,
        n <= uses.len(),
        0 <= m < c.len(),
        forall|x: int|
            0 <= x < uses.len() ==> (#[trigger] uses[x]) < c.len() && !c.nop(uses[x] as int)
                && starts_plainly(helpers::renamed(c.body(uses[x] as int), 0, src, dst)),
        forall|x: int, y: int|
            0 <= x < y < uses.len() ==> #[trigger] uses[x] > #[trigger] uses[y],
    ensures
        ({
            let d = loop_trampoline::rename_all(
                c,
                loop_trampoline::tagged(uses, src, dst),
                n,
            );
            &&& d.texts.len() == c.texts.len()
            &&& d.infos.len() == c.infos.len()
            &&& uses.take(n as int).contains(m as usize) ==> d.body(m) == helpers::renamed(
                c.body(m),
                0,
                src,
                dst,
            ) && !d.nop(m)
            &&& !uses.take(n as int).contains(m as usize) ==> d.texts[m] == c.texts[m] && d.infos[m]
                == c.infos[m]
        }),
    decreases n,
{
    if n > 0 {
        let tags = loop_trampoline::tagged(uses, src, dst);
        let before = loop_trampoline::rename_all(c, tags, (n - 1) as nat);
        let u = uses[n - 1] as int;
        assert(tags[n - 1] == (uses[n - 1], src, dst));
        lemma_renamed_lines(c, uses, (n - 1) as nat, src, dst, m);
        lemma_renamed_lines(c, uses, (n - 1) as nat, src, dst, u);
        let part = uses.take(n - 1);
        let all = uses.take(n as int);
        assert(!part.contains(u as usize)) by {
            if part.contains(u as usize) {
                let x = choose|x: int| 0 <= x < part.len() && part[x] == u as usize;
                assert(uses[x] > uses[n - 1]);
            }
        }
        assert(all.contains(m as usize) == (part.contains(m as usize) || m == u)) by {
            if part.contains(m as usize) {
                let x = choose|x: int| 0 <= x < part.len() && part[x] == m as usize;
                assert(all[x] == m as usize);
            }
            if m == u {
                assert(all[n - 1] == m as usize);
            }
            if all.contains(m as usize) {
                let x = choose|x: int| 0 <= x < all.len() && all[x] == m as usize;
                if x < n - 1 {
                    assert(part[x] == m as usize);
                }
            }
        }
        let text = helpers::renamed(c.body(u), 0, src, dst);
        assert(before.body(u) == c.body(u));
        equivalence::lemma_put_body(before, u, text);
        lemma_put_kind(text);
    }
}

/// In straight-line code `dest` can be written in place of every name of `temp`.
pub open spec fn renames_well(s: Seq<char>, temp: RegId, dest: RegId) -> bool {
    &&& machine::straight(s)
    &&& !helpers::names_family(helpers::renamed(s, 0, temp, dest), temp)
    &&& starts_plainly(helpers::renamed(s, 0, temp, dest))
}

/// Where the new value of a loop variable is computed in the variable's own register, the
/// loop finds there, behind the branch, what the move back would have put there, and all
/// else as it was but for the fresh register. This is said of one move, and of straight-line
/// code from the copy up to the branch in which every name of the fresh register can be
/// renamed.
pub proof fn law_coalesced_variable_keeps_state(
    p: Processor,
    lines: Map<u32, int>,
    c: Code,
    branch: int,
    src: RegId,
    dst: RegId,
    st: State,
)
    requires
        machine::sensible(p),
        c.faithful(),
        c.len() <= usize::MAX,
        0 <= branch < c.len(),
        helpers::movable(src),
        helpers::movable(dst),
        src != dst,
        loop_trampoline::coalescing(lines, c, branch, src, dst) is Some,
        st.wf(),
        ({
            let (l, uses) = loop_trampoline::coalescing(lines, c, branch, src, dst)->0;
            &&& machine::copied(c.body(l)) == Some((dst, src))
            &&& forall|m: int|
                l < m < branch && !(#[trigger] c.nop(m)) ==> renames_well(c.body(m), src, dst) && !(
                c.kind(m) is Empty)
        }),
    ensures
        ({
            let (l, uses) = loop_trampoline::coalescing(lines, c, branch, src, dst)->0;
            let d = loop_trampoline::rename_all(
                c.remove(l),
                loop_trampoline::tagged(uses, src, dst),
                uses.len(),
            );
            let old = machine::after_code(p, c, l, branch, st);
            machine::agree_but(
                machine::after_code(p, d, l, branch, st),
                old.with(dst, old.regs[src as int]),
                src,
            )
        }),
{
    let (l, uses) = loop_trampoline::coalescing(lines, c, branch, src, dst)->0;
    lemma_find_copy(c, branch, src, dst, Seq::empty());
    assert(found_copy(c, branch, src, dst, Seq::empty(), l, uses));
    let d0 = c.remove(l);
    let d = loop_trampoline::rename_all(
        d0,
        loop_trampoline::tagged(uses, src, dst),
        uses.len(),
    );
    assert forall|x: int| 0 <= x < uses.len() implies (#[trigger] uses[x]) < d0.len() && !d0.nop(
        uses[x] as int,
    ) && starts_plainly(helpers::renamed(d0.body(uses[x] as int), 0, src, dst)) by {
        let m = uses[x] as int;
        assert(!c.nop(m));
        assert(renames_well(c.body(m), src, dst));
        assert(d0.texts[m] == c.texts[m] && d0.infos[m] == c.infos[m]);
    }
    assert(uses.take(uses.len() as int) =~= uses);
    assert forall|m: int| l < m < branch implies #[trigger] line_uses(c, m, uses, src, dst) by {
        if !c.nop(m) {
            assert(renames_well(c.body(m), src, dst));
            types::lemma_faithful_line(c, m);
            reveal(machine::renamable);
            reveal(machine::untouched);
            assert(!c.infos[m].refs(dst));
        }
    }
    assert forall|m: int| l < m < branch implies #[trigger] line_renamed(
        c,
        d,
        m,
        uses,
        src,
        dst,
    ) by {
        lemma_renamed_lines(d0, uses, uses.len(), src, dst, m);
        assert(d0.texts[m] == c.texts[m] && d0.infos[m] == c.infos[m]);
        if uses.contains(m as usize) {
            let x = choose|x: int| 0 <= x < uses.len() && uses[x] == m as usize;
            assert(!c.nop(uses[x] as int));
        }
    }
    assert(!uses.contains(l as usize)) by {
        if uses.contains(l as usize) {
            let x = choose|x: int| 0 <= x < uses.len() && uses[x] == l as usize;
            assert(l < uses[x]);
        }
    }
    lemma_renamed_lines(d0, uses, uses.len(), src, dst, l);
    assert(d.nop(l));
    let o = p.run(c.body(l), st);
    machine::lemma_run_copies(p, c.body(l), st);
    assert(plays(o, st, src, dst));
    lemma_lines_played(p, c, d, l + 1, branch, uses, src, dst, o, st);
}

// ── Where the branch is not taken ───────────────────────────────────────────

/// The states are the same but for two registers.
pub open spec fn agree_but_two(s: State, t: State, a: RegId, b: RegId) -> bool {
    &&& s.wf() && t.wf()
    &&& s.flags == t.flags && s.rest == t.rest
    &&& forall|r: int| 0 <= r < 16 && r != a && r != b ==> #[trigger] s.regs[r] == t.regs[r]
}

/// Does nothing happen at line `m` but that the next line follows?
pub open spec fn passes(c: Code, m: int) -> bool {
    c.nop(m) || c.kind(m) is Empty || c.kind(m) is Label
}

/// The line that follows line `m`, and the number of jumps that were followed, `followed`
/// before: one that jumps to a numbered label is followed, up to twice. There is none after
/// other jumps, calls and returns.
pub open spec fn next_on_way(lines: Map<u32, int>, c: Code, m: int, followed: int) -> Option<
    (int, int),
> {
    if m < 0 || m >= c.len() {
        None
    } else if passes(c, m) {
        Some((m + 1, followed))
    } else if c.kind(m) is Jmp {
        match helpers::jump_number(c.body(m)) {
            Some(n) => if followed < 2 && lines.contains_key(n) {
                Some((lines[n] + 1, followed + 1))
            } else {
                None
            },
            None => None,
        }
    } else if machine::straight(c.body(m)) {
        Some((m + 1, followed))
    } else {
        None
    }
}

/// The line that is reached from line `m` in `n` steps, and the state there, if there are
/// so many.
pub open spec fn after_way(
    p: Processor,
    lines: Map<u32, int>,
    c: Code,
    m: int,
    followed: int,
    n: nat,
    st: State,
) -> Option<(int, State)>
    decreases n,
{
    if n == 0 {
        Some((m, st))
    } else {
        match next_on_way(lines, c, m, followed) {
            Some((k, f)) => after_way(
                p,
                lines,
                c,
                k,
                f,
                (n - 1) as nat,
                if passes(c, m) || c.kind(m) is Jmp {
                    st
                } else {
                    p.run(c.body(m), st)
                },
            ),
            None => None,
        }
    }
}

proof fn lemma_way_needs_neither(
    p: Processor,
    lines: Map<u32, int>,
    c: Code,
    m: int,
    followed: int,
    n: nat,
    a: RegId,
    b: RegId,
    s: State,
    t: State,
)
    requires
        machine::sensible(p),
        c.faithful(),
        helpers::movable(a),
        helpers::movable(b),
        forall|k: u32| #[trigger] lines.contains_key(k) ==> 0 <= lines[k] < c.len(),
        0 <= m <= c.len(),
        loop_trampoline::unread_after(lines, c, m, a, b, followed),
        agree_but_two(s, t, a, b),
        after_way(p, lines, c, m, followed, n, s) is Some,
    ensures
        after_way(p, lines, c, m, followed, n, t) is Some,
        ({
            let (k, x) = after_way(p, lines, c, m, followed, n, s)->0;
            let (l, y) = after_way(p, lines, c, m, followed, n, t)->0;
            &&& k == l && 0 <= k <= c.len()
            &&& agree_but_two(x, y, a, b)
            &&& k < c.len() && !passes(c, k) && c.kind(k) is Ret ==> x.regs[0] == y.regs[0]
        }),
    decreases n,
{
    if n > 0 {
        let (k, f) = next_on_way(lines, c, m, followed)->0;
        if passes(c, m) || c.kind(m) is Jmp {
            lemma_way_needs_neither(p, lines, c, k, f, (n - 1) as nat, a, b, s, t);
        } else {
            types::lemma_faithful_line(c, m);
            reveal(machine::straight);
            reveal(machine::untouched);
            let x = t.regs[a as int];
            let y = t.regs[b as int];
            let mid = s.with(a, x);
            assert(t =~= mid.with(b, y)) by {
                assert(t.regs =~= mid.with(b, y).regs);
            }
            machine::lemma_run_ignores(p, c.body(m), a, s, x);
            machine::lemma_run_ignores(p, c.body(m), b, mid, y);
            lemma_way_needs_neither(
                p,
                lines,
                c,
                k,
                f,
                (n - 1) as nat,
                a,
                b,
                p.run(c.body(m), s),
                p.run(c.body(m), t),
            );
        }
    }
}

/// Where the branch behind a coalesced variable is not taken, what the variable's register
/// and the fresh register hold does not matter: from the line behind the branch on, step by
/// step, all else is the same whatever they hold, and a return gives back the same. The way
/// is followed over straight-line code and two jumps.
pub proof fn law_untaken_branch_needs_neither(
    p: Processor,
    lines: Map<u32, int>,
    c: Code,
    branch: int,
    src: RegId,
    dst: RegId,
    n: nat,
    s: State,
    t: State,
)
    requires
        machine::sensible(p),
        c.faithful(),
        0 <= branch < c.len(),
        helpers::movable(src),
        helpers::movable(dst),
        forall|k: u32| #[trigger] lines.contains_key(k) ==> 0 <= lines[k] < c.len(),
        loop_trampoline::coalescing(lines, c, branch, src, dst) is Some,
        agree_but_two(s, t, src, dst),
        after_way(p, lines, c, branch + 1, 0, n, s) is Some,
    ensures
        after_way(p, lines, c, branch + 1, 0, n, t) is Some,
        ({
            let (k, x) = after_way(p, lines, c, branch + 1, 0, n, s)->0;
            let (l, y) = after_way(p, lines, c, branch + 1, 0, n, t)->0;
            &&& k == l
            &&& agree_but_two(x, y, src, dst)
            &&& k < c.len() && !passes(c, k) && c.kind(k) is Ret ==> x.regs[0] == y.regs[0]
        }),
{
    assert(agree_but_two(s, t, dst, src));
    lemma_way_needs_neither(p, lines, c, branch + 1, 0, n, dst, src, s, t);
    let (k, x) = after_way(p, lines, c, branch + 1, 0, n, s)->0;
    let (l, y) = after_way(p, lines, c, branch + 1, 0, n, t)->0;
    assert(agree_but_two(x, y, src, dst));
}

// ── The whole block ─────────────────────────────────────────────────────────

proof fn lemma_same_lines(p: Processor, c: Code, d: Code, k: int, end: int, st: State)
    requires
        forall|m: int|
            k <= m < end ==> (#[trigger] d.infos[m]) == c.infos[m] && d.texts[m] == c.texts[m],
    ensures
        machine::after_code(p, c, k, end, st) == machine::after_code(p, d, k, end, st),
    decreases end - k,
{
    if k < end {
        assert(d.infos[k] == c.infos[k] && d.texts[k] == c.texts[k]);
        assert(d.body(k) == c.body(k));
        assert forall|m: int| k + 1 <= m < end implies (#[trigger] d.infos[m]) == c.infos[m]
            && d.texts[m] == c.texts[m] by {}
        if c.nop(k) {
            lemma_same_lines(p, c, d, k + 1, end, st);
        } else {
            lemma_same_lines(p, c, d, k + 1, end, p.run(c.body(k), st));
        }
    }
}

/// The lines of a block come after line `from`, and exist.
proof fn lemma_block_lines(c: Code, j: int, t: Trampoline, from: int)
    requires
        c.len() <= usize::MAX,
        0 <= from < j,
        forall|n: int| 0 <= n < t.lines.len() ==> from < #[trigger] t.lines[n] < c.len(),
    ensures
        forall|n: int|
            0 <= n < loop_trampoline::trampoline_from(c, j, t).lines.len() ==> from
                < #[trigger] loop_trampoline::trampoline_from(c, j, t).lines[n] < c.len(),
    decreases c.len() - j,
{
    if j < c.len() {
        if c.nop(j) || c.kind(j) is Empty {
            lemma_block_lines(c, j + 1, t, from);
        } else {
            match loop_trampoline::block_move(c.body(j)) {
                Some(pair) => lemma_block_lines(
                    c,
                    j + 1,
                    Trampoline { moves: t.moves.push(pair), lines: t.lines.push(j as usize), ..t },
                    from,
                ),
                None => if loop_trampoline::loads_rax(c.kind(j)) {
                    match loop_trampoline::loaded_copy(c, j) {
                        Some(k) => lemma_block_lines(
                            c,
                            k + 1,
                            Trampoline {
                                lines: t.lines.push(j as usize).push(k as usize),
                                loads: t.loads + 1,
                                ..t
                            },
                            from,
                        ),
                        None => {},
                    }
                },
            }
        }
    }
}

proof fn lemma_removed_elsewhere(c: Code, lines: Seq<usize>, n: nat, m: int)
    requires
        n <= lines.len(),
        0 <= m,
        forall|q: int| 0 <= q < lines.len() ==> m < #[trigger] lines[q] < c.infos.len(),
    ensures
        ({
            let d = sweep::remove_first(c, lines, n);
            &&& d.texts == c.texts
            &&& d.infos[m] == c.infos[m]
            &&& d.infos.len() == c.infos.len()
        }),
    decreases n,
{
    if n > 0 {
        lemma_removed_elsewhere(c, lines, (n - 1) as nat, m);
        assert(m < lines[n - 1] < c.infos.len());
    }
}

// ── Several variables ───────────────────────────────────────────────────────

/// Line `l` copies `dst` to `src`, and from there up to the branch the lines in `uses`
/// use `src` in a way that `dst` can take over, while the others have nothing to do with
/// either.
#[verifier::opaque]
pub open spec fn ready(
    c: Code,
    branch: int,
    l: int,
    uses: Seq<usize>,
    src: RegId,
    dst: RegId,
) -> bool {
    &&& c.texts.len() == c.infos.len()
    &&& 0 <= l < branch < c.len()
    &&& !c.nop(l) && machine::copied(c.body(l)) == Some((dst, src))
    &&& helpers::movable(src) && helpers::movable(dst) && src != dst
    &&& forall|x: int| 0 <= x < uses.len() ==> l < #[trigger] uses[x] < branch && !c.nop(
        uses[x] as int,
    ) && starts_plainly(helpers::renamed(c.body(uses[x] as int), 0, src, dst))
    &&& forall|x: int, y: int|
        0 <= x < y < uses.len() ==> #[trigger] uses[x] > #[trigger] uses[y]
    &&& forall|m: int| l < m < branch ==> #[trigger] line_uses(c, m, uses, src, dst)
}

#[verifier::spinoff_prover]
proof fn lemma_one_variable(
    p: Processor,
    c: Code,
    branch: int,
    l: int,
    uses: Seq<usize>,
    src: RegId,
    dst: RegId,
    lo: int,
    st: State,
)
    requires
        machine::sensible(p),
        c.len() <= usize::MAX,
        ready(c, branch, l, uses, src, dst),
        0 <= lo <= l,
        st.wf(),
    ensures
        plays(
            machine::after_code(p, c, lo, branch, st),
            machine::after_code(
                p,
                loop_trampoline::rename_all(
                    c.remove(l),
                    loop_trampoline::tagged(uses, src, dst),
                    uses.len(),
                ),
                lo,
                branch,
                st,
            ),
            src,
            dst,
        ),
{
    reveal(ready);
    let d0 = c.remove(l);
    let d = loop_trampoline::rename_all(
        d0,
        loop_trampoline::tagged(uses, src, dst),
        uses.len(),
    );
    assert forall|x: int| 0 <= x < uses.len() implies (#[trigger] uses[x]) < d0.len() && !d0.nop(
        uses[x] as int,
    ) && starts_plainly(helpers::renamed(d0.body(uses[x] as int), 0, src, dst)) by {
        let m = uses[x] as int;
        assert(!c.nop(m));
        assert(d0.texts[m] == c.texts[m] && d0.infos[m] == c.infos[m]);
    }
    assert(uses.take(uses.len() as int) =~= uses);
    assert forall|m: int| l < m < branch implies #[trigger] line_renamed(
        c,
        d,
        m,
        uses,
        src,
        dst,
    ) by {
        lemma_renamed_lines(d0, uses, uses.len(), src, dst, m);
        assert(d0.texts[m] == c.texts[m] && d0.infos[m] == c.infos[m]);
        if uses.contains(m as usize) {
            let x = choose|x: int| 0 <= x < uses.len() && uses[x] == m as usize;
            assert(!c.nop(uses[x] as int));
        }
    }
    assert forall|m: int| 0 <= m <= l implies !uses.contains(#[trigger] (m as usize)) by {
        if uses.contains(m as usize) {
            let x = choose|x: int| 0 <= x < uses.len() && uses[x] == m as usize;
            assert(l < uses[x]);
        }
    }
    assert forall|m: int| lo <= m < l implies (#[trigger] d.infos[m]) == c.infos[m] && d.texts[m]
        == c.texts[m] by {
        lemma_renamed_lines(d0, uses, uses.len(), src, dst, m);
        assert(!uses.contains(m as usize));
        assert(d0.texts[m] == c.texts[m] && d0.infos[m] == c.infos[m]);
    }
    lemma_same_lines(p, c, d, lo, l, st);
    lemma_renamed_lines(d0, uses, uses.len(), src, dst, l);
    assert(!uses.contains(l as usize));
    assert(d.nop(l));
    machine::lemma_after_split(p, c, lo, l, branch, st);
    machine::lemma_after_split(p, d, lo, l, branch, st);
    let at = machine::after_code(p, c, lo, l, st);
    lemma_after_wf(p, c, lo, l, st);
    machine::lemma_run_copies(p, c.body(l), at);
    let o = p.run(c.body(l), at);
    assert(plays(o, at, src, dst));
    lemma_lines_played(p, c, d, l + 1, branch, uses, src, dst, o, at);
}

proof fn lemma_after_wf(p: Processor, c: Code, k: int, end: int, st: State)
    requires
        machine::sensible(p),
        st.wf(),
    ensures
        machine::after_code(p, c, k, end, st).wf(),
    decreases end - k,
{
    if k < end {
        if c.nop(k) {
            lemma_after_wf(p, c, k + 1, end, st);
        } else {
            machine::lemma_run_wf(p, c.body(k), st);
            lemma_after_wf(p, c, k + 1, end, p.run(c.body(k), st));
        }
    }
}

/// The lines after the first `n` moves of a block were undone.
#[verifier::opaque]
pub open spec fn undone(
    lines: Map<u32, int>,
    c: Code,
    branch: int,
    moves: Seq<(RegId, RegId)>,
    n: nat,
) -> Code {
    let plan = loop_trampoline::plan_for(lines, c, branch, moves, n);
    loop_trampoline::rename_all(
        sweep::remove_first(c, plan.copies, plan.copies.len()),
        plan.renames,
        plan.renames.len(),
    )
}

/// None of the first `n` renames is in line `l`.
pub open spec fn not_renamed(renames: Seq<(usize, RegId, RegId)>, l: int) -> bool {
    forall|x: int| 0 <= x < renames.len() ==> (#[trigger] renames[x]).0 != l
}

proof fn lemma_rename_agrees(
    c: Code,
    a: Seq<(usize, RegId, RegId)>,
    b: Seq<(usize, RegId, RegId)>,
    n: nat,
)
    requires
        n <= a.len(),
        n <= b.len(),
        forall|x: int| 0 <= x < n ==> #[trigger] a[x] == b[x],
    ensures
        loop_trampoline::rename_all(c, a, n) == loop_trampoline::rename_all(c, b, n),
    decreases n,
{
    if n > 0 {
        lemma_rename_agrees(c, a, b, (n - 1) as nat);
        assert(a[n - 1] == b[n - 1]);
    }
}

proof fn lemma_rename_parts(
    c: Code,
    a: Seq<(usize, RegId, RegId)>,
    b: Seq<(usize, RegId, RegId)>,
    n: nat,
)
    requires
        n <= b.len(),
    ensures
        loop_trampoline::rename_all(c, a + b, a.len() + n) == loop_trampoline::rename_all(
            loop_trampoline::rename_all(c, a, a.len()),
            b,
            n,
        ),
    decreases n,
{
    if n == 0 {
        lemma_rename_agrees(c, a + b, a, a.len());
    } else {
        lemma_rename_parts(c, a, b, (n - 1) as nat);
        assert((a + b)[a.len() + n - 1] == b[n - 1]);
    }
}

/// A line that is not renamed can as well be removed afterwards.
proof fn lemma_remove_later(
    c: Code,
    renames: Seq<(usize, RegId, RegId)>,
    n: nat,
    l: int,
)
    requires
        n <= renames.len(),
        c.texts.len() == c.infos.len(),
        0 <= l < c.len(),
        not_renamed(renames, l),
        forall|x: int| 0 <= x < renames.len() ==> (#[trigger] renames[x]).0 < c.len(),
    ensures
        loop_trampoline::rename_all(c.remove(l), renames, n) == loop_trampoline::rename_all(
            c,
            renames,
            n,
        ).remove(l),
        loop_trampoline::rename_all(c, renames, n).infos.len() == c.infos.len(),
        loop_trampoline::rename_all(c, renames, n).texts.len() == c.texts.len(),
    decreases n,
{
    if n > 0 {
        lemma_remove_later(c, renames, (n - 1) as nat, l);
        let x = loop_trampoline::rename_all(c, renames, (n - 1) as nat);
        let (u, from, to) = renames[n - 1];
        assert(renames[n - 1].0 != l && renames[n - 1].0 < c.len());
        let s = helpers::renamed(x.body(u as int), 0, from, to);
        assert(x.remove(l).body(u as int) == x.body(u as int));
        let line = "    "@ + s;
        assert(x.remove(l).put(u as int, line).infos =~= x.put(u as int, line).remove(l).infos);
        assert(x.remove(l).put(u as int, line).texts =~= x.put(u as int, line).remove(l).texts);
    }
}

/// What is asked of the first `n` moves: each can be undone, at the stage that those
/// before it lead to, from line `lo` on at the earliest, and no line that copies a
/// variable uses a fresh register of those.
#[verifier::opaque]
pub open spec fn all_ready(
    lines: Map<u32, int>,
    c: Code,
    branch: int,
    moves: Seq<(RegId, RegId)>,
    lo: int,
    n: nat,
) -> bool {
    forall|k: int|
        #![trigger moves[k]]
        0 <= k < n ==> {
            let (src, dst) = moves[k];
            let plan = loop_trampoline::plan_for(lines, c, branch, moves, k as nat);
            loop_trampoline::coalescing(lines, c, branch, src, dst) matches Some((l, uses)) && lo
                <= l && not_renamed(plan.renames, l) && ready(
                undone(lines, c, branch, moves, k as nat),
                branch,
                l,
                uses,
                src,
                dst,
            )
        }
}

/// No register occurs twice among the moves.
#[verifier::opaque]
pub open spec fn all_distinct(moves: Seq<(RegId, RegId)>) -> bool {
    &&& forall|k: int|
        0 <= k < moves.len() ==> (#[trigger] moves[k]).0 < 16 && moves[k].1 < 16 && moves[k].0
            != moves[k].1
    &&& forall|j: int, k: int|
        0 <= j < k < moves.len() ==> (#[trigger] moves[j]).0 != (#[trigger] moves[k]).0 && moves[j].0
            != moves[k].1 && moves[j].1 != moves[k].0 && moves[j].1 != moves[k].1
}

/// In the second state the destination of each of the first `n` moves holds what its source
/// holds in the first, and the registers of no move are the same.
#[verifier::opaque]
pub open spec fn play_all(o: State, s: State, moves: Seq<(RegId, RegId)>, n: nat) -> bool {
    &&& o.wf() && s.wf()
    &&& s.flags == o.flags && s.rest == o.rest
    &&& forall|k: int|
        0 <= k < n ==> s.regs[(#[trigger] moves[k]).1 as int] == o.regs[moves[k].0 as int]
    &&& forall|r: RegId|
        r < 16 && (forall|k: int|
            0 <= k < n ==> (#[trigger] moves[k]).0 != r && moves[k].1 != r)
            ==> #[trigger] s.regs[r as int] == o.regs[r as int]
}

/// The lines of the renames planned so far exist, and the lengths are kept.
proof fn lemma_plan_lines(
    lines: Map<u32, int>,
    c: Code,
    branch: int,
    moves: Seq<(RegId, RegId)>,
    lo: int,
    n: nat,
)
    requires
        n <= moves.len(),
        c.texts.len() == c.infos.len(),
        c.len() <= usize::MAX,
        0 <= branch < c.len(),
        0 <= lo,
        all_ready(lines, c, branch, moves, lo, n),
    ensures
        ({
            let plan = loop_trampoline::plan_for(lines, c, branch, moves, n);
            let x = sweep::remove_first(c, plan.copies, plan.copies.len());
            &&& plan.copies.len() == n
            &&& forall|q: int| 0 <= q < plan.renames.len() ==> (#[trigger] plan.renames[q]).0 < branch
            &&& forall|q: int| 0 <= q < plan.copies.len() ==> #[trigger] plan.copies[q] < branch
            &&& x.texts.len() == c.texts.len() && x.infos.len() == c.infos.len()
        }),
    decreases n,
{
    reveal(all_ready);
    reveal(ready);
    if n > 0 {
        assert(all_ready(lines, c, branch, moves, lo, (n - 1) as nat));
        lemma_plan_lines(lines, c, branch, moves, lo, (n - 1) as nat);
        let (src, dst) = moves[n - 1];
        let (l, uses) = loop_trampoline::coalescing(lines, c, branch, src, dst)->0;
        let before = loop_trampoline::plan_for(lines, c, branch, moves, (n - 1) as nat);
        let plan = loop_trampoline::plan_for(lines, c, branch, moves, n);
        let tags = loop_trampoline::tagged(uses, src, dst);
        assert forall|q: int| 0 <= q < plan.copies.len() implies #[trigger] plan.copies[q]
            < branch by {
            if q < n - 1 {
                assert(plan.copies[q] == before.copies[q]);
            }
        }
        assert forall|q: int| 0 <= q < plan.renames.len() implies (#[trigger] plan.renames[q]).0
            < branch by {
            if q < before.renames.len() {
                assert(plan.renames[q] == before.renames[q]);
            } else {
                assert(plan.renames[q] == tags[q - before.renames.len()]);
                assert(uses[q - before.renames.len()] < branch);
            }
        }
        lemma_remove_agrees(c, plan.copies, before.copies, (n - 1) as nat);
    }
}

proof fn lemma_remove_agrees(c: Code, a: Seq<usize>, b: Seq<usize>, n: nat)
    requires
        n <= a.len(),
        n <= b.len(),
        forall|x: int| 0 <= x < n ==> #[trigger] a[x] == b[x],
    ensures
        sweep::remove_first(c, a, n) == sweep::remove_first(c, b, n),
    decreases n,
{
    if n > 0 {
        lemma_remove_agrees(c, a, b, (n - 1) as nat);
        assert(a[n - 1] == b[n - 1]);
    }
}

/// Undoing one move more.
proof fn lemma_undone_step(
    lines: Map<u32, int>,
    c: Code,
    branch: int,
    moves: Seq<(RegId, RegId)>,
    lo: int,
    n: nat,
)
    requires
        0 < n <= moves.len(),
        c.texts.len() == c.infos.len(),
        c.len() <= usize::MAX,
        0 <= branch < c.len(),
        0 <= lo,
        all_ready(lines, c, branch, moves, lo, n),
    ensures
        ({
            let (src, dst) = moves[n - 1];
            let (l, uses) = loop_trampoline::coalescing(lines, c, branch, src, dst)->0;
            undone(lines, c, branch, moves, n) == loop_trampoline::rename_all(
                undone(lines, c, branch, moves, (n - 1) as nat).remove(l),
                loop_trampoline::tagged(uses, src, dst),
                uses.len(),
            )
        }),
{
    reveal(all_ready);
    reveal(ready);
    reveal(undone);
    let (src, dst) = moves[n - 1];
    let (l, uses) = loop_trampoline::coalescing(lines, c, branch, src, dst)->0;
    let before = loop_trampoline::plan_for(lines, c, branch, moves, (n - 1) as nat);
    let plan = loop_trampoline::plan_for(lines, c, branch, moves, n);
    let tags = loop_trampoline::tagged(uses, src, dst);
    assert(all_ready(lines, c, branch, moves, lo, (n - 1) as nat));
    lemma_plan_lines(lines, c, branch, moves, lo, (n - 1) as nat);
    let x = sweep::remove_first(c, before.copies, before.copies.len());
    lemma_remove_agrees(c, plan.copies, before.copies, (n - 1) as nat);
    assert(sweep::remove_first(c, plan.copies, plan.copies.len()) == x.remove(l));
    assert(plan.renames == before.renames + tags);
    lemma_rename_parts(x.remove(l), before.renames, tags, tags.len());
    lemma_remove_later(x, before.renames, before.renames.len(), l);
}

proof fn lemma_play_more(o: State, mid: State, end: State, moves: Seq<(RegId, RegId)>, n: nat)
    requires
        0 < n <= moves.len(),
        all_distinct(moves),
        play_all(o, mid, moves, (n - 1) as nat),
        plays(mid, end, moves[n - 1].0, moves[n - 1].1),
    ensures
        play_all(o, end, moves, n),
{
    reveal(all_distinct);
    reveal(play_all);
    let (src, dst) = moves[n - 1];
    assert(src < 16 && dst < 16);
    assert forall|k: int| 0 <= k < n - 1 implies (#[trigger] moves[k]).0 != src && moves[k].1
        != src by {
        assert(moves[k].0 != moves[n - 1].0);
    }
    assert(mid.regs[src as int] == o.regs[src as int]);
    assert forall|k: int| 0 <= k < n implies end.regs[(#[trigger] moves[k]).1 as int]
        == o.regs[moves[k].0 as int] by {
        if k < n - 1 {
            assert(moves[k].1 != moves[n - 1].0 && moves[k].1 != moves[n - 1].1);
            assert(end.regs[moves[k].1 as int] == mid.regs[moves[k].1 as int]);
        }
    }
    assert forall|r: RegId|
        r < 16 && (forall|k: int|
            0 <= k < n ==> (#[trigger] moves[k]).0 != r && moves[k].1 != r) implies #[trigger] end.regs[r as int]
        == o.regs[r as int] by {
        assert(moves[n - 1].0 != r && moves[n - 1].1 != r);
        assert(end.regs[r as int] == mid.regs[r as int]);
    }
}

/// Where several moves of a block are undone, the code up to the branch leaves in the
/// destination of each move what the move would have put there, and all registers but
/// those of the moves as they were. What is asked of a move alone is asked of each at the
/// stage that those before it lead to, and no register occurs twice.
pub proof fn law_coalesced_variables_keep_state(
    p: Processor,
    lines: Map<u32, int>,
    c: Code,
    branch: int,
    moves: Seq<(RegId, RegId)>,
    lo: int,
    n: nat,
    st: State,
)
    requires
        machine::sensible(p),
        c.texts.len() == c.infos.len(),
        c.len() <= usize::MAX,
        0 <= lo <= branch < c.len(),
        n <= moves.len(),
        all_distinct(moves),
        all_ready(lines, c, branch, moves, lo, n),
        st.wf(),
    ensures
        play_all(
            machine::after_code(p, c, lo, branch, st),
            machine::after_code(p, undone(lines, c, branch, moves, n), lo, branch, st),
            moves,
            n,
        ),
    decreases n,
{
    let o = machine::after_code(p, c, lo, branch, st);
    lemma_after_wf(p, c, lo, branch, st);
    if n == 0 {
        assert(undone(lines, c, branch, moves, 0) == c) by {
            reveal(undone);
        }
        reveal(play_all);
    } else {
        lemma_ready_at(lines, c, branch, moves, lo, n);
        law_coalesced_variables_keep_state(p, lines, c, branch, moves, lo, (n - 1) as nat, st);
        lemma_undone_step(lines, c, branch, moves, lo, n);
        let (src, dst) = moves[n - 1];
        let (l, uses) = loop_trampoline::coalescing(lines, c, branch, src, dst)->0;
        let d = undone(lines, c, branch, moves, (n - 1) as nat);
        lemma_one_variable(p, d, branch, l, uses, src, dst, lo, st);
        let mid = machine::after_code(p, d, lo, branch, st);
        let end = machine::after_code(
            p,
            undone(lines, c, branch, moves, n),
            lo,
            branch,
            st,
        );
        lemma_play_more(o, mid, end, moves, n);
    }
}

/// The last of the moves can be undone, and so can those before it.
proof fn lemma_ready_at(
    lines: Map<u32, int>,
    c: Code,
    branch: int,
    moves: Seq<(RegId, RegId)>,
    lo: int,
    n: nat,
)
    requires
        0 < n <= moves.len(),
        c.texts.len() == c.infos.len(),
        c.len() <= usize::MAX,
        0 <= branch < c.len(),
        0 <= lo,
        all_ready(lines, c, branch, moves, lo, n),
    ensures
        all_ready(lines, c, branch, moves, lo, (n - 1) as nat),
        ({
            let (src, dst) = moves[n - 1];
            let d = undone(lines, c, branch, moves, (n - 1) as nat);
            &&& loop_trampoline::coalescing(lines, c, branch, src, dst) matches Some((l, uses))
                && lo <= l && ready(d, branch, l, uses, src, dst)
            &&& d.len() == c.len()
        }),
{
    assert(all_ready(lines, c, branch, moves, lo, (n - 1) as nat)) by {
        reveal(all_ready);
    }
    let (src, dst) = moves[n - 1];
    let found = loop_trampoline::coalescing(lines, c, branch, src, dst);
    let plan = loop_trampoline::plan_for(lines, c, branch, moves, (n - 1) as nat);
    assert(found is Some && lo <= found->Some_0.0 && not_renamed(plan.renames, found->Some_0.0)
        && ready(
        undone(lines, c, branch, moves, (n - 1) as nat),
        branch,
        found->Some_0.0,
        found->Some_0.1,
        src,
        dst,
    )) by {
        reveal(all_ready);
    }
    lemma_plan_lines(lines, c, branch, moves, lo, (n - 1) as nat);
    let x = sweep::remove_first(c, plan.copies, plan.copies.len());
    assert(found->Some_0.0 < c.len()) by {
        lemma_find_copy(c, branch, src, dst, Seq::empty());
    }
    lemma_remove_later(x, plan.renames, plan.renames.len(), found->Some_0.0);
    reveal(undone);
}

/// Renaming and removing other lines leaves a line as it is.
proof fn lemma_line_kept(
    c: Code,
    copies: Seq<usize>,
    renames: Seq<(usize, RegId, RegId)>,
    n: nat,
    m: int,
)
    requires
        n <= renames.len(),
        c.texts.len() == c.infos.len(),
        0 <= m < c.len(),
        forall|q: int| 0 <= q < copies.len() ==> #[trigger] copies[q] < m,
        forall|q: int| 0 <= q < renames.len() ==> (#[trigger] renames[q]).0 < m,
    ensures
        ({
            let d = loop_trampoline::rename_all(
                sweep::remove_first(c, copies, copies.len()),
                renames,
                n,
            );
            &&& d.infos[m] == c.infos[m] && d.texts[m] == c.texts[m]
            &&& d.infos.len() == c.infos.len() && d.texts.len() == c.texts.len()
        }),
    decreases n,
{
    if n > 0 {
        lemma_line_kept(c, copies, renames, (n - 1) as nat, m);
        assert(renames[n - 1].0 < m);
    } else {
        lemma_line_stays(c, copies, copies.len(), m);
    }
}

proof fn lemma_line_stays(c: Code, copies: Seq<usize>, n: nat, m: int)
    requires
        n <= copies.len(),
        0 <= m < c.infos.len(),
        forall|q: int| 0 <= q < copies.len() ==> #[trigger] copies[q] < m,
    ensures
        sweep::remove_first(c, copies, n).infos[m] == c.infos[m],
        sweep::remove_first(c, copies, n).texts == c.texts,
        sweep::remove_first(c, copies, n).infos.len() == c.infos.len(),
    decreases n,
{
    if n > 0 {
        lemma_line_stays(c, copies, (n - 1) as nat, m);
        assert(copies[n - 1] < m);
    }
}

/// Where a block is bypassed that does nothing but move loop variables back, the code up to
/// the branch leaves in each variable's register what the block would have moved there,
/// and the branch goes where the block ended. The block stands behind the branch, and its
/// moves are as for several variables.
pub proof fn law_bypassed_block_keeps_state(
    p: Processor,
    lines: Map<u32, int>,
    c: Code,
    label: int,
    branch: int,
    lo: int,
    st: State,
)
    requires
        machine::sensible(p),
        c.texts.len() == c.infos.len(),
        c.len() <= usize::MAX,
        0 <= lo <= branch < label < c.len(),
        st.wf(),
        loop_trampoline::trampoline_at(c, label).loads == 0,
        loop_trampoline::trampoline_step(lines, c, label, branch) is Some,
        text::split(c.body(branch), " "@) matches Some((op, _)) && starts_plainly(op),
        all_distinct(loop_trampoline::trampoline_at(c, label).moves),
        all_ready(
            lines,
            c,
            branch,
            loop_trampoline::trampoline_at(c, label).moves,
            lo,
            loop_trampoline::trampoline_at(c, label).moves.len(),
        ),
    ensures
        ({
            let d = loop_trampoline::trampoline_step(lines, c, label, branch)->0;
            let t = loop_trampoline::trampoline_at(c, label);
            let op = text::split(c.body(branch), " "@)->Some_0.0;
            &&& play_all(
                machine::after_code(p, c, lo, branch, st),
                machine::after_code(p, d, lo, branch, st),
                t.moves,
                t.moves.len(),
            )
            &&& d.body(branch) == op + " "@ + helpers::dotl(t.target->0)
        }),
{
    let t = loop_trampoline::trampoline_at(c, label);
    let n = t.moves.len();
    let plan = loop_trampoline::plan_for(lines, c, branch, t.moves, n);
    lemma_plan_lines(lines, c, branch, t.moves, lo, n);
    law_coalesced_variables_keep_state(p, lines, c, branch, t.moves, lo, n, st);
    let d1 = undone(lines, c, branch, t.moves, n);
    lemma_block_lines(
        c,
        label + 1,
        Trampoline { moves: Seq::empty(), lines: Seq::empty(), loads: 0, target: None },
        label,
    );
    assert(d1.body(branch) == c.body(branch) && d1.infos.len() == c.infos.len() && d1.texts.len()
        == c.texts.len()) by {
        reveal(undone);
        lemma_line_kept(c, plan.copies, plan.renames, plan.renames.len(), branch);
    }
    let e = sweep::remove_first(d1, t.lines, t.lines.len()).remove(label);
    assert forall|m: int| lo <= m <= branch implies (#[trigger] e.infos[m]) == d1.infos[m]
        && e.texts[m] == d1.texts[m] by {
        assert forall|q: int| 0 <= q < t.lines.len() implies m < #[trigger] t.lines[q]
            < d1.infos.len() by {}
        lemma_removed_elsewhere(d1, t.lines, t.lines.len(), m);
    }
    lemma_removed_elsewhere(d1, t.lines, t.lines.len(), branch);
    assert(e.body(branch) == c.body(branch)) by {
        assert(e.infos[branch] == d1.infos[branch]);
    }
    let op = text::split(c.body(branch), " "@)->Some_0.0;
    let line = op + " "@ + helpers::dotl(t.target->0);
    assert("    "@ + op + " "@ + helpers::dotl(t.target->0) =~= "    "@ + line);
    let d = e.put(branch, "    "@ + line);
    assert(loop_trampoline::trampoline_step(lines, c, label, branch) == Some(d)) by {
        reveal(undone);
    }
    assert(line[0] == op[0]);
    equivalence::lemma_put_body(e, branch, line);
    lemma_same_lines(p, d1, d, lo, branch, st);
}

} // verus!
