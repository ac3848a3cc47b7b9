//! What the moves of join blocks do to registers, and that composing them keeps it.

use vstd::prelude::*;

use super::equivalence;
use super::helpers;
use super::join_blocks;
use super::join_blocks::{Chain, Value, Values};
use super::text;
use super::types;
use super::types::{Code, RegId, REG_NONE};

verus! {

// ── Registers ───────────────────────────────────────────────────────────────

/// The sum of two registers.
pub open spec fn sum(a: u64, b: u64) -> u64 {
    ((a + b) % 0x1_0000_0000_0000_0000) as u64
}

/// The low half of a value.
pub open spec fn low(v: u64) -> u64 {
    v & 0xFFFF_FFFF
}

/// Immediates are worth what they say, as far as it matters: zero is zero, and a number of
/// 31 bits has no more.
pub open spec fn plain_immediates(imm: spec_fn(Seq<char>) -> u64) -> bool {
    &&& imm("$0"@) == 0
    &&& forall|t: Seq<char>| #[trigger] join_blocks::is_small(t) ==> imm("$"@ + t) <= 0x7FFF_FFFF
}

/// The registers after a move or an addition. Immediates are worth what `imm` says.
pub open spec fn executed(
    regs: Seq<u64>,
    s: Seq<char>,
    imm: spec_fn(Seq<char>) -> u64,
) -> Seq<u64> {
    match join_blocks::reg_copy(s) {
        Some((src, dst)) => regs.update(dst as int, regs[src as int]),
        None => match join_blocks::imm_move(s) {
            Some((a, dst)) => regs.update(dst as int, imm("$"@ + a)),
            None => match join_blocks::cleared(s) {
                Some(dst) => regs.update(dst as int, 0u64),
                None => match join_blocks::low_copy(s) {
                    Some((src, dst)) => regs.update(dst as int, low(regs[src as int])),
                    None => match join_blocks::addition(s) {
                        Some((a, dst)) => regs.update(
                            dst as int,
                            sum(regs[dst as int], imm("$"@ + a)),
                        ),
                        None => regs,
                    },
                },
            },
        },
    }
}

/// The registers after the first `n` of some lines.
pub open spec fn after_lines(
    regs: Seq<u64>,
    lines: Seq<Seq<char>>,
    n: nat,
    imm: spec_fn(Seq<char>) -> u64,
) -> Seq<u64>
    decreases n,
{
    if n == 0 {
        regs
    } else {
        executed(after_lines(regs, lines, (n - 1) as nat, imm), text::trim(lines[n - 1]), imm)
    }
}

// ── Texts ───────────────────────────────────────────────────────────────────

/// Without white space and commas.
spec fn plain(s: Seq<char>) -> bool {
    forall|i: int| 0 <= i < s.len() ==> !text::is_space(#[trigger] s[i]) && s[i] != ','
}

proof fn lemma_reg_text(size: usize, fam: RegId)
    requires
        size < 2,
        fam < 16,
    ensures
        types::reg_text(size, fam).len() >= 3,
        types::reg_text(size, fam)[0] == '%',
        plain(types::reg_text(size, fam)),
        types::family_of_name(types::reg_text(size, fam).skip(1)) == fam,
{
    equivalence::lemma_name(size, fam);
    let t = types::reg_text(size, fam);
    assert forall|i: int| 0 <= i < t.len() implies !text::is_space(#[trigger] t[i]) && t[i]
        != ',' by {
        if i > 0 {
            assert(helpers::is_name_char(t[i]));
        }
    }
}

/// Text that starts and ends with other characters has no white space to trim.
proof fn lemma_trim_none(s: Seq<char>)
    requires
        s.len() > 0 ==> !text::is_space(s[0]) && !text::is_space(s.last()),
    ensures
        text::trim(s) == s,
{
}

proof fn lemma_trim_indent(s: Seq<char>)
    requires
        s.len() > 0,
        !text::is_space(s[0]),
        !text::is_space(s.last()),
    ensures
        text::trim("    "@ + s) == s,
{
    reveal_strlit("    ");
    let whole = "    "@ + s;
    assert(whole.skip(1).skip(1).skip(1).skip(1) =~= s);
    assert(whole[0] == ' ' && whole.skip(1)[0] == ' ' && whole.skip(1).skip(1)[0] == ' '
        && whole.skip(1).skip(1).skip(1)[0] == ' ');
    reveal_with_fuel(text::trim_left, 6);
    assert(text::trim_left(whole) == s);
}

/// The first `, %` is where it was put, if what comes before holds none.
#[verifier::spinoff_prover]
#[verifier::rlimit(40)]
proof fn lemma_split(a: Seq<char>, b: Seq<char>)
    requires
        !text::has(a, ", %"@),
    ensures
        text::split(a + ", %"@ + b, ", %"@) == Some((a, b)),
{
    reveal_strlit(", %");
    let sep = ", %"@;
    let whole = a + sep + b;
    let n = a.len() as int;
    assert(whole.subrange(n, n + 3) =~= sep);
    assert(text::occurs_at(whole, sep, n));
    text::lemma_first_at(whole, sep, 0);
    assert forall|j: int| 0 <= j < n implies !text::occurs_at(whole, sep, j) by {
        if text::occurs_at(whole, sep, j) {
            let part = whole.subrange(j, j + 3);
            assert(part[0] == ',' && part[1] == ' ' && part[2] == '%');
            if j + 3 <= n {
                assert(a.subrange(j, j + 3) =~= part);
                assert(text::occurs_at(a, sep, j));
            } else if j + 2 == n {
                assert(part[2] == whole[n] && whole[n] == ',');
            } else {
                assert(part[1] == whole[n] && whole[n] == ',');
            }
        }
    }
    assert(text::first_at(whole, sep, 0) == Some(n));
    assert(whole.take(n) =~= a);
    assert(whole.skip(n + 3) =~= b);
}

/// What comes before the first `, %` holds none.
proof fn lemma_before_split(s: Seq<char>)
    ensures
        text::split(s, ", %"@) matches Some((a, _)) ==> !text::has(a, ", %"@),
{
    let sep = ", %"@;
    text::lemma_first_at(s, sep, 0);
    if let Some((a, _)) = text::split(s, sep) {
        if text::has(a, sep) {
            let j = choose|j: int| text::occurs_at(a, sep, j);
            assert(text::occurs_at(a, sep, j));
            let k = text::first_at(s, sep, 0)->0;
            assert(s.subrange(j, j + sep.len()) =~= a.subrange(j, j + sep.len()));
            assert(text::occurs_at(s, sep, j));
            reveal_strlit(", %");
            assert(j < k);
        }
    }
}

proof fn lemma_plain_has_none(s: Seq<char>)
    requires
        plain(s),
    ensures
        !text::has(s, ", %"@),
{
    reveal_strlit(", %");
    if text::has(s, ", %"@) {
        let j = choose|j: int| text::occurs_at(s, ", %"@, j);
        assert(text::occurs_at(s, ", %"@, j));
        assert(s.subrange(j, j + 3)[0] == s[j]);
    }
}

/// The operands of an instruction that was put together.
proof fn lemma_parts(start: Seq<char>, a: Seq<char>, name: Seq<char>)
    requires
        !text::has(a, ", %"@),
        plain(name),
        types::family_of_name(name) != REG_NONE,
    ensures
        join_blocks::parts(start + a + ", %"@ + name, start) == Some((a, types::family_of_name(name))),
{
    let whole = start + a + ", %"@ + name;
    assert(start.is_prefix_of(whole)) by {
        assert(whole.take(start.len() as int) =~= start);
    }
    assert(whole.skip(start.len() as int) =~= a + ", %"@ + name);
    lemma_split(a, name);
    lemma_trim_none(name);
}

/// Texts that differ in one of their first six characters do not start alike.
proof fn lemma_other_start(s: Seq<char>, p: Seq<char>, q: Seq<char>, i: int)
    requires
        p.len() == 6,
        q.len() == 6,
        0 <= i < 6,
        p[i] != q[i],
        p.is_prefix_of(s),
    ensures
        !q.is_prefix_of(s),
{
    assert(s.subrange(0, 6)[i] == p[i]);
    if q.is_prefix_of(s) {
        assert(s.subrange(0, 6)[i] == q[i]);
    }
}

/// A text that starts with one of the known starts starts with no other.
proof fn lemma_one_start(s: Seq<char>)
    ensures
        "movq $"@.is_prefix_of(s) ==> !"movq %"@.is_prefix_of(s),
        "movl $"@.is_prefix_of(s) ==> !"movq %"@.is_prefix_of(s) && !"movq $"@.is_prefix_of(s),
        "xorl %"@.is_prefix_of(s) ==> !"movq %"@.is_prefix_of(s) && !"movq $"@.is_prefix_of(s)
            && !"movl $"@.is_prefix_of(s),
        "movl %"@.is_prefix_of(s) ==> !"movq %"@.is_prefix_of(s) && !"movq $"@.is_prefix_of(s)
            && !"movl $"@.is_prefix_of(s) && !"xorl %"@.is_prefix_of(s),
        "addq $"@.is_prefix_of(s) || "subq $"@.is_prefix_of(s) ==> !"movq %"@.is_prefix_of(s)
            && !"movq $"@.is_prefix_of(s) && !"movl $"@.is_prefix_of(s) && !"xorl %"@.is_prefix_of(
            s,
        ) && !"movl %"@.is_prefix_of(s),
{
    reveal_strlit("movq $");
    reveal_strlit("movq %");
    reveal_strlit("movl $");
    reveal_strlit("movl %");
    reveal_strlit("xorl %");
    reveal_strlit("addq $");
    reveal_strlit("subq $");
    assert("movq $"@[0] == 'm' && "movq $"@[3] == 'q' && "movq $"@[5] == '$');
    assert("movq %"@[0] == 'm' && "movq %"@[3] == 'q' && "movq %"@[5] == '%');
    assert("movl $"@[0] == 'm' && "movl $"@[3] == 'l' && "movl $"@[5] == '$');
    assert("movl %"@[0] == 'm' && "movl %"@[3] == 'l' && "movl %"@[5] == '%');
    assert("xorl %"@[0] == 'x' && "addq $"@[0] == 'a' && "subq $"@[0] == 's');
    if "movq $"@.is_prefix_of(s) {
        lemma_other_start(s, "movq $"@, "movq %"@, 5);
    }
    if "movl $"@.is_prefix_of(s) {
        lemma_other_start(s, "movl $"@, "movq %"@, 3);
        lemma_other_start(s, "movl $"@, "movq $"@, 3);
    }
    if "xorl %"@.is_prefix_of(s) {
        lemma_other_start(s, "xorl %"@, "movq %"@, 0);
        lemma_other_start(s, "xorl %"@, "movq $"@, 0);
        lemma_other_start(s, "xorl %"@, "movl $"@, 0);
    }
    if "movl %"@.is_prefix_of(s) {
        lemma_other_start(s, "movl %"@, "movq %"@, 3);
        lemma_other_start(s, "movl %"@, "movq $"@, 3);
        lemma_other_start(s, "movl %"@, "movl $"@, 5);
        lemma_other_start(s, "movl %"@, "xorl %"@, 0);
    }
    if "addq $"@.is_prefix_of(s) {
        lemma_other_start(s, "addq $"@, "movq %"@, 0);
        lemma_other_start(s, "addq $"@, "movq $"@, 0);
        lemma_other_start(s, "addq $"@, "movl $"@, 0);
        lemma_other_start(s, "addq $"@, "xorl %"@, 0);
        lemma_other_start(s, "addq $"@, "movl %"@, 0);
    }
    if "subq $"@.is_prefix_of(s) {
        lemma_other_start(s, "subq $"@, "movq %"@, 0);
        lemma_other_start(s, "subq $"@, "movq $"@, 0);
        lemma_other_start(s, "subq $"@, "movl $"@, 0);
        lemma_other_start(s, "subq $"@, "xorl %"@, 0);
        lemma_other_start(s, "subq $"@, "movl %"@, 0);
    }
}

// ── Following the moves ─────────────────────────────────────────────────────

/// What a value is worth, with the registers that were there before. A register of
/// which nothing is known holds what it held.
pub open spec fn worth(
    v: Option<Value>,
    reg: RegId,
    regs: Seq<u64>,
    imm: spec_fn(Seq<char>) -> u64,
) -> u64 {
    match v {
        Some(Value::Reg(src)) => regs[src as int],
        Some(Value::Low(src)) => low(regs[src as int]),
        Some(Value::Literal(t)) => imm(t),
        None => regs[reg as int],
    }
}

/// The literals are immediates, and the registers exist.
spec fn sensible(m: Values) -> bool {
    &&& m.len() == 16
    &&& forall|r: int| 0 <= r < 16 ==> sound(#[trigger] m[r])
}

spec fn sound(v: Option<Value>) -> bool {
    match v {
        Some(Value::Reg(src)) => src < 16,
        Some(Value::Low(src)) => src < 16,
        Some(Value::Literal(t)) => exists|a: Seq<char>|
            t == #[trigger] ("$"@ + a) && !text::has(a, ", %"@),
        None => true,
    }
}

proof fn lemma_zero_is_immediate()
    ensures
        sound(Some(Value::Literal("$0"@))),
{
    reveal_strlit("$0");
    reveal_strlit("$");
    reveal_strlit("0");
    assert("$0"@ =~= "$"@ + "0"@);
    lemma_plain_has_none("0"@);
}

/// The operands of an instruction: the second is a register, and the first holds no
/// separator.
proof fn lemma_parts_sound(s: Seq<char>, start: Seq<char>)
    ensures
        join_blocks::parts(s, start) matches Some((a, d)) ==> d < 16 && !text::has(a, ", %"@),
        join_blocks::reg_parts(s, start) matches Some((x, d)) ==> x < 16 && d < 16,
{
    if let Some(rest) = text::after(s, start) {
        lemma_before_split(rest);
        if let Some((a, b)) = text::split(rest, ", %"@) {
            types::lemma_family_range(a);
            types::lemma_family_range(text::trim(b));
        }
    }
}

/// The values are what the registers hold, given what they held after the additions.
spec fn holds(
    m: Values,
    base: Seq<u64>,
    now: Seq<u64>,
    imm: spec_fn(Seq<char>) -> u64,
) -> bool {
    &&& now.len() == 16 && base.len() == 16
    &&& forall|r: RegId| r < 16 ==> now[r as int] == worth(#[trigger] m[r as int], r, base, imm)
}

/// The low half of a value that can be told is worth that.
proof fn lemma_halved(v: Value, base: Seq<u64>, reg: RegId, imm: spec_fn(Seq<char>) -> u64)
    requires
        sound(Some(v)),
        plain_immediates(imm),
        join_blocks::halved(v) is Some,
    ensures
        sound(join_blocks::halved(v)),
        worth(join_blocks::halved(v), reg, base, imm) == low(worth(Some(v), reg, base, imm)),
{
    match v {
        Value::Reg(src) => {},
        Value::Low(src) => {
            let x = base[src as int];
            assert(x & 0xFFFF_FFFF & 0xFFFF_FFFF == x & 0xFFFF_FFFF) by (bit_vector);
        },
        Value::Literal(t) => {
            reveal_strlit("$");
            let a = choose|a: Seq<char>| t == #[trigger] ("$"@ + a) && !text::has(a, ", %"@);
            assert(t.skip(1) =~= a);
            let x = imm(t);
            assert(x <= 0x7FFF_FFFF ==> x & 0xFFFF_FFFF == x) by (bit_vector);
        },
    }
}

proof fn lemma_move_keeps(
    m: Values,
    s: Seq<char>,
    base: Seq<u64>,
    now: Seq<u64>,
    imm: spec_fn(Seq<char>) -> u64,
)
    requires
        sensible(m),
        join_blocks::is_move(s),
        join_blocks::can_follow(m, s),
        plain_immediates(imm),
        holds(m, base, now, imm),
    ensures
        sensible(join_blocks::after_move(m, s)),
        holds(join_blocks::after_move(m, s), base, executed(now, s, imm), imm),
{
    reveal(join_blocks::after_move);
    reveal(join_blocks::can_follow);
    lemma_parts_sound(s, "movq %"@);
    lemma_parts_sound(s, "movq $"@);
    lemma_parts_sound(s, "movl $"@);
    lemma_parts_sound(s, "xorl %"@);
    lemma_parts_sound(s, "movl %"@);
    lemma_zero_is_immediate();
    let after = join_blocks::after_move(m, s);
    if let Some((src, dst)) = join_blocks::reg_copy(s) {
        assert(now[src as int] == worth(m[src as int], src, base, imm));
    } else if let Some((a, dst)) = join_blocks::imm_move(s) {
        assert("$"@ + a == "$"@ + a);
    } else if join_blocks::cleared(s) is None {
        let (src, dst) = join_blocks::low_copy(s)->0;
        assert(now[src as int] == worth(m[src as int], src, base, imm));
        assert(sound(m[src as int]));
        lemma_halved(join_blocks::held(m, src), base, dst, imm);
    }
    assert forall|r: int| 0 <= r < 16 implies sound(#[trigger] after[r]) by {
        assert(sound(m[r]));
        if let Some((src, _)) = join_blocks::reg_copy(s) {
            assert(sound(m[src as int]));
        }
    }
    assert forall|r: RegId| r < 16 implies executed(now, s, imm)[r as int] == worth(
        #[trigger] after[r as int],
        r,
        base,
        imm,
    ) by {
        assert(now[r as int] == worth(m[r as int], r, base, imm));
    }
}

proof fn lemma_moves_hold(
    moves: Seq<Seq<char>>,
    n: nat,
    regs: Seq<u64>,
    imm: spec_fn(Seq<char>) -> u64,
)
    requires
        n <= moves.len(),
        regs.len() == 16,
        plain_immediates(imm),
        join_blocks::moves_followed(moves),
    ensures
        sensible(join_blocks::after_moves(moves, n)),
        holds(
            join_blocks::after_moves(moves, n),
            regs,
            after_lines(regs, moves, n, imm),
            imm,
        ),
    decreases n,
{
    if n > 0 {
        lemma_moves_hold(moves, (n - 1) as nat, regs, imm);
        let s = text::trim(moves[n - 1]);
        let m = join_blocks::after_moves(moves, (n - 1) as nat);
        let now = after_lines(regs, moves, (n - 1) as nat, imm);
        assert(join_blocks::move_followed(m, s));
        reveal(join_blocks::move_followed);
        lemma_move_keeps(m, s, regs, now, imm);
    }
}

/// The registers after the additions among the first `n` of `chain`.
spec fn after_additions(
    regs: Seq<u64>,
    chain: Seq<Seq<char>>,
    n: nat,
    imm: spec_fn(Seq<char>) -> u64,
) -> Seq<u64> {
    let extra = join_blocks::additions(chain, n);
    after_lines(regs, extra, extra.len(), imm)
}

proof fn lemma_chain_holds(
    m0: Values,
    chain: Seq<Seq<char>>,
    n: nat,
    regs: Seq<u64>,
    before: Seq<u64>,
    imm: spec_fn(Seq<char>) -> u64,
)
    requires
        n <= chain.len(),
        plain_immediates(imm),
        join_blocks::chain_followed(m0, chain),
        sensible(m0),
        holds(m0, regs, before, imm),
    ensures
        sensible(join_blocks::after_chain(m0, chain, n)),
        holds(
            join_blocks::after_chain(m0, chain, n),
            after_additions(regs, chain, n, imm),
            after_lines(before, chain, n, imm),
            imm,
        ),
    decreases n,
{
    if n == 0 {
        assert(after_additions(regs, chain, 0, imm) == regs);
    } else {
        lemma_chain_holds(m0, chain, (n - 1) as nat, regs, before, imm);
        let line = chain[n - 1];
        let s = text::trim(line);
        let m = join_blocks::after_chain(m0, chain, (n - 1) as nat);
        let now = after_lines(before, chain, (n - 1) as nat, imm);
        let earlier = join_blocks::additions(chain, (n - 1) as nat);
        let done = after_additions(regs, chain, (n - 1) as nat, imm);
        assert(join_blocks::can_follow(m, s));
        reveal(join_blocks::after_inst);
        lemma_one_start(s);
        if join_blocks::is_move(s) {
            assert(join_blocks::additions(chain, n) == earlier);
            lemma_move_keeps(m, s, done, now, imm);
        } else {
            reveal(join_blocks::can_follow);
            let (a, d) = join_blocks::addition(s)->0;
            lemma_parts_sound(s, "addq $"@);
            let extra = join_blocks::additions(chain, n);
            assert(extra == earlier.push(line));
            lemma_lines_agree(regs, earlier, extra, earlier.len(), imm);
            assert(after_additions(regs, chain, n, imm) == executed(done, s, imm));
            let after = join_blocks::after_chain(m0, chain, n);
            assert(after == m.update(d as int, None));
            assert(now[d as int] == worth(m[d as int], d, done, imm));
            assert forall|r: RegId| r < 16 implies executed(now, s, imm)[r as int] == worth(
                #[trigger] after[r as int],
                r,
                executed(done, s, imm),
                imm,
            ) by {
                assert(now[r as int] == worth(m[r as int], r, done, imm));
                assert(!join_blocks::taken_from(m[r as int], d));
                assert(sound(m[r as int]));
            }
        }
    }
}

/// The first lines do the same in a longer text.
proof fn lemma_lines_agree(
    regs: Seq<u64>,
    a: Seq<Seq<char>>,
    b: Seq<Seq<char>>,
    n: nat,
    imm: spec_fn(Seq<char>) -> u64,
)
    requires
        n <= a.len(),
        n <= b.len(),
        forall|k: int| 0 <= k < n ==> #[trigger] a[k] == b[k],
    ensures
        after_lines(regs, a, n, imm) == after_lines(regs, b, n, imm),
    decreases n,
{
    if n > 0 {
        lemma_lines_agree(regs, a, b, (n - 1) as nat, imm);
        assert(a[n - 1] == b[n - 1]);
    }
}

proof fn lemma_lines_concat(
    regs: Seq<u64>,
    a: Seq<Seq<char>>,
    b: Seq<Seq<char>>,
    n: nat,
    imm: spec_fn(Seq<char>) -> u64,
)
    requires
        n <= b.len(),
    ensures
        after_lines(regs, a + b, a.len() + n, imm) == after_lines(
            after_lines(regs, a, a.len(), imm),
            b,
            n,
            imm,
        ),
    decreases n,
{
    if n == 0 {
        lemma_lines_agree(regs, a, a + b, a.len(), imm);
    } else {
        lemma_lines_concat(regs, a, b, (n - 1) as nat, imm);
        assert((a + b)[a.len() + n - 1] == b[n - 1]);
    }
}

// ── The net moves ───────────────────────────────────────────────────────────

/// The instruction for a value gives the register that value.
proof fn lemma_net_inst(
    m: Values,
    reg: RegId,
    now: Seq<u64>,
    imm: spec_fn(Seq<char>) -> u64,
)
    requires
        sensible(m),
        reg < 16,
        now.len() == 16,
        plain_immediates(imm),
        join_blocks::net_inst(m, reg) is Some,
    ensures
        executed(now, text::trim(join_blocks::net_inst(m, reg)->0), imm) == now.update(
            reg as int,
            worth(m[reg as int], reg, now, imm),
        ),
{
    reveal_strlit("movq ");
    reveal_strlit("    movq ");
    reveal_strlit("    xorl ");
    reveal_strlit("    ");
    reveal_strlit("movq %");
    reveal_strlit("movq $");
    reveal_strlit("xorl %");
    reveal_strlit(", ");
    reveal_strlit(", %");
    reveal_strlit("$");
    lemma_reg_text(0, reg);
    lemma_reg_text(1, reg);
    reveal_strlit("movl %");
    reveal_strlit("    movl ");
    let line = join_blocks::net_inst(m, reg)->0;
    let dst = types::reg_text(0, reg);
    assert(sound(m[reg as int]));
    match m[reg as int] {
        Some(Value::Low(src)) => {
            lemma_reg_text(1, src);
            let a = types::reg_text(1, src);
            let b = types::reg_text(1, reg);
            let body = "movl %"@ + a.skip(1) + ", %"@ + b.skip(1);
            assert(line =~= "    "@ + body);
            assert(body.last() == b.last());
            lemma_trim_indent(body);
            lemma_plain_has_none(a.skip(1));
            lemma_parts("movl %"@, a.skip(1), b.skip(1));
            assert("movl %"@.is_prefix_of(body)) by {
                assert(body.take(6) =~= "movl %"@);
            }
            lemma_one_start(body);
        },
        Some(Value::Reg(src)) => {
            lemma_reg_text(0, src);
            let a = types::reg_text(0, src);
            let body = "movq %"@ + a.skip(1) + ", %"@ + dst.skip(1);
            assert(line =~= "    "@ + body);
            assert(body.last() == dst.last());
            lemma_trim_indent(body);
            lemma_plain_has_none(a.skip(1));
            lemma_parts("movq %"@, a.skip(1), dst.skip(1));
        },
        Some(Value::Literal(t)) => {
            if t == "$0"@ {
                let a = types::reg_text(1, reg);
                let body = "xorl %"@ + a.skip(1) + ", %"@ + a.skip(1);
                assert(line =~= "    "@ + body);
                assert(body.last() == a.last());
                lemma_trim_indent(body);
                lemma_plain_has_none(a.skip(1));
                lemma_parts("xorl %"@, a.skip(1), a.skip(1));
                assert("xorl %"@.is_prefix_of(body)) by {
                    assert(body.take(6) =~= "xorl %"@);
                }
                lemma_one_start(body);
            } else {
                let a = choose|a: Seq<char>|
                    t == #[trigger] ("$"@ + a) && !text::has(a, ", %"@);
                let body = "movq $"@ + a + ", %"@ + dst.skip(1);
                assert(line =~= "    "@ + body);
                assert(body.last() == dst.last());
                lemma_trim_indent(body);
                lemma_parts("movq $"@, a, dst.skip(1));
                assert("movq $"@.is_prefix_of(body)) by {
                    assert(body.take(6) =~= "movq $"@);
                }
                lemma_one_start(body);
            }
        },
        None => {},
    }
}

proof fn lemma_net_insts(
    m: Values,
    written: u16,
    n: nat,
    start: Seq<u64>,
    imm: spec_fn(Seq<char>) -> u64,
)
    requires
        sensible(m),
        n <= 16,
        start.len() == 16,
        plain_immediates(imm),
        join_blocks::unclobbered(m, written),
    ensures
        ({
            let net = join_blocks::net_insts(m, written, n);
            let now = after_lines(start, net, net.len(), imm);
            &&& now.len() == 16
            &&& forall|r: RegId|
                r < 16 ==> #[trigger] now[r as int] == if r < n && written & (1u16 << r) != 0
                    && join_blocks::net_inst(m, r) is Some {
                    worth(m[r as int], r, start, imm)
                } else {
                    start[r as int]
                }
        }),
    decreases n,
{
    if n > 0 {
        lemma_net_insts(m, written, (n - 1) as nat, start, imm);
        let before = join_blocks::net_insts(m, written, (n - 1) as nat);
        let net = join_blocks::net_insts(m, written, n);
        let now = after_lines(start, before, before.len(), imm);
        let reg = (n - 1) as RegId;
        if written & (1u16 << reg) != 0 && join_blocks::net_inst(m, reg) is Some {
            lemma_lines_agree(start, before, net, before.len(), imm);
            lemma_net_inst(m, reg, now, imm);
            assert(sound(m[reg as int]));
            let from = match m[reg as int] {
                Some(Value::Reg(src)) => src,
                Some(Value::Low(src)) => src,
                _ => reg,
            };
            assert(now[from as int] == start[from as int]) by {
                if from < reg {
                    assert(m[from as int] == m[from as int]);
                    assert(join_blocks::taken_from(m[reg as int], from));
                }
            }
        }
    }
}

/// The register that a move writes.
pub open spec fn move_dest(s: Seq<char>) -> Option<RegId> {
    match join_blocks::reg_copy(s) {
        Some((_, dst)) => Some(dst),
        None => match join_blocks::imm_move(s) {
            Some((_, dst)) => Some(dst),
            None => match join_blocks::cleared(s) {
                Some(dst) => Some(dst),
                None => match join_blocks::low_copy(s) {
                    Some((_, dst)) => Some(dst),
                    None => None,
                },
            },
        },
    }
}

/// None of `lines` moves a value into the register.
pub open spec fn unmoved(lines: Seq<Seq<char>>, reg: RegId) -> bool {
    forall|k: int|
        0 <= k < lines.len() ==> move_dest(text::trim(#[trigger] lines[k])) != Some(reg)
}

proof fn lemma_unmoved(m: Values, s: Seq<char>, reg: RegId)
    requires
        m.len() == 16,
        reg < 16,
        move_dest(s) != Some(reg),
        m[reg as int] is None,
    ensures
        join_blocks::after_move(m, s)[reg as int] is None,
        join_blocks::after_inst(m, s)[reg as int] is None,
        join_blocks::after_move(m, s).len() == 16,
        join_blocks::after_inst(m, s).len() == 16,
{
    reveal(join_blocks::after_move);
    reveal(join_blocks::after_inst);
}

proof fn lemma_unmoved_moves(lines: Seq<Seq<char>>, n: nat, reg: RegId)
    requires
        n <= lines.len(),
        reg < 16,
        unmoved(lines, reg),
    ensures
        join_blocks::after_moves(lines, n)[reg as int] is None,
        join_blocks::after_moves(lines, n).len() == 16,
    decreases n,
{
    if n > 0 {
        lemma_unmoved_moves(lines, (n - 1) as nat, reg);
        lemma_unmoved(
            join_blocks::after_moves(lines, (n - 1) as nat),
            text::trim(lines[n - 1]),
            reg,
        );
    }
}

proof fn lemma_unmoved_chain(m: Values, insts: Seq<Seq<char>>, n: nat, reg: RegId)
    requires
        n <= insts.len(),
        m.len() == 16,
        reg < 16,
        m[reg as int] is None,
        unmoved(insts, reg),
    ensures
        join_blocks::after_chain(m, insts, n)[reg as int] is None,
        join_blocks::after_chain(m, insts, n).len() == 16,
    decreases n,
{
    if n > 0 {
        lemma_unmoved_chain(m, insts, (n - 1) as nat, reg);
        lemma_unmoved(
            join_blocks::after_chain(m, insts, (n - 1) as nat),
            text::trim(insts[n - 1]),
            reg,
        );
    }
}

/// Does the register count after a chain was inlined? Those do that the last block of the
/// chain writes, and those that nothing before moves a value into; the others are the
/// temporaries of the chain.
pub open spec fn counts(moves: Seq<Seq<char>>, chain: Chain, reg: RegId) -> bool {
    chain.written & (1u16 << reg) != 0 || (unmoved(moves, reg) && unmoved(chain.insts, reg))
}

/// Where a chain of join blocks is inlined, the lines put in place of the moves that lead
/// up to the jump leave in every register that counts what the moves and the chain leave
/// there, and the jump goes where the chain ends.
pub proof fn law_inlined_chain_keeps_registers(
    blocks: Map<u32, join_blocks::Join>,
    c: Code,
    i: int,
    regs: Seq<u64>,
    imm: spec_fn(Seq<char>) -> u64,
    reg: RegId,
)
    requires
        join_blocks::join_step(blocks, c, i) is Some,
        regs.len() == 16,
        plain_immediates(imm),
        reg < 16,
        ({
            let lines = join_blocks::simple_lines(c, join_blocks::straight_from(c, i), i)->0;
            let chain = join_blocks::jump_chain(blocks, c, i)->0;
            counts(join_blocks::lines_at(c, lines), chain, reg)
        }),
    ensures
        ({
            let lines = join_blocks::simple_lines(c, join_blocks::straight_from(c, i), i)->0;
            let chain = join_blocks::jump_chain(blocks, c, i)->0;
            let moves = join_blocks::lines_at(c, lines);
            let new = join_blocks::composed(c, lines, chain);
            &&& join_blocks::join_step(blocks, c, i) == Some(
                join_blocks::fill(
                    c,
                    lines.push(i as usize),
                    new.push("    jmp "@ + helpers::dotl(chain.target)),
                    lines.len() + 1,
                ),
            )
            &&& after_lines(regs, new, new.len(), imm)[reg as int] == after_lines(
                after_lines(regs, moves, moves.len(), imm),
                chain.insts,
                chain.insts.len(),
                imm,
            )[reg as int]
        }),
{
    let lines = join_blocks::simple_lines(c, join_blocks::straight_from(c, i), i)->0;
    let chain = join_blocks::jump_chain(blocks, c, i)->0;
    lemma_composed_moves(c, lines, chain, regs, imm, reg);
}

proof fn lemma_composed_moves(
    c: Code,
    lines: Seq<usize>,
    chain: Chain,
    regs: Seq<u64>,
    imm: spec_fn(Seq<char>) -> u64,
    reg: RegId,
)
    requires
        regs.len() == 16,
        plain_immediates(imm),
        join_blocks::composable(join_blocks::lines_at(c, lines), chain),
        reg < 16,
        counts(join_blocks::lines_at(c, lines), chain, reg),
    ensures
        ({
            let moves = join_blocks::lines_at(c, lines);
            let new = join_blocks::composed(c, lines, chain);
            after_lines(regs, new, new.len(), imm)[reg as int] == after_lines(
                after_lines(regs, moves, moves.len(), imm),
                chain.insts,
                chain.insts.len(),
                imm,
            )[reg as int]
        }),
{
    let moves = join_blocks::lines_at(c, lines);
    let insts = chain.insts;
    let m0 = join_blocks::after_moves(moves, moves.len());
    let m = join_blocks::after_chain(m0, insts, insts.len());
    let before = after_lines(regs, moves, moves.len(), imm);
    lemma_moves_hold(moves, moves.len(), regs, imm);
    lemma_chain_holds(m0, insts, insts.len(), regs, before, imm);
    let extra = join_blocks::additions(insts, insts.len());
    let start = after_lines(regs, extra, extra.len(), imm);
    assert(start == after_additions(regs, insts, insts.len(), imm));
    let net = join_blocks::net_insts(m, chain.written, 16);
    lemma_net_insts(m, chain.written, 16, start, imm);
    lemma_lines_concat(regs, extra, net, net.len(), imm);
    let end = after_lines(start, net, net.len(), imm);
    if chain.written & (1u16 << reg) == 0 {
        lemma_unmoved_moves(moves, moves.len(), reg);
        lemma_unmoved_chain(m0, insts, insts.len(), reg);
    }
    assert(end[reg as int] == if join_blocks::net_inst(m, reg) is Some {
        worth(m[reg as int], reg, start, imm)
    } else {
        start[reg as int]
    });
    assert(after_lines(before, insts, insts.len(), imm)[reg as int] == worth(
        m[reg as int],
        reg,
        start,
        imm,
    ));
}

} // verus!
