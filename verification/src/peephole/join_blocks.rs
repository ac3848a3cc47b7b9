//! Join block inlining.
//!
//! A join block consists of register moves and a jump, or falls through into the
//! next block. Where simple moves lead up to a jump to a join block, the moves of
//! the whole chain of join blocks from there are composed with them, and the jump
//! goes straight to the end of the chain:
//!
//!   .LBB45: movq %rbx, %r11; movq %r12, %r10; jmp .LBB9
//!   .LBB9:  movq %r11, %r8;  movq %r10, %r9   (falls through)
//!   .LBB6:  addq $1, %r15;   movq %r8, %rbx;  movq %r9, %r12; jmp .LBB1
//!
//! Here the moves cancel out, and the first block becomes
//! `addq $1, %r15; jmp .LBB1`.

use vstd::prelude::*;

use super::helpers;
use super::helpers::{body_of, jump_label_number, parse_label_number, push_dotl};
use super::labels;
use super::labels::LabelTable;
use super::loop_trampoline::register_family_no_prefix;
use super::sweep;
use super::text;
use super::text::{contains, parse_i64, same, split_once, starts_with, strip_prefix, trim_text};
use super::types;
use super::types::{
    mark_nop, reg_name, replace_line, Code, LineInfo, LineKind, LineStore, RegId, REG_NONE,
};

verus! {

// ── Join blocks ─────────────────────────────────────────────────────────────

/// Is `s` a simple register operation, as join blocks consist of?
pub open spec fn is_simple(s: Seq<char>) -> bool {
    "movq %"@.is_prefix_of(s) || "xorl %"@.is_prefix_of(s) || "movl $"@.is_prefix_of(s)
        || "movl %"@.is_prefix_of(s) || (("addq $"@.is_prefix_of(s) || "movq $"@.is_prefix_of(s))
        && !text::has(s, "("@))
}

/// The instructions of a join block, and the label that comes next.
#[verifier::ext_equal]
pub struct Join {
    pub insts: Seq<Seq<char>>,
    pub target: u32,
}

pub open spec fn joined(insts: Seq<Seq<char>>, target: Option<u32>) -> Option<Join> {
    match target {
        Some(n) => if insts.len() > 0 {
            Some(Join { insts, target: n })
        } else {
            None
        },
        None => None,
    }
}

/// Can nothing go on behind a line of this kind?
pub open spec fn diverts(k: LineKind) -> bool {
    k is CondJmp || k is Call || k is JmpIndirect || k is Ret
}

/// The join block from line `j` on, after the instructions `insts`. It has at most
/// six instructions.
pub open spec fn join_from(c: Code, j: int, insts: Seq<Seq<char>>) -> Option<Join>
    decreases c.len() - j,
{
    if j >= c.len() {
        None
    } else if c.nop(j) || c.kind(j) is Empty {
        join_from(c, j + 1, insts)
    } else if c.kind(j) is Jmp {
        joined(insts, helpers::jump_number(c.body(j)))
    } else if c.kind(j) is Label {
        joined(insts, helpers::label_number(c.body(j)))
    } else if diverts(c.kind(j)) || insts.len() >= 6 || !is_simple(c.body(j)) {
        None
    } else {
        join_from(c, j + 1, insts.push(c.texts[j]))
    }
}

/// The join blocks by their label numbers.
pub open spec fn join_map(c: Code) -> Map<u32, Join> {
    Map::new(
        |n: u32|
            labels::label_map(c).contains_key(n) && join_from(
                c,
                labels::label_map(c)[n] + 1,
                Seq::empty(),
            ) is Some,
        |n: u32| join_from(c, labels::label_map(c)[n] + 1, Seq::empty())->0,
    )
}

/// The texts of these strings.
pub open spec fn texts(v: Seq<String>) -> Seq<Seq<char>> {
    Seq::new(v.len(), |k: int| v[k]@)
}

struct JoinBlock {
    insts: Vec<String>,
    target: u32,
}

/// The join blocks of a function.
pub struct JoinTable {
    blocks: Vec<Option<JoinBlock>>,
}

impl View for JoinTable {
    type V = Map<u32, Join>;

    closed spec fn view(&self) -> Map<u32, Join> {
        Map::new(
            |n: u32| n < self.blocks@.len() && self.blocks@[n as int] is Some,
            |n: u32| self.blocks@[n as int]->0.model(),
        )
    }
}

impl JoinBlock {
    spec fn model(&self) -> Join {
        Join { insts: texts(self.insts@), target: self.target }
    }
}

fn is_simple_inst(s: &str) -> (r: bool)
    ensures
        r == is_simple(s@),
{
    starts_with(s, "movq %") || starts_with(s, "xorl %") || starts_with(s, "movl $")
        || starts_with(s, "movl %") || ((starts_with(s, "addq $") || starts_with(s, "movq $"))
        && !contains(s, "("))
}

fn make_join_block(insts: Vec<String>, target: Option<u32>) -> (r: Option<JoinBlock>)
    ensures
        match r {
            Some(b) => joined(texts(insts@), target) == Some(b.model()),
            None => joined(texts(insts@), target) is None,
        },
{
    match target {
        Some(n) => if insts.len() > 0 {
            Some(JoinBlock { insts, target: n })
        } else {
            None
        },
        None => None,
    }
}

fn parse_join_block(store: &LineStore, infos: &[LineInfo], label: usize) -> (r: Option<JoinBlock>)
    requires
        types::code(*store, infos@).wf(),
        label < infos@.len(),
    ensures
        match r {
            Some(b) => join_from(types::code(*store, infos@), label + 1, Seq::empty()) == Some(
                b.model(),
            ),
            None => join_from(types::code(*store, infos@), label + 1, Seq::empty()) is None,
        },
{
    let ghost c = types::code(*store, infos@);
    let len = infos.len();
    let mut insts: Vec<String> = Vec::new();
    let mut j: usize = label + 1;
    assert(texts(insts@) =~= Seq::empty());
    while j < len
        invariant
            c == types::code(*store, infos@),
            c.wf(),
            len == infos@.len(),
            label < j <= len,
            join_from(c, label + 1, Seq::empty()) == join_from(c, j as int, texts(insts@)),
        decreases len - j,
    {
        let kind = infos[j].kind;
        if infos[j].is_nop() || matches!(kind, LineKind::Empty) {
            j += 1;
            continue;
        }
        let body = body_of(store, infos, j);
        if matches!(kind, LineKind::Jmp) {
            return make_join_block(insts, jump_label_number(body));
        }
        if matches!(kind, LineKind::Label) {
            return make_join_block(insts, parse_label_number(body));
        }
        if matches!(
            kind,
            LineKind::CondJmp | LineKind::Call | LineKind::JmpIndirect | LineKind::Ret
        ) || insts.len() >= 6 || !is_simple_inst(body) {
            return None;
        }
        let ghost before = texts(insts@);
        insts.push(store.get(j).to_owned());
        assert(texts(insts@) =~= before.push(c.texts[j as int]));
        j += 1;
    }
    None
}

impl JoinTable {
    fn build(store: &LineStore, infos: &[LineInfo]) -> (r: JoinTable)
        requires
            types::code(*store, infos@).wf(),
        ensures
            r@ == join_map(types::code(*store, infos@)),
    {
        let ghost c = types::code(*store, infos@);
        let table = LabelTable::build(store, infos);
        let size = table.len();
        let mut blocks: Vec<Option<JoinBlock>> = Vec::new();
        let mut n: u32 = 0;
        while (n as usize) < size
            invariant
                c == types::code(*store, infos@),
                c.wf(),
                n <= size == table.size(),
                size <= u32::MAX,
                blocks@.len() == n,
                table@ == labels::label_map(c),
                forall|x: u32|
                    #[trigger] table@.contains_key(x) ==> 0 <= table@[x] < infos@.len() && x < size,
                forall|x: u32|
                    x < n ==> (match #[trigger] blocks@[x as int] {
                        Some(b) => join_map(c).contains_key(x) && join_map(c)[x] == b.model(),
                        None => !join_map(c).contains_key(x),
                    }),
            decreases size - n,
        {
            match table.line_of(n) {
                Some(label) => {
                    blocks.push(parse_join_block(store, infos, label));
                },
                None => {
                    blocks.push(None);
                },
            }
            n += 1;
        }
        let r = JoinTable { blocks };
        proof {
            assert forall|x: u32|
                #[trigger] r@.contains_key(x) == join_map(c).contains_key(x) && (r@.contains_key(x)
                    ==> r@[x] == join_map(c)[x]) by {
                if x < n {
                    assert(match blocks@[x as int] {
                        Some(b) => join_map(c).contains_key(x) && join_map(c)[x] == b.model(),
                        None => !join_map(c).contains_key(x),
                    });
                } else {
                    assert(!table@.contains_key(x));
                }
            }
            assert(r@ =~= join_map(c));
        }
        r
    }

    fn block_of(&self, n: u32) -> (r: Option<&JoinBlock>)
        ensures
            match r {
                Some(b) => self@.contains_key(n) && self@[n] == b.model(),
                None => !self@.contains_key(n),
            },
    {
        if (n as usize) < self.blocks.len() {
            match &self.blocks[n as usize] {
                Some(b) => Some(b),
                None => None,
            }
        } else {
            None
        }
    }
}

// ── Chains of join blocks ───────────────────────────────────────────────────

/// The register that an instruction of a join block writes, as far as it is
/// followed.
pub open spec fn inst_dest(s: Seq<char>) -> RegId {
    match operands(s) {
        Some(rest) => match text::split(rest, ", %"@) {
            Some((_, d)) => types::family_of_name(text::trim(d)),
            None => REG_NONE,
        },
        None => REG_NONE,
    }
}

/// The operands of an instruction whose destination is followed.
pub open spec fn operands(s: Seq<char>) -> Option<Seq<char>> {
    match text::after(s, "movq %"@) {
        Some(rest) => Some(rest),
        None => match text::after(s, "movq $"@) {
            Some(rest) => Some(rest),
            None => match text::after(s, "xorl %"@) {
                Some(rest) => Some(rest),
                None => match text::after(s, "addq $"@) {
                    Some(rest) => Some(rest),
                    None => match text::after(s, "movl %"@) {
                        Some(rest) => Some(rest),
                        None => text::after(s, "movl $"@),
                    },
                },
            },
        },
    }
}

/// The registers that the first `n` of `insts` write, one bit each.
pub open spec fn written_by(insts: Seq<Seq<char>>, n: nat) -> u16
    decreases n,
{
    if n == 0 {
        0
    } else {
        let w = written_by(insts, (n - 1) as nat);
        let d = inst_dest(text::trim(insts[n - 1]));
        if d == REG_NONE {
            w
        } else {
            w | (1u16 << d)
        }
    }
}

/// A chain of join blocks.
#[verifier::ext_equal]
pub struct Chain {
    /// The instructions of its blocks.
    pub insts: Seq<Seq<char>>,
    /// The label after the last block.
    pub target: u32,
    /// The registers that the last block writes.
    pub written: u16,
}

/// The chain that goes on at the label `n`, after the part `done`. It ends where
/// there is no join block, or one that was visited already.
pub open spec fn chain_from(
    blocks: Map<u32, Join>,
    n: u32,
    done: Chain,
    visited: Set<u32>,
) -> Chain
    decreases blocks.dom().difference(visited).len(),
        when blocks.dom().finite()
{
    if blocks.contains_key(n) && !visited.contains(n) {
        let b = blocks[n];
        proof {
            assert(blocks.dom().difference(visited.insert(n)) =~= blocks.dom().difference(
                visited,
            ).remove(n));
        }
        chain_from(
            blocks,
            b.target,
            Chain {
                insts: done.insts + b.insts,
                target: b.target,
                written: written_by(b.insts, b.insts.len()),
            },
            visited.insert(n),
        )
    } else {
        done
    }
}

/// The chain that starts at the label `n`.
pub open spec fn chain_at(blocks: Map<u32, Join>, n: u32) -> Chain {
    chain_from(blocks, n, Chain { insts: Seq::empty(), target: n, written: 0 }, Set::empty())
}

/// Label numbers below a bound are finitely many.
pub proof fn lemma_finite_below(s: Set<u32>, n: nat)
    requires
        forall|x: u32| s.contains(x) ==> x < n,
    ensures
        s.finite(),
    decreases n,
{
    if n == 0 {
        assert(s =~= Set::empty());
    } else if n <= u32::MAX + 1 {
        let m = (n - 1) as u32;
        lemma_finite_below(s.remove(m), (n - 1) as nat);
        assert(s =~= s.remove(m) || s =~= s.remove(m).insert(m));
    } else {
        lemma_finite_below(s, (n - 1) as nat);
    }
}

fn find_operands(s: &str) -> (r: Option<&str>)
    ensures
        text::piece(r) == operands(s@),
{
    match strip_prefix(s, "movq %") {
        Some(rest) => Some(rest),
        None => match strip_prefix(s, "movq $") {
            Some(rest) => Some(rest),
            None => match strip_prefix(s, "xorl %") {
                Some(rest) => Some(rest),
                None => match strip_prefix(s, "addq $") {
                    Some(rest) => Some(rest),
                    None => match strip_prefix(s, "movl %") {
                        Some(rest) => Some(rest),
                        None => strip_prefix(s, "movl $"),
                    },
                },
            },
        },
    }
}

fn find_inst_dest(s: &str) -> (r: RegId)
    ensures
        r == inst_dest(s@),
        r == REG_NONE || types::gp(r),
{
    match find_operands(s) {
        Some(rest) => match split_once(rest, ", %") {
            Some((_, d)) => register_family_no_prefix(trim_text(d)),
            None => REG_NONE,
        },
        None => REG_NONE,
    }
}

fn find_written(insts: &Vec<String>) -> (r: u16)
    ensures
        r == written_by(texts(insts@), insts@.len()),
{
    let mut written: u16 = 0;
    let mut n: usize = 0;
    while n < insts.len()
        invariant
            n <= insts@.len(),
            written == written_by(texts(insts@), n as nat),
        decreases insts@.len() - n,
    {
        let d = find_inst_dest(trim_text(insts[n].as_str()));
        if d != REG_NONE {
            written = written | (1u16 << d);
        }
        n += 1;
    }
    written
}

struct ChainInsts {
    insts: Vec<String>,
    target: u32,
    written: u16,
}

impl ChainInsts {
    spec fn model(&self) -> Chain {
        Chain { insts: texts(self.insts@), target: self.target, written: self.written }
    }
}

fn contains_number(v: &Vec<u32>, x: u32) -> (r: bool)
    ensures
        r == v@.contains(x),
{
    let mut i: usize = 0;
    while i < v.len()
        invariant
            i <= v@.len(),
            forall|k: int| 0 <= k < i ==> v@[k] != x,
        decreases v@.len() - i,
    {
        if v[i] == x {
            assert(v@[i as int] == x);
            return true;
        }
        i += 1;
    }
    false
}

fn append_copies(to: &mut Vec<String>, from: &Vec<String>)
    ensures
        texts(final(to)@) == texts(old(to)@) + texts(from@),
{
    let ghost before = texts(to@);
    let mut k: usize = 0;
    assert(before + texts(from@).take(0) =~= before);
    while k < from.len()
        invariant
            k <= from@.len(),
            texts(to@) == before + texts(from@).take(k as int),
        decreases from@.len() - k,
    {
        let ghost so_far = texts(to@);
        to.push(from[k].as_str().to_owned());
        assert(texts(to@) =~= so_far.push(texts(from@)[k as int]));
        k += 1;
        assert(texts(to@) =~= before + texts(from@).take(k as int));
    }
    assert(texts(from@).take(k as int) =~= texts(from@));
}

fn resolve_chain(table: &JoinTable, first: u32) -> (r: ChainInsts)
    ensures
        r.model() == chain_at(table@, first),
{
    let mut chain = ChainInsts { insts: Vec::new(), target: first, written: 0 };
    let mut visited: Vec<u32> = Vec::new();
    let mut cur: u32 = first;
    proof {
        lemma_finite_below(table@.dom(), table.blocks@.len());
        assert(texts(chain.insts@) =~= Seq::empty());
        assert(visited@.to_set() =~= Set::empty());
    }
    loop
        invariant
            table@.dom().finite(),
            chain_at(table@, first) == chain_from(
                table@,
                cur,
                chain.model(),
                visited@.to_set(),
            ),
        decreases table@.dom().difference(visited@.to_set()).len(),
    {
        match table.block_of(cur) {
            Some(b) => {
                if contains_number(&visited, cur) {
                    return chain;
                }
                let ghost before = visited@;
                visited.push(cur);
                proof {
                    assert(visited@.to_set() =~= before.to_set().insert(cur)) by {
                        assert forall|x: u32|
                            #[trigger] visited@.to_set().contains(x) == before.to_set().insert(
                                cur,
                            ).contains(x) by {
                            if before.contains(x) {
                                let k = choose|k: int| 0 <= k < before.len() && before[k] == x;
                                assert(visited@[k] == x);
                            }
                            if x == cur {
                                assert(visited@[before.len() as int] == x);
                            }
                            if visited@.contains(x) && x != cur {
                                let k = choose|k: int| 0 <= k < visited@.len() && visited@[k] == x;
                                assert(before[k] == x);
                            }
                        }
                    }
                    assert(table@.dom().difference(visited@.to_set())
                        =~= table@.dom().difference(before.to_set()).remove(cur));
                }
                chain.written = find_written(&b.insts);
                append_copies(&mut chain.insts, &b.insts);
                chain.target = b.target;
                cur = b.target;
            },
            None => {
                return chain;
            },
        }
    }
}

// ── Moves and additions ─────────────────────────────────────────────────────

/// The two operands of an instruction, behind what it starts with, if the second is a
/// register. The first is text, the second a family.
pub open spec fn parts(s: Seq<char>, start: Seq<char>) -> Option<(Seq<char>, RegId)> {
    match text::after(s, start) {
        Some(rest) => match text::split(rest, ", %"@) {
            Some((a, b)) => if types::family_of_name(text::trim(b)) != REG_NONE {
                Some((a, types::family_of_name(text::trim(b))))
            } else {
                None
            },
            None => None,
        },
        None => None,
    }
}

/// The families of two registers, the first behind what the instruction starts with.
pub open spec fn reg_parts(s: Seq<char>, start: Seq<char>) -> Option<(RegId, RegId)> {
    match parts(s, start) {
        Some((a, d)) => if types::family_of_name(a) != REG_NONE {
            Some((types::family_of_name(a), d))
        } else {
            None
        },
        None => None,
    }
}

/// A move between two registers: source and destination.
pub open spec fn reg_copy(s: Seq<char>) -> Option<(RegId, RegId)> {
    reg_parts(s, "movq %"@)
}

/// A move of the low half of a register, which clears the high half: source and
/// destination.
pub open spec fn low_copy(s: Seq<char>) -> Option<(RegId, RegId)> {
    reg_parts(s, "movl %"@)
}

/// Is the text a number of 31 bits, which is the same in 32 bits as in 64?
pub open spec fn is_small(a: Seq<char>) -> bool {
    match text::integer(a) {
        Some(n) => 0 <= n <= 0x7FFF_FFFF,
        None => false,
    }
}

/// A move of an immediate: its text without the `$`, and the destination.
pub open spec fn imm_move(s: Seq<char>) -> Option<(Seq<char>, RegId)> {
    match parts(s, "movq $"@) {
        Some(pair) => Some(pair),
        None => match parts(s, "movl $"@) {
            Some((a, d)) => if is_small(a) {
                Some((a, d))
            } else {
                None
            },
            None => None,
        },
    }
}

/// A register that is cleared with an exclusive or.
pub open spec fn cleared(s: Seq<char>) -> Option<RegId> {
    match parts(s, "xorl %"@) {
        Some((a, d)) => if types::family_of_name(a) == d {
            Some(d)
        } else {
            None
        },
        None => None,
    }
}

/// A move between registers, of an immediate to a register, or of zero.
pub open spec fn is_move(s: Seq<char>) -> bool {
    reg_copy(s) is Some || imm_move(s) is Some || cleared(s) is Some || low_copy(s) is Some
}

/// The immediate and the register of an addition.
pub open spec fn addition(s: Seq<char>) -> Option<(Seq<char>, RegId)> {
    parts(s, "addq $"@)
}

// ── Composing moves ─────────────────────────────────────────────────────────

/// What a register holds after some moves, in terms of what was there before.
pub enum Value {
    /// What this register held.
    Reg(RegId),
    /// The low half of what this register held.
    Low(RegId),
    /// An immediate, with its `$`.
    Literal(Seq<char>),
}

/// What each register holds, where that is known.
pub type Values = Seq<Option<Value>>;

/// What `src` holds.
pub open spec fn held(m: Values, src: RegId) -> Value {
    match m[src as int] {
        Some(v) => v,
        None => Value::Reg(src),
    }
}

/// The low half of a value, if it can be told.
pub open spec fn halved(v: Value) -> Option<Value> {
    match v {
        Value::Reg(src) => Some(Value::Low(src)),
        Value::Low(src) => Some(Value::Low(src)),
        Value::Literal(t) => if is_small(t.skip(1)) {
            Some(v)
        } else {
            None
        },
    }
}

/// Is the value taken from the register?
pub open spec fn taken_from(v: Option<Value>, reg: RegId) -> bool {
    v == Some(Value::Reg(reg)) || v == Some(Value::Low(reg))
}

/// The values after a move.
#[verifier::opaque]
pub open spec fn after_move(m: Values, s: Seq<char>) -> Values {
    match reg_copy(s) {
        Some((src, dst)) => m.update(dst as int, Some(held(m, src))),
        None => match imm_move(s) {
            Some((a, dst)) => m.update(dst as int, Some(Value::Literal("$"@ + a))),
            None => match cleared(s) {
                Some(dst) => m.update(dst as int, Some(Value::Literal("$0"@))),
                None => match low_copy(s) {
                    Some((src, dst)) => match halved(held(m, src)) {
                        Some(v) => m.update(dst as int, Some(v)),
                        None => m,
                    },
                    None => m,
                },
            },
        },
    }
}

/// The values after an instruction of a chain. An addition is done in its place, before
/// any value is moved.
#[verifier::opaque]
pub open spec fn after_inst(m: Values, s: Seq<char>) -> Values {
    if is_move(s) {
        after_move(m, s)
    } else {
        match addition(s) {
            Some((_, dst)) => m.update(dst as int, None),
            None => m,
        }
    }
}

/// Can the instruction be followed? The value that a move halves can be told. A register
/// that is added to holds what it held or more was added to, and no other was given that.
#[verifier::opaque]
pub open spec fn can_follow(m: Values, s: Seq<char>) -> bool {
    if is_move(s) {
        reg_copy(s) is None && imm_move(s) is None && cleared(s) is None ==> halved(
            held(m, low_copy(s)->Some_0.0),
        ) is Some
    } else {
        addition(s) matches Some((_, dst)) && m[dst as int] is None && forall|r: int|
            0 <= r < m.len() ==> !taken_from(#[trigger] m[r], dst)
    }
}

/// The values after the first `n` of some moves.
pub open spec fn after_moves(insts: Seq<Seq<char>>, n: nat) -> Values
    decreases n,
{
    if n == 0 {
        Seq::new(16, |k: int| None)
    } else {
        after_move(after_moves(insts, (n - 1) as nat), text::trim(insts[n - 1]))
    }
}

/// The values after the first `n` instructions of a chain.
pub open spec fn after_chain(m: Values, insts: Seq<Seq<char>>, n: nat) -> Values
    decreases n,
{
    if n == 0 {
        m
    } else {
        after_inst(after_chain(m, insts, (n - 1) as nat), text::trim(insts[n - 1]))
    }
}

/// The instruction that gives `reg` its value, unless it has it.
pub open spec fn net_inst(m: Values, reg: RegId) -> Option<Seq<char>> {
    match m[reg as int] {
        Some(Value::Reg(src)) => if src != reg {
            Some("    movq "@ + types::reg_text(0, src) + ", "@ + types::reg_text(0, reg))
        } else {
            None
        },
        Some(Value::Low(src)) => Some(
            "    movl "@ + types::reg_text(1, src) + ", "@ + types::reg_text(1, reg),
        ),
        Some(Value::Literal(lit)) => if lit == "$0"@ {
            Some("    xorl "@ + types::reg_text(1, reg) + ", "@ + types::reg_text(1, reg))
        } else {
            Some("    movq "@ + lit + ", "@ + types::reg_text(0, reg))
        },
        None => None,
    }
}

/// The instructions that give those of the first `n` registers that are in
/// `written` their values.
pub open spec fn net_insts(m: Values, written: u16, n: nat) -> Seq<Seq<char>>
    decreases n,
{
    if n == 0 {
        Seq::empty()
    } else {
        let before = net_insts(m, written, (n - 1) as nat);
        let reg = (n - 1) as RegId;
        if written & (1u16 << reg) != 0 && net_inst(m, reg) is Some {
            before.push(net_inst(m, reg)->0)
        } else {
            before
        }
    }
}

/// The additions and subtractions among the first `n` of `insts`.
pub open spec fn additions(insts: Seq<Seq<char>>, n: nat) -> Seq<Seq<char>>
    decreases n,
{
    if n == 0 {
        Seq::empty()
    } else {
        let before = additions(insts, (n - 1) as nat);
        let s = text::trim(insts[n - 1]);
        if "addq $"@.is_prefix_of(s) || "subq $"@.is_prefix_of(s) {
            before.push(insts[n - 1])
        } else {
            before
        }
    }
}

// ── What can be composed ────────────────────────────────────────────────────

/// No register that gets a value is the source of one after it.
pub open spec fn unclobbered(m: Values, written: u16) -> bool {
    forall|a: RegId, b: RegId|
        #![trigger m[a as int], m[b as int]]
        a < b < 16 && written & (1u16 << a) != 0 && written & (1u16 << b) != 0
            && net_inst(m, a) is Some ==> !taken_from(m[b as int], a)
}

/// Can all of `moves` be followed?
pub open spec fn moves_followed(moves: Seq<Seq<char>>) -> bool {
    forall|k: int|
        0 <= k < moves.len() ==> move_followed(
            after_moves(moves, k as nat),
            text::trim(#[trigger] moves[k]),
        )
}

/// Is this a move that can be followed?
#[verifier::opaque]
pub open spec fn move_followed(m: Values, s: Seq<char>) -> bool {
    is_move(s) && can_follow(m, s)
}

/// Can all of `insts` be followed, from the values `m` on?
pub open spec fn chain_followed(m: Values, insts: Seq<Seq<char>>) -> bool {
    forall|k: int|
        0 <= k < insts.len() ==> can_follow(
            after_chain(m, insts, k as nat),
            text::trim(#[trigger] insts[k]),
        )
}

/// Can the moves and the chain be composed? The moves can be followed, and so can the
/// chain's moves and additions; and no register gets its value before it is the source of
/// another.
pub open spec fn composable(moves: Seq<Seq<char>>, chain: Chain) -> bool {
    let m = after_moves(moves, moves.len());
    &&& moves_followed(moves)
    &&& chain_followed(m, chain.insts)
    &&& unclobbered(after_chain(m, chain.insts, chain.insts.len()), chain.written)
}

fn find_parts<'a>(s: &'a str, start: &str) -> (r: Option<(&'a str, RegId)>)
    ensures
        match r {
            Some((a, d)) => parts(s@, start@) == Some((a@, d)) && types::gp(d),
            None => parts(s@, start@) is None,
        },
{
    match strip_prefix(s, start) {
        Some(rest) => match split_once(rest, ", %") {
            Some((a, b)) => {
                let d = register_family_no_prefix(trim_text(b));
                if d != REG_NONE {
                    Some((a, d))
                } else {
                    None
                }
            },
            None => None,
        },
        None => None,
    }
}

fn find_reg_parts(s: &str, start: &str) -> (r: Option<(RegId, RegId)>)
    ensures
        r == reg_parts(s@, start@),
        r matches Some((a, d)) ==> types::gp(a) && types::gp(d),
{
    match find_parts(s, start) {
        Some((a, d)) => {
            let src = register_family_no_prefix(a);
            if src != REG_NONE {
                Some((src, d))
            } else {
                None
            }
        },
        None => None,
    }
}

fn is_small_number(a: &str) -> (r: bool)
    ensures
        r == is_small(a@),
{
    match parse_i64(a) {
        Some(n) => 0 <= n && n <= 0x7FFF_FFFF,
        None => false,
    }
}

fn find_imm_move<'a>(s: &'a str) -> (r: Option<(&'a str, RegId)>)
    ensures
        match r {
            Some((a, d)) => imm_move(s@) == Some((a@, d)) && types::gp(d),
            None => imm_move(s@) is None,
        },
{
    match find_parts(s, "movq $") {
        Some(pair) => Some(pair),
        None => match find_parts(s, "movl $") {
            Some((a, d)) => if is_small_number(a) {
                Some((a, d))
            } else {
                None
            },
            None => None,
        },
    }
}

fn find_cleared(s: &str) -> (r: Option<RegId>)
    ensures
        r == cleared(s@),
        r matches Some(d) ==> types::gp(d),
{
    match find_parts(s, "xorl %") {
        Some((a, d)) => if register_family_no_prefix(a) == d {
            Some(d)
        } else {
            None
        },
        None => None,
    }
}

fn moves_register(s: &str) -> (r: bool)
    ensures
        r == is_move(s@),
{
    find_reg_parts(s, "movq %").is_some() || find_imm_move(s).is_some() || find_cleared(
        s,
    ).is_some() || find_reg_parts(s, "movl %").is_some()
}

enum RegVal {
    Reg(RegId),
    Low(RegId),
    Literal(String),
}

impl RegVal {
    spec fn model(&self) -> Value {
        match self {
            RegVal::Reg(r) => Value::Reg(*r),
            RegVal::Low(r) => Value::Low(*r),
            RegVal::Literal(s) => Value::Literal(s@),
        }
    }

    spec fn fits(&self) -> bool {
        match self {
            RegVal::Reg(r) => types::gp(*r),
            RegVal::Low(r) => types::gp(*r),
            RegVal::Literal(s) => "$"@.is_prefix_of(s@),
        }
    }

    fn copy(&self) -> (r: RegVal)
        requires
            self.fits(),
        ensures
            r.model() == self.model(),
            r.fits(),
    {
        match self {
            RegVal::Reg(r) => RegVal::Reg(*r),
            RegVal::Low(r) => RegVal::Low(*r),
            RegVal::Literal(s) => RegVal::Literal(s.as_str().to_owned()),
        }
    }

    fn low_half(self) -> (r: Option<RegVal>)
        requires
            self.fits(),
        ensures
            match r {
                Some(v) => v.fits() && halved(self.model()) == Some(v.model()),
                None => halved(self.model()) is None,
            },
    {
        match self {
            RegVal::Reg(r) => Some(RegVal::Low(r)),
            RegVal::Low(r) => Some(RegVal::Low(r)),
            RegVal::Literal(s) => {
                let small = match strip_prefix(s.as_str(), "$") {
                    Some(a) => is_small_number(a),
                    None => false,
                };
                proof {
                    reveal_strlit("$");
                }
                if small {
                    Some(RegVal::Literal(s))
                } else {
                    None
                }
            },
        }
    }
}

struct RegMap {
    slots: Vec<Option<RegVal>>,
}

spec fn slot_model(v: Option<RegVal>) -> Option<Value> {
    match v {
        Some(x) => Some(x.model()),
        None => None,
    }
}

impl RegMap {
    spec fn model(&self) -> Values {
        Seq::new(self.slots@.len(), |k: int| slot_model(self.slots@[k]))
    }

    spec fn wf(&self) -> bool {
        &&& self.slots@.len() == 16
        &&& forall|k: int|
            0 <= k < 16 && (#[trigger] self.slots@[k]) is Some ==> self.slots@[k]->0.fits()
    }

    fn new() -> (r: RegMap)
        ensures
            r.wf(),
            r.model() == after_moves(Seq::empty(), 0),
    {
        let mut slots: Vec<Option<RegVal>> = Vec::new();
        while slots.len() < 16
            invariant
                slots@.len() <= 16,
                forall|k: int| 0 <= k < slots@.len() ==> (#[trigger] slots@[k]) is None,
            decreases 16 - slots@.len(),
        {
            slots.push(None);
        }
        let r = RegMap { slots };
        assert(r.model() =~= Seq::new(16, |k: int| None));
        r
    }

    fn set(&mut self, reg: RegId, v: Option<RegVal>)
        requires
            old(self).wf(),
            types::gp(reg),
            v is Some ==> v->0.fits(),
        ensures
            final(self).wf(),
            final(self).model() == old(self).model().update(reg as int, slot_model(v)),
    {
        self.slots[reg as usize] = v;
        assert(self.model() =~= old(self).model().update(reg as int, slot_model(v)));
    }

    fn held(&self, src: RegId) -> (r: RegVal)
        requires
            self.wf(),
            types::gp(src),
        ensures
            r.fits(),
            r.model() == held(self.model(), src),
    {
        match &self.slots[src as usize] {
            Some(v) => v.copy(),
            None => RegVal::Reg(src),
        }
    }

    /// Follows a move. Returns whether that could be done.
    fn apply_move(&mut self, s: &str) -> (r: bool)
        requires
            old(self).wf(),
        ensures
            final(self).wf(),
            r == move_followed(old(self).model(), s@),
            r ==> final(self).model() == after_move(old(self).model(), s@),
    {
        proof {
            reveal(after_move);
            reveal(can_follow);
            reveal(move_followed);
            reveal_strlit("$");
            reveal_strlit("$0");
        }
        if let Some((src, dst)) = find_reg_parts(s, "movq %") {
            let v = self.held(src);
            self.set(dst, Some(v));
            return true;
        }
        if let Some((imm, dst)) = find_imm_move(s) {
            let mut lit = "$".to_owned();
            lit.append(imm);
            self.set(dst, Some(RegVal::Literal(lit)));
            return true;
        }
        if let Some(dst) = find_cleared(s) {
            self.set(dst, Some(RegVal::Literal("$0".to_owned())));
            return true;
        }
        if let Some((src, dst)) = find_reg_parts(s, "movl %") {
            if let Some(v) = self.held(src).low_half() {
                self.set(dst, Some(v));
                return true;
            }
        }
        false
    }

    fn is_taken_from(&self, reg: RegId, src: RegId) -> (r: bool)
        requires
            self.wf(),
            types::gp(reg),
        ensures
            r == taken_from(self.model()[reg as int], src),
    {
        assert(self.model()[reg as int] == slot_model(self.slots@[reg as int]));
        match &self.slots[reg as usize] {
            Some(RegVal::Reg(x)) => *x == src,
            Some(RegVal::Low(x)) => *x == src,
            _ => false,
        }
    }

    /// Was no register given what `src` held?
    fn is_not_given(&self, src: RegId) -> (r: bool)
        requires
            self.wf(),
        ensures
            r == forall|k: int|
                0 <= k < self.model().len() ==> !taken_from(#[trigger] self.model()[k], src),
    {
        let ghost m = self.model();
        let mut k: RegId = 0;
        while k < 16
            invariant
                self.wf(),
                m == self.model(),
                k <= 16,
                forall|x: int| 0 <= x < k ==> !taken_from(#[trigger] m[x], src),
            decreases 16 - k,
        {
            if self.is_taken_from(k, src) {
                assert(taken_from(m[k as int], src));
                return false;
            }
            k += 1;
        }
        true
    }

    /// Follows an instruction of a chain. Returns whether that could be done.
    fn apply_inst(&mut self, s: &str) -> (r: bool)
        requires
            old(self).wf(),
        ensures
            final(self).wf(),
            r == can_follow(old(self).model(), s@),
            r ==> final(self).model() == after_inst(old(self).model(), s@),
    {
        proof {
            reveal(after_inst);
            reveal(can_follow);
            reveal(move_followed);
        }
        if moves_register(s) {
            return self.apply_move(s);
        }
        match find_parts(s, "addq $") {
            Some((_, dst)) => {
                assert(self.model()[dst as int] == slot_model(self.slots@[dst as int]));
                if self.slots[dst as usize].is_none() && self.is_not_given(dst) {
                    self.set(dst, None);
                    true
                } else {
                    false
                }
            },
            None => false,
        }
    }

    fn find_net_inst(&self, reg: RegId) -> (r: Option<String>)
        requires
            self.wf(),
            types::gp(reg),
        ensures
            match r {
                Some(s) => net_inst(self.model(), reg) == Some(s@),
                None => net_inst(self.model(), reg) is None,
            },
    {
        assert(self.model()[reg as int] == slot_model(self.slots@[reg as int]));
        match &self.slots[reg as usize] {
            Some(RegVal::Reg(src)) => if *src != reg {
                let mut line = "    movq ".to_owned();
                line.append(reg_name(0, *src));
                line.append(", ");
                line.append(reg_name(0, reg));
                Some(line)
            } else {
                None
            },
            Some(RegVal::Low(src)) => {
                let mut line = "    movl ".to_owned();
                line.append(reg_name(1, *src));
                line.append(", ");
                line.append(reg_name(1, reg));
                Some(line)
            },
            Some(RegVal::Literal(lit)) => if same(lit.as_str(), "$0") {
                let mut line = "    xorl ".to_owned();
                line.append(reg_name(1, reg));
                line.append(", ");
                line.append(reg_name(1, reg));
                Some(line)
            } else {
                let mut line = "    movq ".to_owned();
                line.append(lit.as_str());
                line.append(", ");
                line.append(reg_name(0, reg));
                Some(line)
            },
            None => None,
        }
    }
}

impl RegMap {
    fn needs_inst(&self, reg: RegId) -> (r: bool)
        requires
            self.wf(),
            types::gp(reg),
        ensures
            r == (net_inst(self.model(), reg) is Some),
    {
        assert(self.model()[reg as int] == slot_model(self.slots@[reg as int]));
        match &self.slots[reg as usize] {
            Some(RegVal::Reg(src)) => *src != reg,
            Some(_) => true,
            None => false,
        }
    }

    /// Is the register the source of none after it?
    fn is_source_of_none(&self, written: u16, a: RegId) -> (r: bool)
        requires
            self.wf(),
            a < 16,
        ensures
            r == forall|b: RegId|
                a < b < 16 && written & (1u16 << b) != 0 ==> !taken_from(
                    #[trigger] self.model()[b as int],
                    a,
                ),
    {
        let ghost m = self.model();
        let mut b: RegId = a + 1;
        while b < 16
            invariant
                self.wf(),
                m == self.model(),
                a < b <= 16,
                forall|x: RegId|
                    a < x < b && written & (1u16 << x) != 0 ==> !taken_from(
                        #[trigger] m[x as int],
                        a,
                    ),
            decreases 16 - b,
        {
            if written & (1u16 << b) != 0 && self.is_taken_from(b, a) {
                assert(taken_from(m[b as int], a));
                return false;
            }
            b += 1;
        }
        true
    }

    fn is_unclobbered(&self, written: u16) -> (r: bool)
        requires
            self.wf(),
        ensures
            r == unclobbered(self.model(), written),
    {
        let ghost m = self.model();
        let mut a: RegId = 0;
        while a < 16
            invariant
                self.wf(),
                m == self.model(),
                a <= 16,
                forall|x: RegId, b: RegId|
                    #![trigger m[x as int], m[b as int]]
                    x < a && x < b < 16 && written & (1u16 << x) != 0 && written & (1u16 << b) != 0
                        && net_inst(m, x) is Some ==> !taken_from(m[b as int], x),
            decreases 16 - a,
        {
            if written & (1u16 << a) != 0 && self.needs_inst(a) && !self.is_source_of_none(
                written,
                a,
            ) {
                proof {
                    let b = choose|b: RegId|
                        a < b < 16 && written & (1u16 << b) != 0 && taken_from(
                            #[trigger] m[b as int],
                            a,
                        );
                    assert(m[a as int] == m[a as int] && taken_from(m[b as int], a));
                }
                return false;
            }
            a += 1;
        }
        true
    }
}

fn push_additions(out: &mut Vec<String>, insts: &Vec<String>)
    requires
        old(out)@.len() == 0,
    ensures
        texts(final(out)@) == additions(texts(insts@), insts@.len()),
{
    let mut n: usize = 0;
    assert(texts(out@) =~= Seq::empty());
    while n < insts.len()
        invariant
            n <= insts@.len(),
            texts(out@) == additions(texts(insts@), n as nat),
        decreases insts@.len() - n,
    {
        let line = insts[n].as_str();
        let s = trim_text(line);
        if starts_with(s, "addq $") || starts_with(s, "subq $") {
            let ghost before = texts(out@);
            out.push(line.to_owned());
            assert(texts(out@) =~= before.push(line@));
        }
        n += 1;
    }
}

fn push_net_insts(out: &mut Vec<String>, m: &RegMap, written: u16)
    requires
        m.wf(),
    ensures
        texts(final(out)@) == texts(old(out)@) + net_insts(m.model(), written, 16),
{
    let ghost before = texts(out@);
    let mut reg: RegId = 0;
    assert(before + net_insts(m.model(), written, 0) =~= before);
    while reg < 16
        invariant
            m.wf(),
            reg <= 16,
            texts(out@) == before + net_insts(m.model(), written, reg as nat),
        decreases 16 - reg,
    {
        let ghost so_far = texts(out@);
        if written & (1u16 << reg) != 0 {
            if let Some(line) = m.find_net_inst(reg) {
                let ghost text = line@;
                out.push(line);
                assert(texts(out@) =~= so_far.push(text));
                assert(so_far.push(text) =~= before + net_insts(
                    m.model(),
                    written,
                    reg as nat,
                ).push(text));
            }
        }
        reg += 1;
        assert(texts(out@) =~= before + net_insts(m.model(), written, reg as nat));
    }
}

// ── Inlining at a jump ──────────────────────────────────────────────────────

/// The first line of the straight-line code that ends before line `k`.
pub open spec fn straight_from(c: Code, k: int) -> int
    decreases k,
{
    if k <= 0 {
        0
    } else if c.nop(k - 1) || c.kind(k - 1) is Empty {
        straight_from(c, k - 1)
    } else if c.kind(k - 1) is Label || c.kind(k - 1) is Jmp || diverts(c.kind(k - 1)) {
        k
    } else {
        straight_from(c, k - 1)
    }
}

/// The lines of code from line `k` up to `end`, if all of them are simple.
pub open spec fn simple_lines(c: Code, k: int, end: int) -> Option<Seq<usize>>
    decreases end - k,
{
    if k >= end {
        Some(Seq::empty())
    } else if c.nop(k) || c.kind(k) is Empty {
        simple_lines(c, k + 1, end)
    } else if is_simple(c.body(k)) {
        match simple_lines(c, k + 1, end) {
            Some(rest) => Some(seq![k as usize] + rest),
            None => None,
        }
    } else {
        None
    }
}

/// The texts of some lines.
pub open spec fn lines_at(c: Code, lines: Seq<usize>) -> Seq<Seq<char>> {
    Seq::new(lines.len(), |k: int| c.texts[lines[k] as int])
}

/// The lines in place of those that lead up to a jump, and of the jump itself.
pub open spec fn composed(c: Code, lines: Seq<usize>, chain: Chain) -> Seq<Seq<char>> {
    let moves = lines_at(c, lines);
    let m = after_chain(after_moves(moves, moves.len()), chain.insts, chain.insts.len());
    additions(chain.insts, chain.insts.len()) + net_insts(m, chain.written, 16)
}

/// The lines with those of `new` in place of the first of `slots`, and without the
/// rest of the first `n` of `slots`.
pub open spec fn fill(c: Code, slots: Seq<usize>, new: Seq<Seq<char>>, n: nat) -> Code
    decreases n,
{
    if n == 0 {
        c
    } else {
        let d = fill(c, slots, new, (n - 1) as nat);
        let slot = slots[n - 1] as int;
        if n <= new.len() {
            d.put(slot, new[n - 1])
        } else {
            d.remove(slot)
        }
    }
}

/// The chain that the jump at line `i` leads into, if it ends elsewhere.
pub open spec fn jump_chain(blocks: Map<u32, Join>, c: Code, i: int) -> Option<Chain> {
    if c.kind(i) is Jmp {
        match helpers::jump_number(c.body(i)) {
            Some(n) => if blocks.contains_key(n) && chain_at(blocks, n).target != n {
                Some(chain_at(blocks, n))
            } else {
                None
            },
            None => None,
        }
    } else {
        None
    }
}

/// The lines after the chain behind the jump at line `i` was inlined. That is done
/// where the moves can be composed and it takes no more lines than there are.
pub open spec fn join_step(blocks: Map<u32, Join>, c: Code, i: int) -> Option<Code> {
    match jump_chain(blocks, c, i) {
        Some(chain) => match simple_lines(c, straight_from(c, i), i) {
            Some(lines) => {
                let new = composed(c, lines, chain);
                if lines.len() > 0 && composable(lines_at(c, lines), chain) && new.len()
                    <= lines.len() {
                    Some(
                        fill(
                            c,
                            lines.push(i as usize),
                            new.push("    jmp "@ + helpers::dotl(chain.target)),
                            lines.len() + 1,
                        ),
                    )
                } else {
                    None
                }
            },
            None => None,
        },
        None => None,
    }
}

/// The lines after chains were inlined at the jumps from line `i` on, and whether
/// any was. The join blocks are those at the start.
pub open spec fn join_sweep(blocks: Map<u32, Join>, c: Code, i: int) -> (Code, bool)
    decreases sweep::to_go(c, i),
{
    if i < 0 || i >= c.len() {
        (c, false)
    } else {
        match join_step(blocks, c, i) {
            Some(d) => if d.len() == c.len() {
                (join_sweep(blocks, d, i + 1).0, true)
            } else {
                (c, false)
            },
            None => join_sweep(blocks, c, i + 1),
        }
    }
}

/// The lines after all chains were inlined, and whether any was.
pub open spec fn with_joins_inlined(c: Code) -> (Code, bool) {
    if c.len() < 4 {
        (c, false)
    } else {
        join_sweep(join_map(c), c, 0)
    }
}

fn find_straight_from(store: &LineStore, infos: &[LineInfo], i: usize) -> (r: usize)
    requires
        i <= infos@.len(),
    ensures
        r <= i,
        r == straight_from(types::code(*store, infos@), i as int),
{
    let ghost c = types::code(*store, infos@);
    let mut k: usize = i;
    while k > 0
        invariant
            c == types::code(*store, infos@),
            k <= i <= infos@.len(),
            straight_from(c, i as int) == straight_from(c, k as int),
        decreases k,
    {
        let kind = infos[k - 1].kind;
        if matches!(
            kind,
            LineKind::Label | LineKind::Jmp | LineKind::CondJmp | LineKind::Call
            | LineKind::JmpIndirect | LineKind::Ret
        ) {
            return k;
        }
        k -= 1;
    }
    0
}

fn collect_simple_lines(store: &LineStore, infos: &[LineInfo], from: usize, end: usize) -> (r:
    Option<Vec<usize>>)
    requires
        types::code(*store, infos@).wf(),
        from <= end <= infos@.len(),
    ensures
        match r {
            Some(lines) => simple_lines(
                types::code(*store, infos@),
                from as int,
                end as int,
            ) == Some(lines@) && (forall|k: int|
                0 <= k < lines@.len() ==> #[trigger] lines@[k] < end),
            None => simple_lines(types::code(*store, infos@), from as int, end as int) is None,
        },
{
    let ghost c = types::code(*store, infos@);
    let mut lines: Vec<usize> = Vec::new();
    let mut k: usize = from;
    proof {
        if let Some(rest) = simple_lines(c, from as int, end as int) {
            assert(lines@ + rest =~= rest);
        }
    }
    while k < end
        invariant
            c == types::code(*store, infos@),
            c.wf(),
            from <= k <= end <= infos@.len(),
            forall|n: int| 0 <= n < lines@.len() ==> #[trigger] lines@[n] < end,
            match simple_lines(c, k as int, end as int) {
                Some(rest) => simple_lines(c, from as int, end as int) == Some(lines@ + rest),
                None => simple_lines(c, from as int, end as int) is None,
            },
        decreases end - k,
    {
        if infos[k].is_nop() || matches!(infos[k].kind, LineKind::Empty) {
            k += 1;
            continue;
        }
        if !is_simple_inst(body_of(store, infos, k)) {
            return None;
        }
        let ghost before = lines@;
        lines.push(k);
        proof {
            if let Some(rest) = simple_lines(c, k + 1, end as int) {
                assert(before + (seq![k] + rest) =~= lines@ + rest);
            }
        }
        k += 1;
    }
    assert(lines@ + Seq::<usize>::empty() =~= lines@);
    Some(lines)
}

fn copy_lines(store: &LineStore, infos: &[LineInfo], lines: &Vec<usize>) -> (r: Vec<String>)
    requires
        types::code(*store, infos@).wf(),
        forall|k: int| 0 <= k < lines@.len() ==> #[trigger] lines@[k] < infos@.len(),
    ensures
        texts(r@) == lines_at(types::code(*store, infos@), lines@),
{
    let ghost c = types::code(*store, infos@);
    let mut r: Vec<String> = Vec::new();
    let mut n: usize = 0;
    while n < lines.len()
        invariant
            c == types::code(*store, infos@),
            c.wf(),
            n <= lines@.len(),
            forall|k: int| 0 <= k < lines@.len() ==> #[trigger] lines@[k] < infos@.len(),
            r@.len() == n,
            forall|k: int| 0 <= k < n ==> (#[trigger] r@[k])@ == c.texts[lines@[k] as int],
        decreases lines@.len() - n,
    {
        r.push(store.get(lines[n]).to_owned());
        n += 1;
    }
    assert(texts(r@) =~= lines_at(c, lines@));
    r
}

fn follow_moves(moves: &Vec<String>) -> (r: Option<RegMap>)
    ensures
        match r {
            Some(m) => m.wf() && moves_followed(texts(moves@)) && m.model() == after_moves(
                texts(moves@),
                moves@.len(),
            ),
            None => !moves_followed(texts(moves@)),
        },
{
    let ghost all = texts(moves@);
    let mut m = RegMap::new();
    let mut n: usize = 0;
    while n < moves.len()
        invariant
            n <= moves@.len(),
            m.wf(),
            all == texts(moves@),
            m.model() == after_moves(all, n as nat),
            forall|k: int|
                0 <= k < n ==> move_followed(
                    after_moves(all, k as nat),
                    text::trim(#[trigger] all[k]),
                ),
        decreases moves@.len() - n,
    {
        let s = trim_text(moves[n].as_str());
        assert(s@ == text::trim(all[n as int]));
        if !m.apply_move(s) {
            return None;
        }
        n += 1;
    }
    Some(m)
}

fn follow_chain(m: &mut RegMap, insts: &Vec<String>) -> (r: bool)
    requires
        old(m).wf(),
    ensures
        final(m).wf(),
        r == chain_followed(old(m).model(), texts(insts@)),
        r ==> final(m).model() == after_chain(old(m).model(), texts(insts@), insts@.len()),
{
    let ghost start = m.model();
    let ghost all = texts(insts@);
    let mut k: usize = 0;
    while k < insts.len()
        invariant
            k <= insts@.len(),
            m.wf(),
            start == old(m).model(),
            all == texts(insts@),
            m.model() == after_chain(start, all, k as nat),
            forall|j: int|
                0 <= j < k ==> can_follow(
                    after_chain(start, all, j as nat),
                    text::trim(#[trigger] all[j]),
                ),
        decreases insts@.len() - k,
    {
        let s = trim_text(insts[k].as_str());
        assert(s@ == text::trim(all[k as int]));
        if !m.apply_inst(s) {
            return false;
        }
        k += 1;
    }
    true
}

fn compose(store: &LineStore, infos: &[LineInfo], lines: &Vec<usize>, chain: &ChainInsts) -> (r:
    Option<Vec<String>>)
    requires
        types::code(*store, infos@).wf(),
        forall|k: int| 0 <= k < lines@.len() ==> #[trigger] lines@[k] < infos@.len(),
    ensures
        match r {
            Some(new) => composable(lines_at(types::code(*store, infos@), lines@), chain.model())
                && texts(new@) == composed(types::code(*store, infos@), lines@, chain.model()),
            None => !composable(lines_at(types::code(*store, infos@), lines@), chain.model()),
        },
{
    let moves = copy_lines(store, infos, lines);
    let mut m = match follow_moves(&moves) {
        Some(m) => m,
        None => {
            return None;
        },
    };
    if !follow_chain(&mut m, &chain.insts) || !m.is_unclobbered(chain.written) {
        return None;
    }
    let mut out: Vec<String> = Vec::new();
    push_additions(&mut out, &chain.insts);
    push_net_insts(&mut out, &m, chain.written);
    Some(out)
}

fn fill_slots(
    store: &mut LineStore,
    infos: &mut [LineInfo],
    slots: &Vec<usize>,
    new: &Vec<String>,
)
    requires
        types::code(*old(store), old(infos)@).wf(),
        forall|k: int| 0 <= k < slots@.len() ==> #[trigger] slots@[k] < old(infos)@.len(),
    ensures
        types::code(*final(store), final(infos)@).wf(),
        final(infos)@.len() == old(infos)@.len(),
        types::code(*final(store), final(infos)@) == fill(
            types::code(*old(store), old(infos)@),
            slots@,
            texts(new@),
            slots@.len(),
        ),
{
    let ghost c = types::code(*store, infos@);
    let len = infos.len();
    let mut n: usize = 0;
    while n < slots.len()
        invariant
            n <= slots@.len(),
            len == infos@.len(),
            forall|k: int| 0 <= k < slots@.len() ==> #[trigger] slots@[k] < len,
            types::code(*store, infos@).wf(),
            types::code(*store, infos@) == fill(c, slots@, texts(new@), n as nat),
        decreases slots@.len() - n,
    {
        let slot = slots[n];
        if n < new.len() {
            replace_line(store, &mut infos[slot], slot, new[n].as_str().to_owned());
        } else {
            mark_nop(&mut infos[slot]);
        }
        n += 1;
    }
}

fn inline_at(table: &JoinTable, store: &mut LineStore, infos: &mut [LineInfo], i: usize) -> (applied:
    bool)
    requires
        types::code(*old(store), old(infos)@).wf(),
        i < old(infos)@.len(),
    ensures
        types::code(*final(store), final(infos)@).wf(),
        final(infos)@.len() == old(infos)@.len(),
        join_step(table@, types::code(*old(store), old(infos)@), i as int) == if applied {
            Some(types::code(*final(store), final(infos)@))
        } else {
            None
        },
        !applied ==> types::code(*final(store), final(infos)@) == types::code(
            *old(store),
            old(infos)@,
        ),
{
    if !matches!(infos[i].kind, LineKind::Jmp) {
        return false;
    }
    let first = match jump_label_number(body_of(store, infos, i)) {
        Some(n) => n,
        None => {
            return false;
        },
    };
    if table.block_of(first).is_none() {
        return false;
    }
    let chain = resolve_chain(table, first);
    if chain.target == first {
        return false;
    }
    let mut slots = match collect_simple_lines(store, infos, find_straight_from(store, infos, i), i) {
        Some(lines) => lines,
        None => {
            return false;
        },
    };
    if slots.len() == 0 {
        return false;
    }
    let mut new = match compose(store, infos, &slots, &chain) {
        Some(new) => new,
        None => {
            return false;
        },
    };
    if new.len() > slots.len() {
        return false;
    }
    let mut jump = "    jmp ".to_owned();
    push_dotl(&mut jump, chain.target);
    let ghost composed_lines = texts(new@);
    let ghost jump_text = jump@;
    new.push(jump);
    assert(texts(new@) =~= composed_lines.push(jump_text));
    slots.push(i);
    fill_slots(store, infos, &slots, &new);
    true
}

/// Inline join blocks: blocks that consist only of register moves followed by
/// a jmp (or fallthrough into another join block). For each predecessor that
/// jumps to a join block, substitute the moves using the predecessor's register
/// state and redirect directly to the final target.
pub fn inline_join_blocks(store: &mut LineStore, infos: &mut [LineInfo]) -> (changed: bool)
    requires
        types::code(*old(store), old(infos)@).wf(),
    ensures
        (types::code(*final(store), final(infos)@), changed) == with_joins_inlined(
            types::code(*old(store), old(infos)@),
        ),
        types::code(*final(store), final(infos)@).wf(),
{
    let ghost c0 = types::code(*store, infos@);
    let len = infos.len();
    if len < 4 {
        return false;
    }
    let table = JoinTable::build(store, infos);
    let mut changed = false;
    let mut i: usize = 0;
    while i < len
        invariant
            i <= len == infos@.len(),
            types::code(*store, infos@).wf(),
            join_sweep(table@, c0, 0) == (
                join_sweep(table@, types::code(*store, infos@), i as int).0,
                changed || join_sweep(table@, types::code(*store, infos@), i as int).1,
            ),
        decreases len - i,
    {
        if inline_at(&table, store, infos, i) {
            changed = true;
        }
        i += 1;
    }
    changed
}

} // verus!
