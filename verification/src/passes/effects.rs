//! What each instruction asks of the machine, and that the values it is said to use are
//! those that matter: it does the same where they are the same, and each use counts.

use vstd::prelude::*;

use super::use_def;
use super::use_def::{UseDefInfo, UseLoc};
use crate::ir;
use crate::ir::{
    AtomicRmwOp, BasicBlock, BlockId, Instruction, IrBinOp, IrCmpOp, IrConst, IrFunction, IrType,
    IrUnaryOp, Operand, Terminator, Value,
};

verus! {

// ── What instructions do ────────────────────────────────────────────────────

/// What is asked of the machine, but for the values that are handed to it.
pub enum What {
    /// Space on the stack.
    Reserve(IrType, usize),
    /// As much space on the stack as the value says.
    ReserveMany(usize),
    /// To put the first value at the address that the second is.
    Store(IrType),
    /// What stands at an address.
    Load(IrType),
    Binary(IrBinOp, IrType),
    Unary(IrUnaryOp, IrType),
    Compare(IrCmpOp, IrType),
    /// To call a function of this name with the values.
    Call(String, IrType),
    /// To call the function at the first value with the others.
    CallAt(IrType),
    /// The address so far behind another.
    Element(IrType),
    Cast(IrType, IrType),
    Copy,
    AddressOf(String),
    /// To copy to the first address from the second.
    CopyMemory(usize),
    NextArgument(IrType),
    StartArguments,
    EndArguments,
    /// To copy the list at the second address to the first.
    CopyArguments,
    /// To combine what stands at the first value with the second.
    Update(AtomicRmwOp, IrType),
    /// To put the third value at the first if the second stands there.
    Exchange(IrType),
    LoadAtomic(IrType),
    /// To put the second value at the first.
    StoreAtomic(IrType),
    Fence,
    /// The value for the block that was left.
    Select(Seq<BlockId>),
    AddressOfBlock(BlockId),
    /// The second part of what a call returned, of so many bits.
    SecondPart(nat),
    SetSecondPart(nat),
    Builtin(String),
    /// The second value if the first holds, else the third.
    Choose(IrType),
    StackTop,
    SetStackTop,
    Parameter(usize),
}

/// What an instruction asks, with which operands, and which value takes the answer.
pub struct Deed {
    pub what: What,
    pub operands: Seq<Operand>,
    pub dest: Option<u32>,
}

pub open spec fn asks(dest: Value, what: What, operands: Seq<Operand>) -> Deed {
    Deed { what, operands, dest: Some(dest.0) }
}

pub open spec fn tells(what: What, operands: Seq<Operand>) -> Deed {
    Deed { what, operands, dest: None }
}

pub open spec fn may_ask(dest: Option<Value>, what: What, operands: Seq<Operand>) -> Deed {
    match dest {
        Some(d) => asks(d, what, operands),
        None => tells(what, operands),
    }
}

/// What an instruction does.
pub open spec fn deed(inst: Instruction) -> Deed {
    match inst {
        Instruction::Alloca { dest, ty, size } => asks(dest, What::Reserve(ty, size), seq![]),
        Instruction::DynAlloca { dest, size, align } => asks(
            dest,
            What::ReserveMany(align),
            seq![size],
        ),
        Instruction::Store { val, ptr, ty } => tells(
            What::Store(ty),
            seq![val, Operand::Value(ptr)],
        ),
        Instruction::Load { dest, ptr, ty } => asks(
            dest,
            What::Load(ty),
            seq![Operand::Value(ptr)],
        ),
        Instruction::BinOp { dest, op, lhs, rhs, ty } => asks(
            dest,
            What::Binary(op, ty),
            seq![lhs, rhs],
        ),
        Instruction::UnaryOp { dest, op, src, ty } => asks(dest, What::Unary(op, ty), seq![src]),
        Instruction::Cmp { dest, op, lhs, rhs, ty } => asks(
            dest,
            What::Compare(op, ty),
            seq![lhs, rhs],
        ),
        Instruction::Call { func, info } => may_ask(
            info.dest,
            What::Call(func, info.return_type),
            info.args@,
        ),
        Instruction::CallIndirect { func_ptr, info } => may_ask(
            info.dest,
            What::CallAt(info.return_type),
            seq![func_ptr] + info.args@,
        ),
        Instruction::GetElementPtr { dest, base, offset, ty } => asks(
            dest,
            What::Element(ty),
            seq![Operand::Value(base), offset],
        ),
        Instruction::Cast { dest, src, from_ty, to_ty } => asks(
            dest,
            What::Cast(from_ty, to_ty),
            seq![src],
        ),
        Instruction::Copy { dest, src } => asks(dest, What::Copy, seq![src]),
        Instruction::GlobalAddr { dest, name } => asks(dest, What::AddressOf(name), seq![]),
        Instruction::Memcpy { dest, src, size } => tells(
            What::CopyMemory(size),
            seq![Operand::Value(dest), Operand::Value(src)],
        ),
        Instruction::VaArg { dest, va_list_ptr, result_ty } => asks(
            dest,
            What::NextArgument(result_ty),
            seq![Operand::Value(va_list_ptr)],
        ),
        Instruction::VaStart { va_list_ptr } => tells(
            What::StartArguments,
            seq![Operand::Value(va_list_ptr)],
        ),
        Instruction::VaEnd { va_list_ptr } => tells(
            What::EndArguments,
            seq![Operand::Value(va_list_ptr)],
        ),
        Instruction::VaCopy { dest_ptr, src_ptr } => tells(
            What::CopyArguments,
            seq![Operand::Value(dest_ptr), Operand::Value(src_ptr)],
        ),
        Instruction::AtomicRmw { dest, op, ptr, val, ty } => asks(
            dest,
            What::Update(op, ty),
            seq![ptr, val],
        ),
        Instruction::AtomicCmpxchg { dest, ptr, expected, desired, ty } => asks(
            dest,
            What::Exchange(ty),
            seq![ptr, expected, desired],
        ),
        Instruction::AtomicLoad { dest, ptr, ty } => asks(dest, What::LoadAtomic(ty), seq![ptr]),
        Instruction::AtomicStore { ptr, val, ty } => tells(What::StoreAtomic(ty), seq![ptr, val]),
        Instruction::Fence => tells(What::Fence, seq![]),
        Instruction::Phi { dest, incoming, ty } => asks(
            dest,
            What::Select(incoming@.map_values(|x: (Operand, BlockId)| x.1)),
            incoming@.map_values(|x: (Operand, BlockId)| x.0),
        ),
        Instruction::LabelAddr { dest, label } => asks(dest, What::AddressOfBlock(label), seq![]),
        Instruction::GetReturnF64Second { dest } => asks(dest, What::SecondPart(64), seq![]),
        Instruction::SetReturnF64Second { src } => tells(What::SetSecondPart(64), seq![src]),
        Instruction::GetReturnF32Second { dest } => asks(dest, What::SecondPart(32), seq![]),
        Instruction::SetReturnF32Second { src } => tells(What::SetSecondPart(32), seq![src]),
        Instruction::GetReturnF128Second { dest } => asks(dest, What::SecondPart(128), seq![]),
        Instruction::SetReturnF128Second { src } => tells(What::SetSecondPart(128), seq![src]),
        Instruction::Intrinsic { dest, name, args } => may_ask(dest, What::Builtin(name), args@),
        Instruction::Select { dest, cond, true_val, false_val, ty } => asks(
            dest,
            What::Choose(ty),
            seq![cond, true_val, false_val],
        ),
        Instruction::StackSave { dest } => asks(dest, What::StackTop, seq![]),
        Instruction::StackRestore { ptr } => tells(What::SetStackTop, seq![Operand::Value(ptr)]),
        Instruction::ParamRef { dest, param_idx, ty } => asks(
            dest,
            What::Parameter(param_idx),
            seq![],
        ),
    }
}

/// What a terminator decides by, or hands back.
pub open spec fn decided_by(term: Terminator) -> Seq<Operand> {
    match term {
        Terminator::Return(Some(op)) => seq![op],
        Terminator::Return(None) => seq![],
        Terminator::Branch(_) => seq![],
        Terminator::CondBranch { cond, .. } => seq![cond],
        Terminator::IndirectBranch { target, .. } => seq![target],
        Terminator::Switch { val, .. } => seq![val],
        Terminator::Unreachable => seq![],
    }
}

/// The values of a function, and the rest of the machine.
pub struct State {
    pub values: Map<u32, IrConst>,
    pub rest: int,
}

/// A machine answers what it is asked, and is another afterwards.
pub struct World {
    pub reply: spec_fn(What, Seq<IrConst>, int) -> (IrConst, int),
}

pub open spec fn operand_value(op: Operand, values: Map<u32, IrConst>) -> IrConst {
    match op {
        Operand::Value(v) => values[v.0],
        Operand::Const(c) => c,
    }
}

pub open spec fn operand_values(ops: Seq<Operand>, values: Map<u32, IrConst>) -> Seq<IrConst> {
    Seq::new(ops.len(), |k: int| operand_value(ops[k], values))
}

/// The state after an instruction.
pub open spec fn executed(inst: Instruction, w: World, st: State) -> State {
    let d = deed(inst);
    let (c, rest) = (w.reply)(d.what, operand_values(d.operands, st.values), st.rest);
    State {
        values: match d.dest {
            Some(v) => st.values.insert(v, c),
            None => st.values,
        },
        rest,
    }
}

// ── Uses ────────────────────────────────────────────────────────────────────

/// At how many places two sequences differ.
pub open spec fn differences(a: Seq<IrConst>, b: Seq<IrConst>, n: nat) -> nat
    decreases n,
{
    if n == 0 {
        0
    } else {
        differences(a, b, (n - 1) as nat) + if a[n - 1] != b[n - 1] {
            1nat
        } else {
            0
        }
    }
}

/// How often `v` is among the first `n`.
pub open spec fn times(s: Seq<u32>, v: u32, n: nat) -> nat
    decreases n,
{
    if n == 0 {
        0
    } else {
        times(s, v, (n - 1) as nat) + if s[n - 1] == v {
            1nat
        } else {
            0
        }
    }
}

proof fn lemma_times_joined(a: Seq<u32>, b: Seq<u32>, v: u32, n: nat)
    requires
        n <= b.len(),
    ensures
        times(a + b, v, a.len() + n) == times(a, v, a.len()) + times(b, v, n),
    decreases n,
{
    if n == 0 {
        lemma_times_prefix(a, b, v, a.len());
    } else {
        lemma_times_joined(a, b, v, (n - 1) as nat);
        assert((a + b)[a.len() + n - 1] == b[n - 1]);
    }
}

proof fn lemma_times_prefix(a: Seq<u32>, b: Seq<u32>, v: u32, n: nat)
    requires
        n <= a.len(),
    ensures
        times(a + b, v, n) == times(a, v, n),
    decreases n,
{
    if n > 0 {
        lemma_times_prefix(a, b, v, (n - 1) as nat);
        assert((a + b)[n - 1] == a[n - 1]);
    }
}

proof fn lemma_uses_count(ops: Seq<Operand>, values: Map<u32, IrConst>, v: u32, c: IrConst, n: nat)
    requires
        n <= ops.len(),
        values[v] != c,
    ensures
        differences(
            operand_values(ops, values),
            operand_values(ops, values.insert(v, c)),
            n,
        ) == times(ir::args_used(ops, n), v, ir::args_used(ops, n).len()),
    decreases n,
{
    if n > 0 {
        lemma_uses_count(ops, values, v, c, (n - 1) as nat);
        let before = ir::args_used(ops, (n - 1) as nat);
        let used = ops[n - 1].used();
        lemma_times_joined(before, used, v, used.len());
        reveal_with_fuel(times, 2);
    }
}

proof fn lemma_args_prefix(a: Seq<Operand>, b: Seq<Operand>, n: nat)
    requires
        n <= b.len(),
    ensures
        ir::args_used(a + b, a.len() + n) == ir::args_used(a, a.len()) + ir::args_used(b, n),
    decreases n,
{
    if n == 0 {
        lemma_args_same(a + b, a, a.len());
        assert(ir::args_used(a, a.len()) + ir::args_used(b, 0) =~= ir::args_used(a, a.len()));
    } else {
        lemma_args_prefix(a, b, (n - 1) as nat);
        assert((a + b)[a.len() + n - 1] == b[n - 1]);
        assert(ir::args_used(a + b, a.len() + n) =~= ir::args_used(a, a.len()) + ir::args_used(b, n));
    }
}

proof fn lemma_args_same(a: Seq<Operand>, b: Seq<Operand>, n: nat)
    requires
        n <= a.len(),
        n <= b.len(),
        forall|k: int| 0 <= k < n ==> a[k] == b[k],
    ensures
        ir::args_used(a, n) == ir::args_used(b, n),
    decreases n,
{
    if n > 0 {
        lemma_args_same(a, b, (n - 1) as nat);
    }
}

proof fn lemma_incoming(incoming: Seq<(Operand, BlockId)>, n: nat)
    requires
        n <= incoming.len(),
    ensures
        ir::incoming_used(incoming, n) == ir::args_used(
            incoming.map_values(|x: (Operand, BlockId)| x.0),
            n,
        ),
    decreases n,
{
    if n > 0 {
        lemma_incoming(incoming, (n - 1) as nat);
    }
}

/// The values that an instruction is said to use are those among its operands.
proof fn lemma_used(inst: Instruction)
    ensures
        inst.used() == ir::args_used(deed(inst).operands, deed(inst).operands.len()),
{
    let ops = deed(inst).operands;
    reveal_with_fuel(ir::args_used, 4);
    match inst {
        Instruction::CallIndirect { func_ptr, info } => {
            lemma_args_prefix(seq![func_ptr], info.args@, info.args@.len());
            assert(ir::args_used(seq![func_ptr], 1) =~= func_ptr.used());
        },
        Instruction::Phi { incoming, .. } => {
            lemma_incoming(incoming@, incoming@.len());
        },
        Instruction::Call { info, .. } => {},
        Instruction::Intrinsic { args, .. } => {},
        _ => {
            assert(inst.used() =~= ir::args_used(ops, ops.len()));
        },
    }
}

proof fn lemma_term_used(term: Terminator)
    ensures
        term.used() == ir::args_used(decided_by(term), decided_by(term).len()),
{
    reveal_with_fuel(ir::args_used, 2);
    assert(term.used() =~= ir::args_used(decided_by(term), decided_by(term).len()));
}

/// A value is used as often as there are operands of the instruction that change with it.
pub proof fn law_every_use_counts(inst: Instruction, values: Map<u32, IrConst>, v: u32, c: IrConst)
    requires
        values[v] != c,
    ensures
        times(inst.used(), v, inst.used().len()) == differences(
            operand_values(deed(inst).operands, values),
            operand_values(deed(inst).operands, values.insert(v, c)),
            deed(inst).operands.len(),
        ),
{
    lemma_used(inst);
    lemma_uses_count(deed(inst).operands, values, v, c, deed(inst).operands.len());
}

/// A value is used as often as there are operands of the terminator that change with it.
pub proof fn law_every_use_by_a_terminator_counts(
    term: Terminator,
    values: Map<u32, IrConst>,
    v: u32,
    c: IrConst,
)
    requires
        values[v] != c,
    ensures
        times(term.used(), v, term.used().len()) == differences(
            operand_values(decided_by(term), values),
            operand_values(decided_by(term), values.insert(v, c)),
            decided_by(term).len(),
        ),
{
    lemma_term_used(term);
    lemma_uses_count(decided_by(term), values, v, c, decided_by(term).len());
}

proof fn lemma_among_args(ops: Seq<Operand>, k: int, n: nat)
    requires
        0 <= k < n <= ops.len(),
        ops[k] is Value,
    ensures
        ir::args_used(ops, n).contains(ops[k]->Value_0.0),
    decreases n,
{
    let v = ops[k]->Value_0.0;
    let before = ir::args_used(ops, (n - 1) as nat);
    let last = ops[n - 1].used();
    if k == n - 1 {
        assert((before + last)[before.len() as int] == v);
    } else {
        lemma_among_args(ops, k, (n - 1) as nat);
        let j = choose|j: int| 0 <= j < before.len() && before[j] == v;
        assert((before + last)[j] == v);
    }
}

/// An instruction does the same, and writes the same value, in two states that agree on
/// the values it uses. It writes the value that it defines, and no other.
pub proof fn law_only_used_values_matter(inst: Instruction, w: World, a: State, b: State)
    requires
        a.rest == b.rest,
        forall|v: u32| #[trigger] inst.used().contains(v) ==> a.values[v] == b.values[v],
    ensures
        executed(inst, w, a).rest == executed(inst, w, b).rest,
        inst.defines() matches Some(d) ==> {
            let c = executed(inst, w, a).values[d.0];
            &&& executed(inst, w, a).values == a.values.insert(d.0, c)
            &&& executed(inst, w, b).values == b.values.insert(d.0, c)
        },
        inst.defines() is None ==> executed(inst, w, a).values == a.values,
{
    let ops = deed(inst).operands;
    lemma_used(inst);
    assert forall|k: int| 0 <= k < ops.len() implies operand_value(ops[k], a.values)
        == operand_value(ops[k], b.values) by {
        if ops[k] is Value {
            lemma_among_args(ops, k, ops.len());
        }
    }
    assert(operand_values(ops, a.values) =~= operand_values(ops, b.values));
}

/// What an instruction defines is what its answer goes to.
pub proof fn law_defined_value_takes_the_answer(inst: Instruction, w: World, st: State)
    ensures
        ({
            let d = deed(inst);
            let (c, rest) = (w.reply)(d.what, operand_values(d.operands, st.values), st.rest);
            executed(inst, w, st).values == match inst.defines() {
                Some(v) => st.values.insert(v.0, c),
                None => st.values,
            }
        }),
{
}

// ── Dead values ─────────────────────────────────────────────────────────────

/// `v` is among the uses.
spec fn is_used(uses: Seq<(u32, UseLoc)>, v: u32) -> bool {
    exists|k: int| 0 <= k < uses.len() && (#[trigger] uses[k]).0 == v
}

proof fn lemma_used_left(a: Seq<(u32, UseLoc)>, b: Seq<(u32, UseLoc)>, v: u32)
    requires
        is_used(a, v),
    ensures
        is_used(a + b, v),
{
    let k = choose|k: int| 0 <= k < a.len() && (#[trigger] a[k]).0 == v;
    assert((a + b)[k].0 == v);
}

proof fn lemma_used_right(a: Seq<(u32, UseLoc)>, b: Seq<(u32, UseLoc)>, v: u32)
    requires
        is_used(b, v),
    ensures
        is_used(a + b, v),
{
    let k = choose|k: int| 0 <= k < b.len() && (#[trigger] b[k]).0 == v;
    assert((a + b)[a.len() + k].0 == v);
}

proof fn lemma_used_at(values: Seq<u32>, loc: UseLoc, v: u32)
    requires
        values.contains(v),
    ensures
        is_used(use_def::at_loc(values, loc), v),
{
    let k = choose|k: int| 0 <= k < values.len() && values[k] == v;
    assert(use_def::at_loc(values, loc)[k].0 == v);
}

proof fn lemma_phi_counts(incoming: Seq<(Operand, BlockId)>, dest: u32, n: nat, v: u32)
    requires
        n <= incoming.len(),
        ir::incoming_used(incoming, n).contains(v),
        v != dest,
    ensures
        use_def::phi_used(incoming, dest, n).contains(v),
    decreases n,
{
    if n > 0 {
        let before = ir::incoming_used(incoming, (n - 1) as nat);
        let kept = use_def::phi_used(incoming, dest, (n - 1) as nat);
        let all = ir::incoming_used(incoming, n);
        let k = choose|k: int| 0 <= k < all.len() && all[k] == v;
        if k < before.len() {
            assert(before[k] == v);
            lemma_phi_counts(incoming, dest, (n - 1) as nat, v);
            let j = choose|j: int| 0 <= j < kept.len() && kept[j] == v;
            assert(use_def::phi_used(incoming, dest, n)[j] == v);
        } else {
            assert(use_def::phi_used(incoming, dest, n)[kept.len() as int] == v);
        }
    }
}

proof fn lemma_used_in_insts(insts: Seq<Instruction>, block: u32, n: nat, i: int, v: u32)
    requires
        0 <= i < n <= insts.len(),
        insts[i].used().contains(v),
        insts[i].defines() != Some(Value(v)),
    ensures
        is_used(use_def::uses_in_insts(insts, block, n), v),
    decreases n,
{
    let before = use_def::uses_in_insts(insts, block, (n - 1) as nat);
    let loc = UseLoc { block_idx: block, inst_idx: (n - 1) as u32 };
    let last = use_def::at_loc(use_def::counted(insts[n - 1]), loc);
    if i == n - 1 {
        if let Instruction::Phi { dest, incoming, .. } = insts[i] {
            lemma_phi_counts(incoming@, dest.0, incoming@.len(), v);
        }
        lemma_used_at(use_def::counted(insts[i]), loc, v);
        lemma_used_right(before, last, v);
    } else {
        lemma_used_in_insts(insts, block, (n - 1) as nat, i, v);
        lemma_used_left(before, last, v);
    }
}

/// The instruction, or the terminator, of a block that uses `v`.
proof fn lemma_used_in_blocks(blocks: Seq<BasicBlock>, n: nat, b: int, i: int, v: u32)
    requires
        0 <= b < n <= blocks.len(),
        0 <= i <= blocks[b].instructions@.len(),
        if i < blocks[b].instructions@.len() {
            &&& blocks[b].instructions@[i].used().contains(v)
            &&& blocks[b].instructions@[i].defines() != Some(Value(v))
        } else {
            blocks[b].terminator.used().contains(v)
        },
    ensures
        is_used(use_def::uses_in_blocks(blocks, n), v),
    decreases n,
{
    let before = use_def::uses_in_blocks(blocks, (n - 1) as nat);
    let insts = blocks[n - 1].instructions@;
    let inner = use_def::uses_in_insts(insts, (n - 1) as u32, insts.len());
    let loc = UseLoc { block_idx: (n - 1) as u32, inst_idx: use_def::TERMINATOR_INDEX };
    let last = use_def::at_loc(blocks[n - 1].terminator.used(), loc);
    if b < n - 1 {
        lemma_used_in_blocks(blocks, (n - 1) as nat, b, i, v);
        lemma_used_left(before, inner, v);
        lemma_used_left(before + inner, last, v);
    } else if i < insts.len() {
        lemma_used_in_insts(insts, (n - 1) as u32, insts.len(), i, v);
        lemma_used_right(before, inner, v);
        lemma_used_left(before + inner, last, v);
    } else {
        lemma_used_at(blocks[n - 1].terminator.used(), loc, v);
        lemma_used_right(before + inner, last, v);
    }
}

/// A value that is dead has no effect: whatever it is, each instruction of the function
/// but the one that defines it does the same, and each terminator decides the same.
pub proof fn law_dead_value_has_no_effect(
    info: UseDefInfo,
    func: IrFunction,
    v: u32,
    b: int,
    i: int,
    w: World,
    st: State,
    c: IrConst,
)
    requires
        info.describes(func),
        v <= func.max_value(),
        info.use_count@[v as int] == 0,
        0 <= b < func.blocks@.len(),
        0 <= i <= func.blocks@[b].instructions@.len(),
    ensures
        ({
            let block = func.blocks@[b];
            let other = State { values: st.values.insert(v, c), ..st };
            if i < block.instructions@.len() {
                let inst = block.instructions@[i];
                let x = executed(inst, w, st);
                let y = executed(inst, w, other);
                inst.defines() != Some(Value(v)) ==> {
                    &&& x.rest == y.rest
                    &&& inst.defines() matches Some(d) ==> x.values[d.0] == y.values[d.0]
                }
            } else {
                operand_values(decided_by(block.terminator), st.values) == operand_values(
                    decided_by(block.terminator),
                    other.values,
                )
            }
        }),
{
    use_def::law_dead_means_unused(info, func, v);
    let block = func.blocks@[b];
    let other = State { values: st.values.insert(v, c), ..st };
    let n = func.blocks@.len();
    if i < block.instructions@.len() {
        let inst = block.instructions@[i];
        if inst.defines() != Some(Value(v)) {
            if inst.used().contains(v) {
                lemma_used_in_blocks(func.blocks@, n, b, i, v);
                assert(false);
            }
            law_only_used_values_matter(inst, w, st, other);
        }
    } else {
        let term = block.terminator;
        let ops = decided_by(term);
        if term.used().contains(v) {
            lemma_used_in_blocks(func.blocks@, n, b, i, v);
            assert(false);
        }
        lemma_term_used(term);
        assert forall|k: int| 0 <= k < ops.len() implies operand_value(ops[k], st.values)
            == operand_value(ops[k], other.values) by {
            if ops[k] is Value {
                lemma_among_args(ops, k, ops.len());
            }
        }
        assert(operand_values(ops, st.values) =~= operand_values(ops, other.values));
    }
}

/// Of the operands of a phi all count that are not the phi itself, each as often as it is
/// there.
pub proof fn law_phi_counts_all_others(
    incoming: Seq<(Operand, BlockId)>,
    dest: u32,
    n: nat,
    v: u32,
)
    requires
        n <= incoming.len(),
        v != dest,
    ensures
        ({
            let counted = use_def::phi_used(incoming, dest, n);
            let all = ir::incoming_used(incoming, n);
            times(counted, v, counted.len()) == times(all, v, all.len())
        }),
    decreases n,
{
    if n > 0 {
        law_phi_counts_all_others(incoming, dest, (n - 1) as nat, v);
        let before = use_def::phi_used(incoming, dest, (n - 1) as nat);
        let all = ir::incoming_used(incoming, (n - 1) as nat);
        let used = incoming[n - 1].0.used();
        lemma_times_joined(all, used, v, used.len());
        reveal_with_fuel(times, 2);
        if let Operand::Value(x) = incoming[n - 1].0 {
            if x.0 != dest {
                assert(before.push(x.0) =~= before + seq![x.0]);
                lemma_times_joined(before, seq![x.0], v, 1);
            }
        }
    }
}

/// No value that a function defines is greater than its greatest, if the function keeps no
/// count of its own.
pub proof fn law_defined_values_are_numbered(func: IrFunction, b: int, i: int)
    requires
        func.next_value_id == 0,
        0 <= b < func.blocks@.len(),
        0 <= i < func.blocks@[b].instructions@.len(),
        func.blocks@[b].instructions@[i].defines() is Some,
    ensures
        func.blocks@[b].instructions@[i].defines()->Some_0.0 <= func.max_value(),
{
    let insts = func.blocks@[b].instructions@;
    lemma_max_defined(insts, insts.len(), i);
    lemma_max_in_blocks(func.blocks@, func.blocks@.len(), b);
}

proof fn lemma_max_defined(insts: Seq<Instruction>, n: nat, i: int)
    requires
        0 <= i < n <= insts.len(),
        insts[i].defines() is Some,
    ensures
        insts[i].defines()->Some_0.0 <= ir::max_defined(insts, n),
    decreases n,
{
    if i < n - 1 {
        lemma_max_defined(insts, (n - 1) as nat, i);
    }
}

proof fn lemma_max_in_blocks(blocks: Seq<BasicBlock>, n: nat, b: int)
    requires
        0 <= b < n <= blocks.len(),
    ensures
        ir::max_defined(blocks[b].instructions@, blocks[b].instructions@.len())
            <= ir::max_in_blocks(blocks, n),
    decreases n,
{
    if b < n - 1 {
        lemma_max_in_blocks(blocks, (n - 1) as nat, b);
    }
}

} // verus!
