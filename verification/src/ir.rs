//! The intermediate representation: functions in static single assignment form.

use vstd::prelude::*;

verus! {

/// An SSA value, by its number.
#[derive(Debug, Clone, Copy, PartialEq, Eq, Structural)]
pub struct Value(pub u32);

/// The label of a basic block.
#[derive(Debug, Clone, Copy, PartialEq, Eq, Structural)]
pub struct BlockId(pub u32);

/// The type of a value.
#[derive(Debug, Clone, Copy, PartialEq, Eq, Structural)]
pub enum IrType {
    Void,
    I8,
    U8,
    I16,
    U16,
    I32,
    U32,
    I64,
    U64,
    I128,
    U128,
    F32,
    F64,
    F128,
    Ptr,
}

impl IrType {
    pub open spec fn wide(self) -> bool {
        self is I128 || self is U128
    }

    pub open spec fn floating(self) -> bool {
        self is F32 || self is F64 || self is F128
    }

    /// `v` cut down to this type and extended again, by its sign if it has one.
    pub open spec fn truncated(self, v: i64) -> i64 {
        match self {
            IrType::I8 => (v as i8) as i64,
            IrType::U8 => (v as u8) as i64,
            IrType::I16 => (v as i16) as i64,
            IrType::U16 => (v as u16) as i64,
            IrType::I32 => (v as i32) as i64,
            IrType::U32 => (v as u32) as i64,
            _ => v,
        }
    }

    /// Number of bits of an integer of this type.
    pub open spec fn width(self) -> u32 {
        match self {
            IrType::I8 | IrType::U8 => 8,
            IrType::I16 | IrType::U16 => 16,
            IrType::I32 | IrType::U32 => 32,
            IrType::I128 | IrType::U128 => 128,
            _ => 64,
        }
    }

    pub fn is_128bit(&self) -> (r: bool)
        ensures
            r == self.wide(),
    {
        matches!(self, IrType::I128 | IrType::U128)
    }

    pub fn is_float(&self) -> (r: bool)
        ensures
            r == self.floating(),
    {
        matches!(self, IrType::F32 | IrType::F64 | IrType::F128)
    }

    /// Cuts a value down to this type and extends it again.
    pub fn truncate_i64(&self, v: i64) -> (r: i64)
        ensures
            r == self.truncated(v),
    {
        match self {
            IrType::I8 => (v as i8) as i64,
            IrType::U8 => (v as u8) as i64,
            IrType::I16 => (v as i16) as i64,
            IrType::U16 => (v as u16) as i64,
            IrType::I32 => (v as i32) as i64,
            IrType::U32 => (v as u32) as i64,
            _ => v,
        }
    }

    /// Number of bits of an integer of this type.
    pub fn bits(&self) -> (r: u32)
        ensures
            r == self.width(),
    {
        match self {
            IrType::I8 | IrType::U8 => 8,
            IrType::I16 | IrType::U16 => 16,
            IrType::I32 | IrType::U32 => 32,
            IrType::I128 | IrType::U128 => 128,
            _ => 64,
        }
    }
}

/// A constant. Floating-point constants are held by their bits: binary32 and
/// binary64, and for long double the value as binary64 and as binary128.
#[derive(Debug, Clone, Copy, PartialEq, Eq, Structural)]
pub enum IrConst {
    I8(i8),
    I16(i16),
    I32(i32),
    I64(i64),
    I128(i128),
    F32(u32),
    F64(u64),
    LongDouble(u64, u128),
    Zero,
}

impl IrConst {
    /// The integer that this is, if it is one.
    pub open spec fn integer(self) -> Option<int> {
        match self {
            IrConst::I8(v) => Some(v as int),
            IrConst::I16(v) => Some(v as int),
            IrConst::I32(v) => Some(v as int),
            IrConst::I64(v) => Some(v as int),
            IrConst::I128(v) => Some(v as int),
            IrConst::Zero => Some(0),
            _ => None,
        }
    }

    /// The integer that this is, if it has 64 bits.
    pub open spec fn as_i64(self) -> Option<i64> {
        match self.integer() {
            Some(v) => if i64::MIN <= v <= i64::MAX {
                Some(v as i64)
            } else {
                None
            },
            None => None,
        }
    }

    /// The integer that this is, with 128 bits.
    pub open spec fn as_i128(self) -> Option<i128> {
        match self.integer() {
            Some(v) => Some(v as i128),
            None => None,
        }
    }

    /// The constant of a type with the low bits of `v`.
    pub open spec fn of(v: i64, ty: IrType) -> IrConst {
        match ty {
            IrType::I8 | IrType::U8 => IrConst::I8(v as i8),
            IrType::I16 | IrType::U16 => IrConst::I16(v as i16),
            IrType::I32 | IrType::U32 => IrConst::I32(v as i32),
            IrType::I128 | IrType::U128 => IrConst::I128(v as i128),
            _ => IrConst::I64(v),
        }
    }

    pub fn to_i64(&self) -> (r: Option<i64>)
        ensures
            r == self.as_i64(),
    {
        match *self {
            IrConst::I8(v) => Some(v as i64),
            IrConst::I16(v) => Some(v as i64),
            IrConst::I32(v) => Some(v as i64),
            IrConst::I64(v) => Some(v),
            IrConst::I128(v) => if i64::MIN as i128 <= v && v <= i64::MAX as i128 {
                Some(v as i64)
            } else {
                None
            },
            IrConst::Zero => Some(0),
            _ => None,
        }
    }

    pub fn to_i128(&self) -> (r: Option<i128>)
        ensures
            r == self.as_i128(),
    {
        match *self {
            IrConst::I8(v) => Some(v as i128),
            IrConst::I16(v) => Some(v as i128),
            IrConst::I32(v) => Some(v as i128),
            IrConst::I64(v) => Some(v as i128),
            IrConst::I128(v) => Some(v),
            IrConst::Zero => Some(0),
            _ => None,
        }
    }

    /// The constant of a type with the low bits of a value.
    pub fn from_i64(v: i64, ty: IrType) -> (r: IrConst)
        ensures
            r == IrConst::of(v, ty),
    {
        match ty {
            IrType::I8 | IrType::U8 => IrConst::I8(v as i8),
            IrType::I16 | IrType::U16 => IrConst::I16(v as i16),
            IrType::I32 | IrType::U32 => IrConst::I32(v as i32),
            IrType::I128 | IrType::U128 => IrConst::I128(v as i128),
            _ => IrConst::I64(v),
        }
    }
}

/// A constant made from a value has that value, as far as its type goes.
pub proof fn law_constant_round_trip(v: i64, ty: IrType)
    ensures
        IrConst::of(v, ty).as_i64() is Some,
        ty.truncated(IrConst::of(v, ty).as_i64()->0) == ty.truncated(v),
{
    assert(((v as i8) as i64) as i8 == v as i8 && ((v as i8) as i64) as u8 == v as u8 && ((
    v as i16) as i64) as i16 == v as i16 && ((v as i16) as i64) as u16 == v as u16 && ((
    v as i32) as i64) as i32 == v as i32 && ((v as i32) as i64) as u32 == v as u32) by (
        bit_vector);
}

#[derive(Debug, Clone, Copy, PartialEq, Eq, Structural)]
pub enum IrBinOp {
    Add,
    Sub,
    Mul,
    SDiv,
    UDiv,
    SRem,
    URem,
    And,
    Or,
    Xor,
    Shl,
    AShr,
    LShr,
}

#[derive(Debug, Clone, Copy, PartialEq, Eq, Structural)]
pub enum IrUnaryOp {
    Neg,
    Not,
    /// Is the operand known to be a constant?
    IsConstant,
}

#[derive(Debug, Clone, Copy, PartialEq, Eq, Structural)]
pub enum IrCmpOp {
    Eq,
    Ne,
    Slt,
    Sle,
    Sgt,
    Sge,
    Ult,
    Ule,
    Ugt,
    Uge,
}

#[derive(Debug, Clone, Copy, PartialEq, Eq, Structural)]
pub enum AtomicRmwOp {
    Add,
    Sub,
    And,
    Or,
    Xor,
    Nand,
    Xchg,
}

#[derive(Debug, Clone, Copy, PartialEq, Eq, Structural)]
pub enum Operand {
    Value(Value),
    Const(IrConst),
}

impl Operand {
    /// The value that the operand uses, if any.
    pub open spec fn used(self) -> Seq<u32> {
        match self {
            Operand::Value(v) => seq![v.0],
            Operand::Const(_) => Seq::empty(),
        }
    }
}

/// What direct and indirect calls have in common.
#[derive(Debug, Clone)]
pub struct CallInfo {
    pub dest: Option<Value>,
    pub args: Vec<Operand>,
    pub return_type: IrType,
}

#[allow(inconsistent_fields)]
#[derive(Debug, Clone)]
pub enum Instruction {
    Alloca { dest: Value, ty: IrType, size: usize },
    DynAlloca { dest: Value, size: Operand, align: usize },
    Store { val: Operand, ptr: Value, ty: IrType },
    Load { dest: Value, ptr: Value, ty: IrType },
    BinOp { dest: Value, op: IrBinOp, lhs: Operand, rhs: Operand, ty: IrType },
    UnaryOp { dest: Value, op: IrUnaryOp, src: Operand, ty: IrType },
    Cmp { dest: Value, op: IrCmpOp, lhs: Operand, rhs: Operand, ty: IrType },
    Call { func: String, info: CallInfo },
    CallIndirect { func_ptr: Operand, info: CallInfo },
    GetElementPtr { dest: Value, base: Value, offset: Operand, ty: IrType },
    Cast { dest: Value, src: Operand, from_ty: IrType, to_ty: IrType },
    Copy { dest: Value, src: Operand },
    GlobalAddr { dest: Value, name: String },
    /// Copies memory between two addresses.
    Memcpy { dest: Value, src: Value, size: usize },
    VaArg { dest: Value, va_list_ptr: Value, result_ty: IrType },
    VaStart { va_list_ptr: Value },
    VaEnd { va_list_ptr: Value },
    VaCopy { dest_ptr: Value, src_ptr: Value },
    AtomicRmw { dest: Value, op: AtomicRmwOp, ptr: Operand, val: Operand, ty: IrType },
    AtomicCmpxchg { dest: Value, ptr: Operand, expected: Operand, desired: Operand, ty: IrType },
    AtomicLoad { dest: Value, ptr: Operand, ty: IrType },
    AtomicStore { ptr: Operand, val: Operand, ty: IrType },
    Fence,
    Phi { dest: Value, incoming: Vec<(Operand, BlockId)>, ty: IrType },
    LabelAddr { dest: Value, label: BlockId },
    GetReturnF64Second { dest: Value },
    SetReturnF64Second { src: Operand },
    GetReturnF32Second { dest: Value },
    SetReturnF32Second { src: Operand },
    GetReturnF128Second { dest: Value },
    SetReturnF128Second { src: Operand },
    Intrinsic { dest: Option<Value>, name: String, args: Vec<Operand> },
    Select { dest: Value, cond: Operand, true_val: Operand, false_val: Operand, ty: IrType },
    StackSave { dest: Value },
    StackRestore { ptr: Value },
    /// The value of a parameter at the function's entry.
    ParamRef { dest: Value, param_idx: usize, ty: IrType },
}

/// The values that the first `n` of some operands use.
pub open spec fn args_used(args: Seq<Operand>, n: nat) -> Seq<u32>
    decreases n,
{
    if n == 0 {
        Seq::empty()
    } else {
        args_used(args, (n - 1) as nat) + args[n - 1].used()
    }
}

/// The values that the first `n` incoming operands of a phi use.
pub open spec fn incoming_used(incoming: Seq<(Operand, BlockId)>, n: nat) -> Seq<u32>
    decreases n,
{
    if n == 0 {
        Seq::empty()
    } else {
        incoming_used(incoming, (n - 1) as nat) + incoming[n - 1].0.used()
    }
}

impl Instruction {
    /// The value that the instruction defines.
    pub open spec fn defines(&self) -> Option<Value> {
        match self {
            Instruction::Alloca { dest, .. } => Some(*dest),
            Instruction::DynAlloca { dest, .. } => Some(*dest),
            Instruction::Load { dest, .. } => Some(*dest),
            Instruction::BinOp { dest, .. } => Some(*dest),
            Instruction::UnaryOp { dest, .. } => Some(*dest),
            Instruction::Cmp { dest, .. } => Some(*dest),
            Instruction::Call { info, .. } => info.dest,
            Instruction::CallIndirect { info, .. } => info.dest,
            Instruction::GetElementPtr { dest, .. } => Some(*dest),
            Instruction::Cast { dest, .. } => Some(*dest),
            Instruction::Copy { dest, .. } => Some(*dest),
            Instruction::GlobalAddr { dest, .. } => Some(*dest),
            Instruction::VaArg { dest, .. } => Some(*dest),
            Instruction::AtomicRmw { dest, .. } => Some(*dest),
            Instruction::AtomicCmpxchg { dest, .. } => Some(*dest),
            Instruction::AtomicLoad { dest, .. } => Some(*dest),
            Instruction::Phi { dest, .. } => Some(*dest),
            Instruction::LabelAddr { dest, .. } => Some(*dest),
            Instruction::GetReturnF64Second { dest } => Some(*dest),
            Instruction::GetReturnF32Second { dest } => Some(*dest),
            Instruction::GetReturnF128Second { dest } => Some(*dest),
            Instruction::Intrinsic { dest, .. } => *dest,
            Instruction::Select { dest, .. } => Some(*dest),
            Instruction::StackSave { dest } => Some(*dest),
            Instruction::ParamRef { dest, .. } => Some(*dest),
            _ => None,
        }
    }

    /// The values that the instruction uses, in the order of its operands.
    pub open spec fn used(&self) -> Seq<u32> {
        match self {
            Instruction::DynAlloca { size, .. } => size.used(),
            Instruction::Store { val, ptr, .. } => val.used() + seq![ptr.0],
            Instruction::Load { ptr, .. } => seq![ptr.0],
            Instruction::BinOp { lhs, rhs, .. } => lhs.used() + rhs.used(),
            Instruction::UnaryOp { src, .. } => src.used(),
            Instruction::Cmp { lhs, rhs, .. } => lhs.used() + rhs.used(),
            Instruction::Call { info, .. } => args_used(info.args@, info.args@.len()),
            Instruction::CallIndirect { func_ptr, info } => func_ptr.used() + args_used(
                info.args@,
                info.args@.len(),
            ),
            Instruction::GetElementPtr { base, offset, .. } => seq![base.0] + offset.used(),
            Instruction::Cast { src, .. } => src.used(),
            Instruction::Copy { src, .. } => src.used(),
            Instruction::Memcpy { dest, src, .. } => seq![dest.0] + seq![src.0],
            Instruction::VaArg { va_list_ptr, .. } => seq![va_list_ptr.0],
            Instruction::VaStart { va_list_ptr } => seq![va_list_ptr.0],
            Instruction::VaEnd { va_list_ptr } => seq![va_list_ptr.0],
            Instruction::VaCopy { dest_ptr, src_ptr } => seq![dest_ptr.0] + seq![src_ptr.0],
            Instruction::AtomicRmw { ptr, val, .. } => ptr.used() + val.used(),
            Instruction::AtomicCmpxchg { ptr, expected, desired, .. } => ptr.used()
                + expected.used() + desired.used(),
            Instruction::AtomicLoad { ptr, .. } => ptr.used(),
            Instruction::AtomicStore { ptr, val, .. } => ptr.used() + val.used(),
            Instruction::Phi { incoming, .. } => incoming_used(incoming@, incoming@.len()),
            Instruction::SetReturnF64Second { src } => src.used(),
            Instruction::SetReturnF32Second { src } => src.used(),
            Instruction::SetReturnF128Second { src } => src.used(),
            Instruction::Intrinsic { args, .. } => args_used(args@, args@.len()),
            Instruction::Select { cond, true_val, false_val, .. } => cond.used() + true_val.used()
                + false_val.used(),
            Instruction::StackRestore { ptr } => seq![ptr.0],
            _ => Seq::empty(),
        }
    }

    /// The value that the instruction defines.
    pub fn dest(&self) -> (r: Option<Value>)
        ensures
            r == self.defines(),
    {
        match self {
            Instruction::Alloca { dest, .. } => Some(*dest),
            Instruction::DynAlloca { dest, .. } => Some(*dest),
            Instruction::Load { dest, .. } => Some(*dest),
            Instruction::BinOp { dest, .. } => Some(*dest),
            Instruction::UnaryOp { dest, .. } => Some(*dest),
            Instruction::Cmp { dest, .. } => Some(*dest),
            Instruction::Call { info, .. } => info.dest,
            Instruction::CallIndirect { info, .. } => info.dest,
            Instruction::GetElementPtr { dest, .. } => Some(*dest),
            Instruction::Cast { dest, .. } => Some(*dest),
            Instruction::Copy { dest, .. } => Some(*dest),
            Instruction::GlobalAddr { dest, .. } => Some(*dest),
            Instruction::VaArg { dest, .. } => Some(*dest),
            Instruction::AtomicRmw { dest, .. } => Some(*dest),
            Instruction::AtomicCmpxchg { dest, .. } => Some(*dest),
            Instruction::AtomicLoad { dest, .. } => Some(*dest),
            Instruction::Phi { dest, .. } => Some(*dest),
            Instruction::LabelAddr { dest, .. } => Some(*dest),
            Instruction::GetReturnF64Second { dest } => Some(*dest),
            Instruction::GetReturnF32Second { dest } => Some(*dest),
            Instruction::GetReturnF128Second { dest } => Some(*dest),
            Instruction::Intrinsic { dest, .. } => *dest,
            Instruction::Select { dest, .. } => Some(*dest),
            Instruction::StackSave { dest } => Some(*dest),
            Instruction::ParamRef { dest, .. } => Some(*dest),
            _ => None,
        }
    }

    /// The values that the instruction uses, in the order of its operands.
    pub fn used_values(&self) -> (r: Vec<u32>)
        ensures
            r@ == self.used(),
    {
        let mut out: Vec<u32> = Vec::new();
        match self {
            Instruction::DynAlloca { size, .. } => {
                push_used(&mut out, size);
            },
            Instruction::Store { val, ptr, .. } => {
                push_used(&mut out, val);
                out.push(ptr.0);
            },
            Instruction::Load { ptr, .. } => {
                out.push(ptr.0);
            },
            Instruction::BinOp { lhs, rhs, .. } => {
                push_used(&mut out, lhs);
                push_used(&mut out, rhs);
            },
            Instruction::UnaryOp { src, .. } => {
                push_used(&mut out, src);
            },
            Instruction::Cmp { lhs, rhs, .. } => {
                push_used(&mut out, lhs);
                push_used(&mut out, rhs);
            },
            Instruction::Call { info, .. } => {
                push_args_used(&mut out, &info.args);
            },
            Instruction::CallIndirect { func_ptr, info } => {
                push_used(&mut out, func_ptr);
                push_args_used(&mut out, &info.args);
            },
            Instruction::GetElementPtr { base, offset, .. } => {
                out.push(base.0);
                push_used(&mut out, offset);
            },
            Instruction::Cast { src, .. } => {
                push_used(&mut out, src);
            },
            Instruction::Copy { src, .. } => {
                push_used(&mut out, src);
            },
            Instruction::Memcpy { dest, src, .. } => {
                out.push(dest.0);
                out.push(src.0);
            },
            Instruction::VaArg { va_list_ptr, .. } => {
                out.push(va_list_ptr.0);
            },
            Instruction::VaStart { va_list_ptr } => {
                out.push(va_list_ptr.0);
            },
            Instruction::VaEnd { va_list_ptr } => {
                out.push(va_list_ptr.0);
            },
            Instruction::VaCopy { dest_ptr, src_ptr } => {
                out.push(dest_ptr.0);
                out.push(src_ptr.0);
            },
            Instruction::AtomicRmw { ptr, val, .. } => {
                push_used(&mut out, ptr);
                push_used(&mut out, val);
            },
            Instruction::AtomicCmpxchg { ptr, expected, desired, .. } => {
                push_used(&mut out, ptr);
                push_used(&mut out, expected);
                push_used(&mut out, desired);
            },
            Instruction::AtomicLoad { ptr, .. } => {
                push_used(&mut out, ptr);
            },
            Instruction::AtomicStore { ptr, val, .. } => {
                push_used(&mut out, ptr);
                push_used(&mut out, val);
            },
            Instruction::Phi { incoming, .. } => {
                let mut k: usize = 0;
                while k < incoming.len()
                    invariant
                        k <= incoming@.len(),
                        out@ == incoming_used(incoming@, k as nat),
                    decreases incoming@.len() - k,
                {
                    push_used(&mut out, &incoming[k].0);
                    k += 1;
                }
            },
            Instruction::SetReturnF64Second { src } => {
                push_used(&mut out, src);
            },
            Instruction::SetReturnF32Second { src } => {
                push_used(&mut out, src);
            },
            Instruction::SetReturnF128Second { src } => {
                push_used(&mut out, src);
            },
            Instruction::Intrinsic { args, .. } => {
                push_args_used(&mut out, args);
            },
            Instruction::Select { cond, true_val, false_val, .. } => {
                push_used(&mut out, cond);
                push_used(&mut out, true_val);
                push_used(&mut out, false_val);
            },
            Instruction::StackRestore { ptr } => {
                out.push(ptr.0);
            },
            _ => {},
        }
        assert(out@ =~= self.used());
        out
    }
}

fn push_used(out: &mut Vec<u32>, op: &Operand)
    ensures
        final(out)@ == old(out)@ + op.used(),
{
    if let Operand::Value(v) = op {
        out.push(v.0);
    }
    assert(out@ =~= old(out)@ + op.used());
}

fn push_args_used(out: &mut Vec<u32>, args: &Vec<Operand>)
    ensures
        final(out)@ == old(out)@ + args_used(args@, args@.len()),
{
    let ghost before = out@;
    let mut k: usize = 0;
    assert(before + args_used(args@, 0) =~= before);
    while k < args.len()
        invariant
            k <= args@.len(),
            out@ == before + args_used(args@, k as nat),
        decreases args@.len() - k,
    {
        push_used(out, &args[k]);
        k += 1;
        assert(out@ =~= before + args_used(args@, k as nat));
    }
}

#[derive(Debug, Clone)]
pub enum Terminator {
    Return(Option<Operand>),
    Branch(BlockId),
    CondBranch { cond: Operand, true_label: BlockId, false_label: BlockId },
    IndirectBranch { target: Operand, possible_targets: Vec<BlockId> },
    Switch { val: Operand, cases: Vec<(i64, BlockId)>, default: BlockId, ty: IrType },
    Unreachable,
}

impl Terminator {
    /// The values that the terminator uses.
    pub open spec fn used(&self) -> Seq<u32> {
        match self {
            Terminator::Return(Some(op)) => op.used(),
            Terminator::CondBranch { cond, .. } => cond.used(),
            Terminator::IndirectBranch { target, .. } => target.used(),
            Terminator::Switch { val, .. } => val.used(),
            _ => Seq::empty(),
        }
    }

    /// The values that the terminator uses.
    pub fn used_values(&self) -> (r: Vec<u32>)
        ensures
            r@ == self.used(),
    {
        let mut out: Vec<u32> = Vec::new();
        match self {
            Terminator::Return(Some(op)) => {
                push_used(&mut out, op);
            },
            Terminator::CondBranch { cond, .. } => {
                push_used(&mut out, cond);
            },
            Terminator::IndirectBranch { target, .. } => {
                push_used(&mut out, target);
            },
            Terminator::Switch { val, .. } => {
                push_used(&mut out, val);
            },
            _ => {},
        }
        assert(out@ =~= self.used());
        out
    }
}

/// A place in the source text.
#[derive(Debug, Clone, Copy, PartialEq, Eq, Structural)]
pub struct Span {
    pub start: u32,
    pub end: u32,
}

#[derive(Debug, Clone)]
pub struct BasicBlock {
    pub label: BlockId,
    pub instructions: Vec<Instruction>,
    pub terminator: Terminator,
    pub source_spans: Vec<Span>,
}

/// A parameter of a function.
#[derive(Debug, Clone, Copy, PartialEq, Eq, Structural)]
pub struct IrParam {
    pub ty: IrType,
}

#[derive(Debug, Clone)]
pub struct IrFunction {
    pub name: String,
    pub return_type: IrType,
    pub params: Vec<IrParam>,
    pub blocks: Vec<BasicBlock>,
    pub is_variadic: bool,
    /// The next free value number, or 0 if that is not kept.
    pub next_value_id: u32,
}

pub open spec fn greater(a: u32, b: u32) -> u32 {
    if a >= b {
        a
    } else {
        b
    }
}

/// The greatest value that the first `n` instructions define, or 0.
pub open spec fn max_defined(insts: Seq<Instruction>, n: nat) -> u32
    decreases n,
{
    if n == 0 {
        0
    } else {
        let before = max_defined(insts, (n - 1) as nat);
        match insts[n - 1].defines() {
            Some(v) => greater(before, v.0),
            None => before,
        }
    }
}

/// The greatest value that the first `n` blocks define, or 0.
pub open spec fn max_in_blocks(blocks: Seq<BasicBlock>, n: nat) -> u32
    decreases n,
{
    if n == 0 {
        0
    } else {
        let insts = blocks[n - 1].instructions@;
        greater(max_in_blocks(blocks, (n - 1) as nat), max_defined(insts, insts.len()))
    }
}

impl IrFunction {
    /// The greatest value number of the function.
    pub open spec fn max_value(&self) -> u32 {
        if self.next_value_id > 0 {
            (self.next_value_id - 1) as u32
        } else {
            max_in_blocks(self.blocks@, self.blocks@.len())
        }
    }

    pub fn new(name: String, return_type: IrType, params: Vec<IrParam>, is_variadic: bool) -> (r:
        IrFunction)
        ensures
            r.name == name,
            r.return_type == return_type,
            r.params == params,
            r.is_variadic == is_variadic,
            r.blocks@.len() == 0,
            r.next_value_id == 0,
    {
        IrFunction {
            name,
            return_type,
            params,
            blocks: Vec::new(),
            is_variadic,
            next_value_id: 0,
        }
    }

    /// The greatest value number of the function.
    pub fn max_value_id(&self) -> (r: u32)
        ensures
            r == self.max_value(),
    {
        if self.next_value_id > 0 {
            return self.next_value_id - 1;
        }
        let mut max: u32 = 0;
        let mut b: usize = 0;
        while b < self.blocks.len()
            invariant
                b <= self.blocks@.len(),
                max == max_in_blocks(self.blocks@, b as nat),
            decreases self.blocks@.len() - b,
        {
            let insts = &self.blocks[b].instructions;
            let mut here: u32 = 0;
            let mut i: usize = 0;
            while i < insts.len()
                invariant
                    i <= insts@.len(),
                    here == max_defined(insts@, i as nat),
                decreases insts@.len() - i,
            {
                if let Some(v) = insts[i].dest() {
                    if v.0 > here {
                        here = v.0;
                    }
                }
                i += 1;
            }
            if here > max {
                max = here;
            }
            b += 1;
        }
        max
    }
}

} // verus!
