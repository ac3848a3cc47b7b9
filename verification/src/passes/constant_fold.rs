//! Folding of operations on constants.

use vstd::prelude::*;

use crate::float;
use crate::ir::{IrBinOp, IrCmpOp, IrConst, IrType, IrUnaryOp};

verus! {

// ── Integers of up to 64 bits ───────────────────────────────────────────────

/// The low bits of `v`, as many as the type has, without a sign.
pub open spec fn unsigned(v: i64, ty: IrType) -> u64 {
    match ty {
        IrType::I8 | IrType::U8 => (v as u8) as u64,
        IrType::I16 | IrType::U16 => (v as u16) as u64,
        IrType::I32 | IrType::U32 => (v as u32) as u64,
        _ => v as u64,
    }
}

/// The low bits of `v`, as many as the type has, with a sign.
pub open spec fn signed(v: i64, ty: IrType) -> i64 {
    match ty {
        IrType::I8 | IrType::U8 => (v as i8) as i64,
        IrType::I16 | IrType::U16 => (v as i16) as i64,
        IrType::I32 | IrType::U32 => (v as i32) as i64,
        _ => v,
    }
}

/// The result of an operation on integers, if it is defined, before it is cut down
/// to the type. Division by zero, the quotient and the remainder of the least
/// integer by -1, and shifts by as many bits as there are or more have no result.
pub open spec fn binop_result(op: IrBinOp, l: i64, r: i64, ty: IrType) -> Option<i64> {
    match op {
        IrBinOp::Add => Some(l.wrapping_add(r)),
        IrBinOp::Sub => Some(l.wrapping_sub(r)),
        IrBinOp::Mul => Some(l.wrapping_mul(r)),
        IrBinOp::SDiv => l.checked_div(r),
        IrBinOp::UDiv => if unsigned(r, ty) == 0 {
            None
        } else {
            Some((unsigned(l, ty) / unsigned(r, ty)) as i64)
        },
        IrBinOp::SRem => l.checked_rem(r),
        IrBinOp::URem => if unsigned(r, ty) == 0 {
            None
        } else {
            Some((unsigned(l, ty) % unsigned(r, ty)) as i64)
        },
        IrBinOp::And => Some(l & r),
        IrBinOp::Or => Some(l | r),
        IrBinOp::Xor => Some(l ^ r),
        IrBinOp::Shl => if 0 <= r < ty.width() {
            Some((unsigned(l, ty) << (r as u64)) as i64)
        } else {
            None
        },
        IrBinOp::AShr => if 0 <= r < ty.width() {
            Some(signed(l, ty) >> r)
        } else {
            None
        },
        IrBinOp::LShr => if 0 <= r < ty.width() {
            Some((unsigned(l, ty) >> (r as u64)) as i64)
        } else {
            None
        },
    }
}

/// The folded operation, cut down to the type.
pub open spec fn folded_binop(op: IrBinOp, l: i64, r: i64, ty: IrType) -> Option<i64> {
    match binop_result(op, l, r, ty) {
        Some(v) => Some(ty.truncated(v)),
        None => None,
    }
}

/// The folded operation on one operand, cut down to the type.
pub open spec fn folded_unaryop(op: IrUnaryOp, s: i64, ty: IrType) -> Option<i64> {
    match op {
        IrUnaryOp::Neg => Some(ty.truncated(0i64.wrapping_sub(s))),
        IrUnaryOp::Not => Some(ty.truncated(!s)),
        IrUnaryOp::IsConstant => None,
    }
}

fn to_unsigned(v: i64, ty: IrType) -> (r: u64)
    ensures
        r == unsigned(v, ty),
{
    match ty {
        IrType::I8 | IrType::U8 => (v as u8) as u64,
        IrType::I16 | IrType::U16 => (v as u16) as u64,
        IrType::I32 | IrType::U32 => (v as u32) as u64,
        _ => v as u64,
    }
}

fn to_signed(v: i64, ty: IrType) -> (r: i64)
    ensures
        r == signed(v, ty),
{
    match ty {
        IrType::I8 | IrType::U8 => (v as i8) as i64,
        IrType::I16 | IrType::U16 => (v as i16) as i64,
        IrType::I32 | IrType::U32 => (v as i32) as i64,
        _ => v,
    }
}

/// Folds an operation on two integers of up to 64 bits.
pub fn fold_binop(op: IrBinOp, l: i64, r: i64, ty: IrType) -> (res: Option<i64>)
    requires
        !ty.wide(),
    ensures
        res == folded_binop(op, l, r, ty),
{
    let fits = 0 <= r && r < ty.bits() as i64;
    let v = match op {
        IrBinOp::Add => Some(l.wrapping_add(r)),
        IrBinOp::Sub => Some(l.wrapping_sub(r)),
        IrBinOp::Mul => Some(l.wrapping_mul(r)),
        IrBinOp::SDiv => l.checked_div(r),
        IrBinOp::UDiv => {
            let d = to_unsigned(r, ty);
            if d == 0 {
                None
            } else {
                Some((to_unsigned(l, ty) / d) as i64)
            }
        },
        IrBinOp::SRem => l.checked_rem(r),
        IrBinOp::URem => {
            let d = to_unsigned(r, ty);
            if d == 0 {
                None
            } else {
                Some((to_unsigned(l, ty) % d) as i64)
            }
        },
        IrBinOp::And => Some(l & r),
        IrBinOp::Or => Some(l | r),
        IrBinOp::Xor => Some(l ^ r),
        IrBinOp::Shl => if fits {
            Some((to_unsigned(l, ty) << (r as u64)) as i64)
        } else {
            None
        },
        IrBinOp::AShr => if fits {
            Some(to_signed(l, ty) >> r)
        } else {
            None
        },
        IrBinOp::LShr => if fits {
            Some((to_unsigned(l, ty) >> (r as u64)) as i64)
        } else {
            None
        },
    };
    match v {
        Some(v) => Some(ty.truncate_i64(v)),
        None => None,
    }
}

/// Folds an operation on one integer of up to 64 bits.
pub fn fold_unaryop(op: IrUnaryOp, s: i64, ty: IrType) -> (res: Option<i64>)
    ensures
        res == folded_unaryop(op, s, ty),
{
    match op {
        IrUnaryOp::Neg => Some(ty.truncate_i64(0i64.wrapping_sub(s))),
        IrUnaryOp::Not => Some(ty.truncate_i64(!s)),
        IrUnaryOp::IsConstant => None,
    }
}

/// Casts an integer between types of up to 64 bits.
pub fn fold_cast(v: i64, from_ty: IrType, to_ty: IrType) -> (r: i64)
    ensures
        r == to_ty.truncated(from_ty.truncated(v)),
{
    to_ty.truncate_i64(from_ty.truncate_i64(v))
}

// ── Integers of 128 bits ────────────────────────────────────────────────────

/// The result of an operation on integers of 128 bits, if it is defined.
pub open spec fn folded_wide(op: IrBinOp, l: i128, r: i128) -> Option<i128> {
    match op {
        IrBinOp::Add => Some(l.wrapping_add(r)),
        IrBinOp::Sub => Some(l.wrapping_sub(r)),
        IrBinOp::Mul => Some(l.wrapping_mul(r)),
        IrBinOp::SDiv => l.checked_div(r),
        IrBinOp::UDiv => if r == 0 {
            None
        } else {
            Some(((l as u128) / (r as u128)) as i128)
        },
        IrBinOp::SRem => l.checked_rem(r),
        IrBinOp::URem => if r == 0 {
            None
        } else {
            Some(((l as u128) % (r as u128)) as i128)
        },
        IrBinOp::And => Some(l & r),
        IrBinOp::Or => Some(l | r),
        IrBinOp::Xor => Some(l ^ r),
        IrBinOp::Shl => if 0 <= r < 128 {
            Some(((l as u128) << (r as u128)) as i128)
        } else {
            None
        },
        IrBinOp::AShr => if 0 <= r < 128 {
            Some(l >> r)
        } else {
            None
        },
        IrBinOp::LShr => if 0 <= r < 128 {
            Some(((l as u128) >> (r as u128)) as i128)
        } else {
            None
        },
    }
}

/// The value of 128 bits that an integer of a type stands for.
pub open spec fn widened(v: i128, ty: IrType) -> i128 {
    match ty {
        IrType::I128 | IrType::U128 => v,
        IrType::U64 | IrType::Ptr => (v as u64) as i128,
        _ => ty.truncated(v as i64) as i128,
    }
}

/// The constant that a cast from or to 128 bits gives. Casts that involve floating
/// point are not folded.
pub open spec fn folded_wide_cast(c: IrConst, from_ty: IrType, to_ty: IrType) -> Option<IrConst> {
    if from_ty.floating() || to_ty.floating() {
        None
    } else {
        match c.as_i128() {
            Some(v) => {
                let w = widened(v, from_ty);
                Some(
                    if to_ty.wide() {
                        IrConst::I128(w)
                    } else {
                        IrConst::of(to_ty.truncated(w as i64), to_ty)
                    },
                )
            },
            None => None,
        }
    }
}

impl IrBinOp {
    /// Folds an operation on two integers of 128 bits.
    pub fn eval_i128(self, l: i128, r: i128) -> (res: Option<i128>)
        ensures
            res == folded_wide(self, l, r),
    {
        let fits = 0 <= r && r < 128;
        match self {
            IrBinOp::Add => Some(l.wrapping_add(r)),
            IrBinOp::Sub => Some(l.wrapping_sub(r)),
            IrBinOp::Mul => Some(l.wrapping_mul(r)),
            IrBinOp::SDiv => l.checked_div(r),
            IrBinOp::UDiv => if r == 0 {
                None
            } else {
                proof {
                    lemma_nonzero_u128(r);
                }
                Some(((l as u128) / (r as u128)) as i128)
            },
            IrBinOp::SRem => l.checked_rem(r),
            IrBinOp::URem => if r == 0 {
                None
            } else {
                proof {
                    lemma_nonzero_u128(r);
                }
                Some(((l as u128) % (r as u128)) as i128)
            },
            IrBinOp::And => Some(l & r),
            IrBinOp::Or => Some(l | r),
            IrBinOp::Xor => Some(l ^ r),
            IrBinOp::Shl => if fits {
                Some(((l as u128) << (r as u128)) as i128)
            } else {
                None
            },
            IrBinOp::AShr => if fits {
                Some(l >> r)
            } else {
                None
            },
            IrBinOp::LShr => if fits {
                Some(((l as u128) >> (r as u128)) as i128)
            } else {
                None
            },
        }
    }
}

proof fn lemma_nonzero_u128(r: i128)
    requires
        r != 0,
    ensures
        r as u128 != 0,
{
    assert(r as u128 != 0) by (bit_vector)
        requires
            r != 0,
    ;
}

fn widen(v: i128, ty: IrType) -> (r: i128)
    ensures
        r == widened(v, ty),
{
    match ty {
        IrType::I128 | IrType::U128 => v,
        IrType::U64 | IrType::Ptr => (v as u64) as i128,
        _ => ty.truncate_i64(v as i64) as i128,
    }
}

/// Casts an integer from or to 128 bits.
pub fn fold_cast_i128(c: &IrConst, from_ty: IrType, to_ty: IrType) -> (r: Option<IrConst>)
    ensures
        r == folded_wide_cast(*c, from_ty, to_ty),
{
    if from_ty.is_float() || to_ty.is_float() {
        return None;
    }
    match c.to_i128() {
        Some(v) => {
            let w = widen(v, from_ty);
            if to_ty.is_128bit() {
                Some(IrConst::I128(w))
            } else {
                Some(IrConst::from_i64(to_ty.truncate_i64(w as i64), to_ty))
            }
        },
        None => None,
    }
}

// ── Comparisons ─────────────────────────────────────────────────────────────

/// Does the comparison hold, given how the operands compare with their signs and
/// without?
pub open spec fn holds(op: IrCmpOp, equal: bool, less: bool, below: bool) -> bool {
    match op {
        IrCmpOp::Eq => equal,
        IrCmpOp::Ne => !equal,
        IrCmpOp::Slt => less,
        IrCmpOp::Sle => less || equal,
        IrCmpOp::Sgt => !less && !equal,
        IrCmpOp::Sge => !less,
        IrCmpOp::Ult => below,
        IrCmpOp::Ule => below || equal,
        IrCmpOp::Ugt => !below && !equal,
        IrCmpOp::Uge => !below,
    }
}

fn decide(op: IrCmpOp, equal: bool, less: bool, below: bool) -> (r: bool)
    ensures
        r == holds(op, equal, less, below),
{
    match op {
        IrCmpOp::Eq => equal,
        IrCmpOp::Ne => !equal,
        IrCmpOp::Slt => less,
        IrCmpOp::Sle => less || equal,
        IrCmpOp::Sgt => !less && !equal,
        IrCmpOp::Sge => !less,
        IrCmpOp::Ult => below,
        IrCmpOp::Ule => below || equal,
        IrCmpOp::Ugt => !below && !equal,
        IrCmpOp::Uge => !below,
    }
}

impl IrCmpOp {
    /// Compares integers of up to 64 bits.
    pub fn eval_i64(self, l: i64, r: i64) -> (res: bool)
        ensures
            res == holds(self, l == r, l < r, (l as u64) < (r as u64)),
    {
        decide(self, l == r, l < r, (l as u64) < (r as u64))
    }

    /// Compares integers of 128 bits.
    pub fn eval_i128(self, l: i128, r: i128) -> (res: bool)
        ensures
            res == holds(self, l == r, l < r, (l as u128) < (r as u128)),
    {
        decide(self, l == r, l < r, (l as u128) < (r as u128))
    }

    /// Compares floating-point numbers of 64 bits.
    pub fn eval_f64(self, l: u64, r: u64) -> (res: bool)
        ensures
            res == float_holds(self, l, r),
    {
        let equal = float::is_equal(l, r);
        match self {
            IrCmpOp::Eq => equal,
            IrCmpOp::Ne => !equal,
            IrCmpOp::Slt | IrCmpOp::Ult => float::is_less(l, r),
            IrCmpOp::Sle | IrCmpOp::Ule => float::is_less(l, r) || equal,
            IrCmpOp::Sgt | IrCmpOp::Ugt => float::is_less(r, l),
            IrCmpOp::Sge | IrCmpOp::Uge => float::is_less(r, l) || equal,
        }
    }
}

// ── Floating point ──────────────────────────────────────────────────────────

/// Does the comparison of two floating-point numbers hold?
pub open spec fn float_holds(op: IrCmpOp, l: u64, r: u64) -> bool {
    match op {
        IrCmpOp::Eq => float::equal(l, r),
        IrCmpOp::Ne => !float::equal(l, r),
        IrCmpOp::Slt | IrCmpOp::Ult => float::less(l, r),
        IrCmpOp::Sle | IrCmpOp::Ule => float::less(l, r) || float::equal(l, r),
        IrCmpOp::Sgt | IrCmpOp::Ugt => float::less(r, l),
        IrCmpOp::Sge | IrCmpOp::Uge => float::less(r, l) || float::equal(l, r),
    }
}

/// The result of an operation on floating-point numbers, if it is folded.
pub open spec fn folded_float(op: IrBinOp, l: u64, r: u64) -> Option<u64> {
    match op {
        IrBinOp::Add => Some(float::sum(l, r)),
        IrBinOp::Sub => Some(float::difference(l, r)),
        IrBinOp::Mul => Some(float::product(l, r)),
        IrBinOp::SDiv | IrBinOp::UDiv => Some(float::quotient(l, r)),
        _ => None,
    }
}

/// The constant of a floating-point type that stands for a number of 64 bits.
pub open spec fn float_const(bits: u64, ty: IrType) -> IrConst {
    match ty {
        IrType::F32 => IrConst::F32(float::to_single(bits)),
        IrType::F128 => IrConst::LongDouble(bits, float::to_quad(bits)),
        _ => IrConst::F64(bits),
    }
}

/// Folds an operation on two floating-point numbers of 64 bits.
pub fn fold_float_binop(op: IrBinOp, l: u64, r: u64) -> (res: Option<u64>)
    ensures
        res == folded_float(op, l, r),
{
    match op {
        IrBinOp::Add => Some(float::plus(l, r)),
        IrBinOp::Sub => Some(float::minus(l, r)),
        IrBinOp::Mul => Some(float::multiply(l, r)),
        IrBinOp::SDiv | IrBinOp::UDiv => Some(float::divide(l, r)),
        _ => None,
    }
}

/// Makes a constant of a floating-point type from a number of 64 bits.
pub fn make_float_const(bits: u64, ty: IrType) -> (r: IrConst)
    ensures
        r == float_const(bits, ty),
{
    match ty {
        IrType::F32 => IrConst::F32(float::narrow_to_single(bits)),
        IrType::F128 => IrConst::LongDouble(bits, float::widen_to_quad(bits)),
        _ => IrConst::F64(bits),
    }
}

} // verus!
