//! The lattice of constant propagation, and the evaluation of operations on it.

use vstd::prelude::*;

use super::constant_fold;
use crate::float;
use crate::ir::{IrBinOp, IrCmpOp, IrConst, IrType, IrUnaryOp};

verus! {

// ── The lattice ─────────────────────────────────────────────────────────────

/// Lattice value for SCCP. Values move monotonically downward:
/// Top → Constant → Bottom.
#[derive(Debug, Clone, Copy, PartialEq, Eq, Structural)]
pub enum LatticeVal {
    /// Not yet reached / unknown. Optimistic assumption.
    Top,
    /// Known to be a specific constant.
    Constant(IrConst),
    /// Overdefined: may take multiple values at runtime.
    Bottom,
}

impl LatticeVal {
    /// Lattice meet: Top ∧ x = x, Const(a) ∧ Const(b) = Const(a) if a==b else Bottom,
    /// Bottom ∧ x = Bottom.
    pub open spec fn met(self, other: LatticeVal) -> LatticeVal {
        if self is Top {
            other
        } else if other is Top || self == other {
            self
        } else {
            LatticeVal::Bottom
        }
    }

    /// This is `other` or below it.
    pub open spec fn at_most(self, other: LatticeVal) -> bool {
        self.met(other) == self
    }

    /// How far down this can still move.
    pub open spec fn height(self) -> nat {
        match self {
            LatticeVal::Top => 2,
            LatticeVal::Constant(_) => 1,
            LatticeVal::Bottom => 0,
        }
    }

    /// Lattice meet: Top ∧ x = x, Const(a) ∧ Const(b) = Const(a) if a==b else Bottom,
    /// Bottom ∧ x = Bottom.
    pub fn meet(self, other: LatticeVal) -> (r: LatticeVal)
        ensures
            r == self.met(other),
    {
        match (self, other) {
            (LatticeVal::Top, x) => x,
            (x, LatticeVal::Top) => x,
            (LatticeVal::Constant(a), LatticeVal::Constant(b)) => {
                if a == b {
                    LatticeVal::Constant(a)
                } else {
                    LatticeVal::Bottom
                }
            },
            _ => LatticeVal::Bottom,
        }
    }

    pub fn is_bottom(self) -> (r: bool)
        ensures
            r == (self is Bottom),
    {
        matches!(self, LatticeVal::Bottom)
    }

    pub fn as_const(self) -> (r: Option<IrConst>)
        ensures
            r == self.constant(),
    {
        match self {
            LatticeVal::Constant(c) => Some(c),
            _ => None,
        }
    }

    /// The constant that this is, if it is one.
    pub open spec fn constant(self) -> Option<IrConst> {
        match self {
            LatticeVal::Constant(c) => Some(c),
            _ => None,
        }
    }
}

/// The meet does not depend on the order or the grouping of its operands, it is the
/// greatest value below both, Top changes nothing and nothing changes Bottom.
pub proof fn law_meet(a: LatticeVal, b: LatticeVal, c: LatticeVal)
    ensures
        a.met(b) == b.met(a),
        a.met(b).met(c) == a.met(b.met(c)),
        a.met(a) == a,
        LatticeVal::Top.met(a) == a,
        LatticeVal::Bottom.met(a) == LatticeVal::Bottom,
        a.met(b).at_most(a) && a.met(b).at_most(b),
        c.at_most(a) && c.at_most(b) ==> c.at_most(a.met(b)),
{
}

/// A value that moves down gets lower, so no value moves more than twice.
pub proof fn law_moving_down_lowers(a: LatticeVal, b: LatticeVal)
    ensures
        a.met(b) != a ==> a.met(b).height() < a.height() <= 2,
{
}

// ── Constants ───────────────────────────────────────────────────────────────

/// Is a constant other than zero? A long double is taken to be.
pub open spec fn nonzero(c: IrConst) -> bool {
    match c {
        IrConst::I8(v) => v != 0,
        IrConst::I16(v) => v != 0,
        IrConst::I32(v) => v != 0,
        IrConst::I64(v) => v != 0,
        IrConst::I128(v) => v != 0,
        IrConst::F32(b) => b != 0 && b != 0x8000_0000,
        IrConst::F64(b) => b != 0 && b != 0x8000_0000_0000_0000,
        IrConst::LongDouble(_, _) => true,
        IrConst::Zero => false,
    }
}

/// The number of 64 bits that a floating-point constant stands for.
pub open spec fn float_value(c: IrConst) -> Option<u64> {
    match c {
        IrConst::F32(b) => Some(float::from_single(b)),
        IrConst::F64(b) => Some(b),
        IrConst::LongDouble(b, _) => Some(b),
        _ => None,
    }
}

/// Check if a constant is nonzero (for branch conditions).
pub fn const_is_nonzero(c: &IrConst) -> (r: bool)
    ensures
        r == nonzero(*c),
{
    match *c {
        IrConst::I8(v) => v != 0,
        IrConst::I16(v) => v != 0,
        IrConst::I32(v) => v != 0,
        IrConst::I64(v) => v != 0,
        IrConst::I128(v) => v != 0,
        IrConst::F32(b) => b != 0 && b != 0x8000_0000,
        IrConst::F64(b) => b != 0 && b != 0x8000_0000_0000_0000,
        IrConst::LongDouble(_, _) => true,
        IrConst::Zero => false,
    }
}

fn const_to_f64(c: &IrConst) -> (r: Option<u64>)
    ensures
        r == float_value(*c),
{
    match *c {
        IrConst::F32(b) => Some(float::widen_single(b)),
        IrConst::F64(b) => Some(b),
        IrConst::LongDouble(b, _) => Some(b),
        _ => None,
    }
}

// ── Lattice evaluation ──────────────────────────────────────────────────────

/// The constant that an operation on two constants gives, if it is folded.
pub open spec fn binop_const(op: IrBinOp, l: IrConst, r: IrConst, ty: IrType) -> Option<IrConst> {
    if ty.wide() {
        match (l.as_i128(), r.as_i128()) {
            (Some(x), Some(y)) => match constant_fold::folded_wide(op, x, y) {
                Some(v) => Some(IrConst::I128(v)),
                None => None,
            },
            _ => None,
        }
    } else if ty.floating() {
        match (float_value(l), float_value(r)) {
            (Some(x), Some(y)) => match constant_fold::folded_float(op, x, y) {
                Some(v) => Some(constant_fold::float_const(v, ty)),
                None => None,
            },
            _ => None,
        }
    } else {
        match (l.as_i64(), r.as_i64()) {
            (Some(x), Some(y)) => match constant_fold::folded_binop(
                op,
                ty.truncated(x),
                ty.truncated(y),
                ty,
            ) {
                Some(v) => Some(IrConst::of(v, ty)),
                None => None,
            },
            _ => None,
        }
    }
}

/// The constant that an operation on one constant gives, if it is folded.
pub open spec fn unaryop_const(op: IrUnaryOp, c: IrConst, ty: IrType) -> Option<IrConst> {
    if ty.wide() {
        match c.as_i128() {
            Some(x) => match op {
                IrUnaryOp::Neg => Some(IrConst::I128(0i128.wrapping_sub(x))),
                IrUnaryOp::Not => Some(IrConst::I128(!x)),
                IrUnaryOp::IsConstant => None,
            },
            None => None,
        }
    } else if ty.floating() {
        match float_value(c) {
            Some(x) => if op is Neg {
                Some(constant_fold::float_const(float::negated(x), ty))
            } else {
                None
            },
            None => None,
        }
    } else {
        match c.as_i64() {
            Some(x) => match constant_fold::folded_unaryop(op, x, ty) {
                Some(v) => Some(IrConst::of(v, ty)),
                None => None,
            },
            None => None,
        }
    }
}

pub open spec fn truth(b: bool) -> IrConst {
    if b {
        IrConst::I32(1)
    } else {
        IrConst::I32(0)
    }
}

/// Does a comparison of two constants hold, if it is folded?
pub open spec fn compared(op: IrCmpOp, l: IrConst, r: IrConst, ty: IrType) -> Option<bool> {
    if ty.wide() {
        match (l.as_i128(), r.as_i128()) {
            (Some(x), Some(y)) => Some(
                constant_fold::holds(op, x == y, x < y, (x as u128) < (y as u128)),
            ),
            _ => None,
        }
    } else if ty.floating() {
        match (float_value(l), float_value(r)) {
            (Some(x), Some(y)) => Some(constant_fold::float_holds(op, x, y)),
            _ => None,
        }
    } else {
        match (l.as_i64(), r.as_i64()) {
            (Some(a), Some(b)) => {
                let x = ty.truncated(a);
                let y = ty.truncated(b);
                Some(constant_fold::holds(op, x == y, x < y, (x as u64) < (y as u64)))
            },
            _ => None,
        }
    }
}

/// The constant that a comparison of two constants gives, if it is folded.
pub open spec fn compared_const(op: IrCmpOp, l: IrConst, r: IrConst, ty: IrType) -> Option<
    IrConst,
> {
    match compared(op, l, r, ty) {
        Some(b) => Some(truth(b)),
        None => None,
    }
}

/// The constant that a cast of a constant gives, if it is folded.
pub open spec fn cast_const(c: IrConst, from_ty: IrType, to_ty: IrType) -> Option<IrConst> {
    if from_ty.wide() || to_ty.wide() {
        constant_fold::folded_wide_cast(c, from_ty, to_ty)
    } else if from_ty.floating() || to_ty.floating() {
        None
    } else {
        match c.as_i64() {
            Some(x) => Some(IrConst::of(to_ty.truncated(from_ty.truncated(x)), to_ty)),
            None => None,
        }
    }
}

/// A folded constant, or what is not known.
pub open spec fn folded(c: Option<IrConst>) -> LatticeVal {
    match c {
        Some(c) => LatticeVal::Constant(c),
        None => LatticeVal::Bottom,
    }
}

/// The value of an operation on two values: Bottom if either is, else Top if either
/// is.
pub open spec fn binop_value(
    op: IrBinOp,
    l: LatticeVal,
    r: LatticeVal,
    ty: IrType,
) -> LatticeVal {
    match (l, r) {
        (LatticeVal::Constant(a), LatticeVal::Constant(b)) => folded(binop_const(op, a, b, ty)),
        _ => if l is Bottom || r is Bottom {
            LatticeVal::Bottom
        } else {
            LatticeVal::Top
        },
    }
}

/// The value of a comparison of two values: Bottom if either is, else Top if either
/// is.
pub open spec fn comparison_value(
    op: IrCmpOp,
    l: LatticeVal,
    r: LatticeVal,
    ty: IrType,
) -> LatticeVal {
    match (l, r) {
        (LatticeVal::Constant(a), LatticeVal::Constant(b)) => folded(
            compared_const(op, a, b, ty),
        ),
        _ => if l is Bottom || r is Bottom {
            LatticeVal::Bottom
        } else {
            LatticeVal::Top
        },
    }
}

/// The value of an operation on one value. That a value is constant is known once it is
/// found constant; that it is not is never concluded, for it may yet turn out to be.
pub open spec fn unaryop_value(op: IrUnaryOp, s: LatticeVal, ty: IrType) -> LatticeVal {
    match s {
        LatticeVal::Constant(c) => if op is IsConstant {
            LatticeVal::Constant(truth(true))
        } else {
            folded(unaryop_const(op, c, ty))
        },
        _ => s,
    }
}

/// The value of a cast of a value.
pub open spec fn cast_value(s: LatticeVal, from_ty: IrType, to_ty: IrType) -> LatticeVal {
    match s {
        LatticeVal::Constant(c) => folded(cast_const(c, from_ty, to_ty)),
        _ => s,
    }
}

fn to_lattice(c: Option<IrConst>) -> (r: LatticeVal)
    ensures
        r == folded(c),
{
    match c {
        Some(c) => LatticeVal::Constant(c),
        None => LatticeVal::Bottom,
    }
}

fn fold_constants(op: IrBinOp, lc: IrConst, rc: IrConst, ty: IrType) -> (r: Option<IrConst>)
    ensures
        r == binop_const(op, lc, rc, ty),
{
    if ty.is_128bit() {
        match (lc.to_i128(), rc.to_i128()) {
            (Some(l), Some(r)) => match op.eval_i128(l, r) {
                Some(v) => Some(IrConst::I128(v)),
                None => None,
            },
            _ => None,
        }
    } else if ty.is_float() {
        match (const_to_f64(&lc), const_to_f64(&rc)) {
            (Some(l), Some(r)) => match constant_fold::fold_float_binop(op, l, r) {
                Some(v) => Some(constant_fold::make_float_const(v, ty)),
                None => None,
            },
            _ => None,
        }
    } else {
        match (lc.to_i64(), rc.to_i64()) {
            (Some(l), Some(r)) => {
                let lt = ty.truncate_i64(l);
                let rt = ty.truncate_i64(r);
                match constant_fold::fold_binop(op, lt, rt, ty) {
                    Some(v) => Some(IrConst::from_i64(v, ty)),
                    None => None,
                }
            },
            _ => None,
        }
    }
}

pub fn eval_binop(op: IrBinOp, lhs: LatticeVal, rhs: LatticeVal, ty: IrType) -> (r: LatticeVal)
    ensures
        r == binop_value(op, lhs, rhs, ty),
{
    match (lhs, rhs) {
        (LatticeVal::Bottom, _) => LatticeVal::Bottom,
        (_, LatticeVal::Bottom) => LatticeVal::Bottom,
        (LatticeVal::Top, _) => LatticeVal::Top,
        (_, LatticeVal::Top) => LatticeVal::Top,
        (LatticeVal::Constant(lc), LatticeVal::Constant(rc)) => to_lattice(
            fold_constants(op, lc, rc, ty),
        ),
    }
}

fn fold_unary_constant(op: IrUnaryOp, c: IrConst, ty: IrType) -> (r: Option<IrConst>)
    ensures
        r == unaryop_const(op, c, ty),
{
    if ty.is_128bit() {
        match c.to_i128() {
            Some(s) => match op {
                IrUnaryOp::Neg => Some(IrConst::I128(0i128.wrapping_sub(s))),
                IrUnaryOp::Not => Some(IrConst::I128(!s)),
                IrUnaryOp::IsConstant => None,
            },
            None => None,
        }
    } else if ty.is_float() {
        match const_to_f64(&c) {
            Some(s) => if matches!(op, IrUnaryOp::Neg) {
                Some(constant_fold::make_float_const(float::negate(s), ty))
            } else {
                None
            },
            None => None,
        }
    } else {
        match c.to_i64() {
            Some(s) => match constant_fold::fold_unaryop(op, s, ty) {
                Some(v) => Some(IrConst::from_i64(v, ty)),
                None => None,
            },
            None => None,
        }
    }
}

fn truth_const(b: bool) -> (r: IrConst)
    ensures
        r == truth(b),
{
    if b {
        IrConst::I32(1)
    } else {
        IrConst::I32(0)
    }
}

pub fn eval_unaryop(op: IrUnaryOp, src: LatticeVal, ty: IrType) -> (r: LatticeVal)
    ensures
        r == unaryop_value(op, src, ty),
{
    if matches!(op, IrUnaryOp::IsConstant) {
        return match src {
            LatticeVal::Top => LatticeVal::Top,
            LatticeVal::Constant(_) => LatticeVal::Constant(truth_const(true)),
            LatticeVal::Bottom => LatticeVal::Bottom,
        };
    }
    match src {
        LatticeVal::Top => LatticeVal::Top,
        LatticeVal::Bottom => LatticeVal::Bottom,
        LatticeVal::Constant(c) => to_lattice(fold_unary_constant(op, c, ty)),
    }
}

fn decide_comparison(op: IrCmpOp, lc: IrConst, rc: IrConst, ty: IrType) -> (r: Option<bool>)
    ensures
        r == compared(op, lc, rc, ty),
{
    if ty.is_128bit() {
        match (lc.to_i128(), rc.to_i128()) {
            (Some(l), Some(r)) => Some(op.eval_i128(l, r)),
            _ => None,
        }
    } else if ty.is_float() {
        match (const_to_f64(&lc), const_to_f64(&rc)) {
            (Some(l), Some(r)) => Some(op.eval_f64(l, r)),
            _ => None,
        }
    } else {
        match (lc.to_i64(), rc.to_i64()) {
            (Some(l), Some(r)) => Some(op.eval_i64(ty.truncate_i64(l), ty.truncate_i64(r))),
            _ => None,
        }
    }
}

pub fn eval_cmp(op: IrCmpOp, lhs: LatticeVal, rhs: LatticeVal, ty: IrType) -> (r: LatticeVal)
    ensures
        r == comparison_value(op, lhs, rhs, ty),
{
    match (lhs, rhs) {
        (LatticeVal::Bottom, _) => LatticeVal::Bottom,
        (_, LatticeVal::Bottom) => LatticeVal::Bottom,
        (LatticeVal::Top, _) => LatticeVal::Top,
        (_, LatticeVal::Top) => LatticeVal::Top,
        (LatticeVal::Constant(lc), LatticeVal::Constant(rc)) => match decide_comparison(
            op,
            lc,
            rc,
            ty,
        ) {
            Some(b) => LatticeVal::Constant(truth_const(b)),
            None => LatticeVal::Bottom,
        },
    }
}

pub fn eval_cast(src: LatticeVal, from_ty: IrType, to_ty: IrType) -> (r: LatticeVal)
    ensures
        r == cast_value(src, from_ty, to_ty),
{
    match src {
        LatticeVal::Top => LatticeVal::Top,
        LatticeVal::Bottom => LatticeVal::Bottom,
        LatticeVal::Constant(c) => {
            // 128-bit casts
            if from_ty.is_128bit() || to_ty.is_128bit() {
                return to_lattice(constant_fold::fold_cast_i128(&c, from_ty, to_ty));
            }
            // Float casts are not folded.
            if from_ty.is_float() || to_ty.is_float() {
                return LatticeVal::Bottom;
            }
            // Integer cast
            match c.to_i64() {
                Some(val) => {
                    let result = constant_fold::fold_cast(val, from_ty, to_ty);
                    LatticeVal::Constant(IrConst::from_i64(result, to_ty))
                },
                None => LatticeVal::Bottom,
            }
        },
    }
}

} // verus!
