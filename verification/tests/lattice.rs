//! The lattice of constant propagation.

use ccc::ir::{IrBinOp, IrCmpOp, IrConst, IrType, IrUnaryOp};
use ccc::passes::lattice::{
    const_is_nonzero, eval_binop, eval_cast, eval_cmp, eval_unaryop, LatticeVal,
};

fn whole(v: i64) -> LatticeVal {
    LatticeVal::Constant(IrConst::I64(v))
}

fn samples() -> Vec<LatticeVal> {
    vec![
        LatticeVal::Top,
        LatticeVal::Bottom,
        whole(1),
        whole(2),
        LatticeVal::Constant(IrConst::I32(1)),
        LatticeVal::Constant(IrConst::F64(0)),
        LatticeVal::Constant(IrConst::F64(1 << 63)),
    ]
}

#[test]
fn meet_is_a_greatest_lower_bound() {
    for a in samples() {
        assert_eq!(a.meet(a), a);
        assert_eq!(LatticeVal::Top.meet(a), a);
        assert_eq!(LatticeVal::Bottom.meet(a), LatticeVal::Bottom);
        for b in samples() {
            assert_eq!(a.meet(b), b.meet(a));
            for c in samples() {
                assert_eq!(a.meet(b).meet(c), a.meet(b.meet(c)));
            }
        }
    }
    assert_eq!(whole(1).meet(whole(2)), LatticeVal::Bottom);
    // The same value with another type, or another sign, is another constant.
    assert!(whole(1).meet(LatticeVal::Constant(IrConst::I32(1))).is_bottom());
    assert_eq!(whole(1).as_const(), Some(IrConst::I64(1)));
    assert_eq!(LatticeVal::Top.as_const(), None);
    assert!(!LatticeVal::Top.is_bottom());
}

#[test]
fn no_value_moves_more_than_twice() {
    for a in samples() {
        for b in samples() {
            for c in samples() {
                let path = [LatticeVal::Top, a, a.meet(b), a.meet(b).meet(c)];
                let moves = path.windows(2).filter(|w| w[0] != w[1]).count();
                assert!(moves <= 2);
            }
        }
    }
}

#[test]
fn zero_is_known() {
    assert!(!const_is_nonzero(&IrConst::Zero));
    assert!(!const_is_nonzero(&IrConst::I128(0)));
    assert!(const_is_nonzero(&IrConst::I8(-1)));
    assert!(!const_is_nonzero(&IrConst::F64((-0.0f64).to_bits())));
    assert!(!const_is_nonzero(&IrConst::F32(0.0f32.to_bits())));
    assert!(const_is_nonzero(&IrConst::F64(f64::NAN.to_bits())));
    assert!(const_is_nonzero(&IrConst::LongDouble(0, 0)));
}

#[test]
fn operations_need_constants() {
    let add = |l, r| eval_binop(IrBinOp::Add, l, r, IrType::I64);
    assert_eq!(add(whole(1), whole(2)), whole(3));
    assert_eq!(add(whole(1), LatticeVal::Top), LatticeVal::Top);
    assert_eq!(add(LatticeVal::Top, LatticeVal::Bottom), LatticeVal::Bottom);
    assert_eq!(add(LatticeVal::Bottom, whole(1)), LatticeVal::Bottom);
    // A division by zero is left for the machine.
    assert!(eval_binop(IrBinOp::SDiv, whole(1), whole(0), IrType::I64).is_bottom());
    assert_eq!(
        eval_binop(IrBinOp::Add, whole(300), whole(1), IrType::U8),
        LatticeVal::Constant(IrConst::I8(45)),
    );
    assert_eq!(
        eval_binop(
            IrBinOp::Mul,
            LatticeVal::Constant(IrConst::F32(1.5f32.to_bits())),
            LatticeVal::Constant(IrConst::F32(2.0f32.to_bits())),
            IrType::F32,
        ),
        LatticeVal::Constant(IrConst::F32(3.0f32.to_bits())),
    );
    assert_eq!(
        eval_binop(IrBinOp::Shl, whole(1), whole(100), IrType::I128),
        LatticeVal::Constant(IrConst::I128(1 << 100)),
    );
}

#[test]
fn constancy_is_known_of_constants() {
    let ask = |s| eval_unaryop(IrUnaryOp::IsConstant, s, IrType::I32);
    assert_eq!(ask(whole(5)), LatticeVal::Constant(IrConst::I32(1)));
    assert_eq!(ask(LatticeVal::Bottom), LatticeVal::Bottom);
    assert_eq!(ask(LatticeVal::Top), LatticeVal::Top);
}

#[test]
fn negations_fold() {
    assert_eq!(eval_unaryop(IrUnaryOp::Neg, whole(5), IrType::I64), whole(-5));
    assert_eq!(eval_unaryop(IrUnaryOp::Not, whole(0), IrType::I64), whole(-1));
    assert_eq!(
        eval_unaryop(IrUnaryOp::Neg, LatticeVal::Constant(IrConst::I128(1 << 90)), IrType::I128),
        LatticeVal::Constant(IrConst::I128(-(1 << 90))),
    );
    let x = LatticeVal::Constant(IrConst::F64(0.0f64.to_bits()));
    assert_eq!(
        eval_unaryop(IrUnaryOp::Neg, x, IrType::F64),
        LatticeVal::Constant(IrConst::F64((-0.0f64).to_bits())),
    );
    assert!(eval_unaryop(IrUnaryOp::Not, x, IrType::F64).is_bottom());
}

#[test]
fn comparisons_fold() {
    let yes = LatticeVal::Constant(IrConst::I32(1));
    let no = LatticeVal::Constant(IrConst::I32(0));
    assert_eq!(eval_cmp(IrCmpOp::Slt, whole(-1), whole(1), IrType::I64), yes);
    assert_eq!(eval_cmp(IrCmpOp::Ult, whole(-1), whole(1), IrType::U64), no);
    // 256 is zero in a byte.
    assert_eq!(eval_cmp(IrCmpOp::Eq, whole(256), whole(0), IrType::U8), yes);
    assert_eq!(eval_cmp(IrCmpOp::Eq, LatticeVal::Top, whole(0), IrType::U8), LatticeVal::Top);
    let nan = LatticeVal::Constant(IrConst::F64(f64::NAN.to_bits()));
    assert_eq!(eval_cmp(IrCmpOp::Eq, nan, nan, IrType::F64), no);
}

#[test]
fn casts_fold() {
    assert_eq!(
        eval_cast(whole(-1), IrType::I64, IrType::U16),
        LatticeVal::Constant(IrConst::I16(-1)),
    );
    assert_eq!(
        eval_cast(whole(-1), IrType::I64, IrType::I128),
        LatticeVal::Constant(IrConst::I128(-1)),
    );
    assert!(eval_cast(whole(1), IrType::I64, IrType::F64).is_bottom());
    assert_eq!(eval_cast(LatticeVal::Top, IrType::I64, IrType::I8), LatticeVal::Top);
}
