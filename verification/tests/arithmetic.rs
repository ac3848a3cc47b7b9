//! Constants, their folding, and floating-point numbers as bits.

use ccc::float;
use ccc::ir::{IrBinOp, IrCmpOp, IrConst, IrType, IrUnaryOp};
use ccc::passes::constant_fold::{
    fold_binop, fold_cast, fold_cast_i128, fold_float_binop, fold_unaryop, make_float_const,
};

// ── Floating point ──────────────────────────────────────────────────────────

/// Numbers at the edges of the format, and some in between.
fn numbers() -> Vec<u64> {
    let mut all = vec![
        0.0f64.to_bits(),
        (-0.0f64).to_bits(),
        1,
        0x000f_ffff_ffff_ffff,
        0x0010_0000_0000_0000,
        1.0f64.to_bits(),
        (-1.0f64).to_bits(),
        1.5f64.to_bits(),
        2.0f64.to_bits(),
        3.0f64.to_bits(),
        0.1f64.to_bits(),
        (1.0f64 / 3.0).to_bits(),
        f64::EPSILON.to_bits(),
        f64::MAX.to_bits(),
        f64::MIN.to_bits(),
        f64::INFINITY.to_bits(),
        f64::NEG_INFINITY.to_bits(),
        f64::NAN.to_bits(),
        0x7ff0_0000_0000_0001,
        0x3ff0_0000_0000_0001,
        0x4340_0000_0000_0000,
        0x4340_0000_0000_0001,
    ];
    let mut x: u64 = 0x1234_5678_9abc_def1;
    for _ in 0..40 {
        x ^= x << 13;
        x ^= x >> 7;
        x ^= x << 17;
        all.push(x);
        // The same digits, near one.
        all.push((x & 0x800f_ffff_ffff_ffff) | 0x3ff0_0000_0000_0000);
    }
    all
}

fn agrees(ours: u64, native: f64) -> bool {
    if native.is_nan() {
        ours == 0x7ff8_0000_0000_0000
    } else {
        ours == native.to_bits()
    }
}

#[test]
fn arithmetic_rounds_like_the_hardware() {
    for &a in &numbers() {
        for &b in &numbers() {
            let x = f64::from_bits(a);
            let y = f64::from_bits(b);
            assert!(agrees(float::plus(a, b), x + y), "{} + {}", x, y);
            assert!(agrees(float::minus(a, b), x - y), "{} - {}", x, y);
            assert!(agrees(float::multiply(a, b), x * y), "{} * {}", x, y);
            assert!(agrees(float::divide(a, b), x / y), "{} / {}", x, y);
            assert_eq!(float::is_less(a, b), x < y);
            assert_eq!(float::is_equal(a, b), x == y);
        }
    }
}

#[test]
fn formats_are_converted_like_the_hardware() {
    for &a in &numbers() {
        let x = f64::from_bits(a);
        let y = x as f32;
        if y.is_nan() {
            assert!(f32::from_bits(float::narrow_to_single(a)).is_nan());
        } else {
            assert_eq!(float::narrow_to_single(a), y.to_bits());
        }
        let single = a as u32;
        let z = f32::from_bits(single) as f64;
        if z.is_nan() {
            assert!(f64::from_bits(float::widen_single(single)).is_nan());
        } else {
            assert_eq!(float::widen_single(single), z.to_bits());
        }
        assert_eq!(float::negate(a), a ^ 0x8000_0000_0000_0000);
    }
}

#[test]
fn numbers_that_fit_are_not_rounded() {
    for &a in &numbers() {
        if f64::from_bits(a).is_nan() {
            continue;
        }
        assert_eq!(float::multiply(a, 1.0f64.to_bits()), a);
        assert_eq!(float::divide(a, 1.0f64.to_bits()), a);
        assert_eq!(float::plus(a, (-0.0f64).to_bits()), a);
        let single = a as u32;
        if !f32::from_bits(single).is_nan() {
            assert_eq!(float::narrow_to_single(float::widen_single(single)), single);
        }
    }
}

#[test]
fn numbers_get_a_longer_exponent() {
    assert_eq!(float::widen_to_quad(0), 0);
    assert_eq!(float::widen_to_quad(1.0f64.to_bits()), 0x3fffu128 << 112);
    assert_eq!(float::widen_to_quad((-2.0f64).to_bits()), 0xc000u128 << 112);
    assert_eq!(float::widen_to_quad(1.5f64.to_bits()), (0x3fffu128 << 112) | (1u128 << 111));
    assert_eq!(float::widen_to_quad(f64::INFINITY.to_bits()), 0x7fffu128 << 112);
    // The least number above zero is 2^-1074.
    assert_eq!(float::widen_to_quad(1), ((16383 - 1074) as u128) << 112);
}

#[test]
fn order_is_that_of_the_values() {
    let mut sorted: Vec<u64> = numbers().into_iter().filter(|b| !f64::from_bits(*b).is_nan()).collect();
    sorted.sort_by(|a, b| f64::from_bits(*a).partial_cmp(&f64::from_bits(*b)).unwrap());
    for w in sorted.windows(2) {
        assert!(float::is_less(w[0], w[1]) || float::is_equal(w[0], w[1]));
        assert!(!float::is_less(w[1], w[0]));
    }
}

// ── Integers ────────────────────────────────────────────────────────────────

#[test]
fn values_are_cut_down_to_their_type() {
    let cases = [
        (IrType::I8, 0x1ff, -1),
        (IrType::U8, 0x1ff, 0xff),
        (IrType::I16, 0x1_8000, -0x8000),
        (IrType::U16, -1, 0xffff),
        (IrType::I32, 0x8000_0000, -0x8000_0000),
        (IrType::U32, -1, 0xffff_ffff),
        (IrType::I64, i64::MIN, i64::MIN),
        (IrType::Ptr, -1, -1),
    ];
    for (ty, v, cut) in cases {
        assert_eq!(ty.truncate_i64(v), cut);
        let c = IrConst::from_i64(v, ty);
        assert_eq!(ty.truncate_i64(c.to_i64().unwrap()), cut);
    }
    assert_eq!(IrType::I8.bits(), 8);
    assert_eq!(IrType::U128.bits(), 128);
    assert_eq!(IrType::Ptr.bits(), 64);
    assert!(IrType::U128.is_128bit() && !IrType::U64.is_128bit());
    assert!(IrType::F128.is_float() && !IrType::I64.is_float());
}

#[test]
fn constants_have_values() {
    assert_eq!(IrConst::I8(-3).to_i64(), Some(-3));
    assert_eq!(IrConst::Zero.to_i64(), Some(0));
    assert_eq!(IrConst::I128(7).to_i64(), Some(7));
    assert_eq!(IrConst::I128(1 << 64).to_i64(), None);
    assert_eq!(IrConst::I128(1 << 64).to_i128(), Some(1 << 64));
    assert_eq!(IrConst::F64(0).to_i64(), None);
    assert_eq!(IrConst::F32(0).to_i128(), None);
}

#[test]
fn integer_operations_fold() {
    let cases = [
        (IrBinOp::Add, i64::MAX, 1, IrType::I64, Some(i64::MIN)),
        (IrBinOp::Add, 0x7f, 1, IrType::I8, Some(-0x80)),
        (IrBinOp::Sub, 3, 5, IrType::U32, Some(0xffff_fffe)),
        (IrBinOp::Mul, 1 << 40, 1 << 40, IrType::I64, Some(0)),
        (IrBinOp::SDiv, -7, 2, IrType::I64, Some(-3)),
        (IrBinOp::SDiv, 7, 0, IrType::I64, None),
        (IrBinOp::SDiv, i64::MIN, -1, IrType::I64, None),
        (IrBinOp::UDiv, -1, 2, IrType::U64, Some(i64::MAX)),
        (IrBinOp::UDiv, 7, 0, IrType::U64, None),
        (IrBinOp::SRem, -7, 2, IrType::I64, Some(-1)),
        (IrBinOp::SRem, 7, 0, IrType::I64, None),
        (IrBinOp::URem, -1, 10, IrType::U64, Some(5)),
        (IrBinOp::And, 12, 10, IrType::I32, Some(8)),
        (IrBinOp::Or, 12, 10, IrType::I32, Some(14)),
        (IrBinOp::Xor, 12, 10, IrType::I32, Some(6)),
        (IrBinOp::Shl, 1, 31, IrType::I32, Some(-0x8000_0000)),
        (IrBinOp::Shl, 1, 32, IrType::I32, None),
        (IrBinOp::Shl, 1, -1, IrType::I32, None),
        (IrBinOp::AShr, -8, 1, IrType::I64, Some(-4)),
        (IrBinOp::LShr, -8, 60, IrType::U64, Some(15)),
        (IrBinOp::LShr, 0xff, 4, IrType::U8, Some(15)),
    ];
    for (op, l, r, ty, res) in cases {
        assert_eq!(fold_binop(op, l, r, ty), res, "{:?} {} {}", op, l, r);
    }
    assert_eq!(fold_unaryop(IrUnaryOp::Neg, i64::MIN, IrType::I64), Some(i64::MIN));
    assert_eq!(fold_unaryop(IrUnaryOp::Not, 0, IrType::U16), Some(0xffff));
    assert_eq!(fold_unaryop(IrUnaryOp::IsConstant, 0, IrType::I32), None);
    assert_eq!(fold_cast(-1, IrType::I8, IrType::U16), 0xffff);
    assert_eq!(fold_cast(0xff, IrType::U8, IrType::I8), -1);
}

#[test]
fn wide_operations_fold() {
    let big: i128 = 1 << 100;
    assert_eq!(IrBinOp::Add.eval_i128(i128::MAX, 1), Some(i128::MIN));
    assert_eq!(IrBinOp::Mul.eval_i128(big, 4), Some(1 << 102));
    assert_eq!(IrBinOp::SDiv.eval_i128(-big, 1 << 98), Some(-4));
    assert_eq!(IrBinOp::SDiv.eval_i128(i128::MIN, -1), None);
    assert_eq!(IrBinOp::UDiv.eval_i128(-1, 2), Some(i128::MAX));
    assert_eq!(IrBinOp::URem.eval_i128(big, 0), None);
    assert_eq!(IrBinOp::Shl.eval_i128(1, 127), Some(i128::MIN));
    assert_eq!(IrBinOp::Shl.eval_i128(1, 128), None);
    assert_eq!(IrBinOp::AShr.eval_i128(i128::MIN, 127), Some(-1));
    assert_eq!(IrBinOp::LShr.eval_i128(i128::MIN, 127), Some(1));
}

#[test]
fn wide_casts_fold() {
    let c = IrConst::I64(-1);
    assert_eq!(fold_cast_i128(&c, IrType::I64, IrType::I128), Some(IrConst::I128(-1)));
    assert_eq!(
        fold_cast_i128(&c, IrType::U64, IrType::I128),
        Some(IrConst::I128(0xffff_ffff_ffff_ffff)),
    );
    assert_eq!(
        fold_cast_i128(&IrConst::I128((1 << 64) + 300), IrType::I128, IrType::U8),
        Some(IrConst::I8(44)),
    );
    assert_eq!(fold_cast_i128(&c, IrType::I64, IrType::F64), None);
    assert_eq!(fold_cast_i128(&IrConst::F64(0), IrType::I64, IrType::I128), None);
}

#[test]
fn comparisons_hold() {
    assert!(IrCmpOp::Slt.eval_i64(-1, 1) && !IrCmpOp::Ult.eval_i64(-1, 1));
    assert!(IrCmpOp::Ugt.eval_i64(-1, 1) && !IrCmpOp::Sgt.eval_i64(-1, 1));
    assert!(IrCmpOp::Sle.eval_i64(2, 2) && IrCmpOp::Uge.eval_i64(2, 2));
    assert!(IrCmpOp::Eq.eval_i64(2, 2) && !IrCmpOp::Ne.eval_i64(2, 2));
    assert!(IrCmpOp::Ult.eval_i128(1, -1) && IrCmpOp::Slt.eval_i128(-1, 1));
    let one = 1.0f64.to_bits();
    let two = 2.0f64.to_bits();
    let nan = f64::NAN.to_bits();
    assert!(IrCmpOp::Slt.eval_f64(one, two) && IrCmpOp::Uge.eval_f64(two, one));
    assert!(IrCmpOp::Ne.eval_f64(nan, nan) && !IrCmpOp::Eq.eval_f64(nan, nan));
    assert!(!IrCmpOp::Sle.eval_f64(nan, one) && !IrCmpOp::Sge.eval_f64(nan, one));
    assert!(IrCmpOp::Eq.eval_f64(0, (-0.0f64).to_bits()));
}

#[test]
fn float_operations_fold() {
    let x = 0.1f64.to_bits();
    let y = 0.2f64.to_bits();
    assert_eq!(fold_float_binop(IrBinOp::Add, x, y), Some((0.1f64 + 0.2).to_bits()));
    assert_eq!(fold_float_binop(IrBinOp::Mul, x, y), Some((0.1f64 * 0.2).to_bits()));
    assert_eq!(fold_float_binop(IrBinOp::And, x, y), None);
    assert_eq!(make_float_const(x, IrType::F32), IrConst::F32(0.1f32.to_bits()));
    assert_eq!(make_float_const(x, IrType::F64), IrConst::F64(x));
    let one = 1.0f64.to_bits();
    assert_eq!(
        make_float_const(one, IrType::F128),
        IrConst::LongDouble(one, 0x3fffu128 << 112),
    );
}
