//! What folding computes, in terms of integers.
//!
//! A constant of a type of `n` bits stands for integers that differ by multiples of
//! 2^n. Each folded operation gives the constant that stands for the result on integers.

use vstd::prelude::*;

use vstd::arithmetic::power2::{
    lemma2_to64, lemma2_to64_rest, lemma_pow2_adds, lemma_pow2_pos, lemma_pow2_strictly_increases,
    lemma_pow2_unfold, pow2,
};

use super::constant_fold;
use super::lattice;
use super::lattice::LatticeVal;
use crate::ir::{IrBinOp, IrCmpOp, IrConst, IrType, IrUnaryOp};

verus! {

// ── Constants and integers ──────────────────────────────────────────────────

/// Integers that differ by a multiple of this have the same bits in an integer type.
pub open spec fn modulus(ty: IrType) -> int {
    match ty {
        IrType::I8 | IrType::U8 => 0x100,
        IrType::I16 | IrType::U16 => 0x1_0000,
        IrType::I32 | IrType::U32 => 0x1_0000_0000,
        IrType::I128 | IrType::U128 => u128::MAX + 1,
        _ => 0x1_0000_0000_0000_0000,
    }
}

pub open spec fn congruent(a: int, b: int, m: int) -> bool {
    (a - b) % m == 0
}

/// Is the type without a sign?
pub open spec fn signless(ty: IrType) -> bool {
    ty is U8 || ty is U16 || ty is U32 || ty is U64 || ty is U128 || ty is Ptr
}

/// The integers of a type.
pub open spec fn in_range(ty: IrType, x: int) -> bool {
    if signless(ty) {
        0 <= x < modulus(ty)
    } else {
        -(modulus(ty) / 2) <= x < modulus(ty) / 2
    }
}

/// The integers that operations with a sign work on: those of the type, where it has
/// fewer than 64 bits, else those with a sign.
pub open spec fn signed_range(ty: IrType, x: int) -> bool {
    if ty is U64 || ty is U128 || ty is Ptr {
        -(modulus(ty) / 2) <= x < modulus(ty) / 2
    } else {
        in_range(ty, x)
    }
}

/// The constant has the size of the type.
pub open spec fn sized(c: IrConst, ty: IrType) -> bool {
    match ty {
        IrType::I8 | IrType::U8 => c is I8,
        IrType::I16 | IrType::U16 => c is I16,
        IrType::I32 | IrType::U32 => c is I32,
        IrType::I128 | IrType::U128 => c is I128,
        _ => c is I64,
    }
}

/// The constant stands for `x` in the type.
pub open spec fn stands_for(c: IrConst, ty: IrType, x: int) -> bool {
    c.integer() matches Some(v) && congruent(v, x, modulus(ty))
}

/// The result is the constant of the type that stands for `x`.
pub open spec fn gives(result: LatticeVal, ty: IrType, x: int) -> bool {
    result matches LatticeVal::Constant(c) && sized(c, ty) && stands_for(c, ty, x)
}

/// Operations in this type read the constant: it has no more bits than they do.
pub open spec fn readable(c: IrConst, ty: IrType) -> bool {
    if ty.wide() {
        c.integer() is Some
    } else {
        c.as_i64() is Some
    }
}

/// A constant stands in each type for one integer of the type, and the constant of a
/// type is told by that integer.
pub proof fn law_constants_are_told_by_integers(
    a: IrConst,
    b: IrConst,
    ty: IrType,
    x: int,
    y: int,
)
    requires
        stands_for(a, ty, x),
        stands_for(b, ty, y),
        in_range(ty, x),
        in_range(ty, y),
    ensures
        a == b ==> x == y,
        sized(a, ty) && sized(b, ty) && x == y ==> a == b,
{
    let m = modulus(ty);
    let v = a.integer()->0;
    let w = b.integer()->0;
    lemma_turned(v, x, m);
    lemma_turned(w, y, m);
    if a == b {
        lemma_chained(x, v, y, m);
        lemma_close(x, y, m);
    }
    if x == y && sized(a, ty) && sized(b, ty) {
        lemma_chained(v, x, w, m);
        lemma_close(v, w, m);
    }
}

// ── Congruence ──────────────────────────────────────────────────────────────

proof fn lemma_multiple(a: int, b: int, m: int) -> (k: int)
    requires
        congruent(a, b, m),
        m > 0,
    ensures
        a == b + k * m,
{
    vstd::arithmetic::div_mod::lemma_fundamental_div_mod(a - b, m);
    let k = (a - b) / m;
    assert(m * k == k * m) by (nonlinear_arith);
    k
}

proof fn lemma_apart(a: int, b: int, k: int, m: int)
    requires
        a == b + k * m,
        m > 0,
    ensures
        congruent(a, b, m),
{
    vstd::arithmetic::div_mod::lemma_mod_multiples_basic(k, m);
}

proof fn lemma_turned(a: int, b: int, m: int)
    requires
        congruent(a, b, m),
        m > 0,
    ensures
        congruent(b, a, m),
{
    let k = lemma_multiple(a, b, m);
    assert((-k) * m == -(k * m)) by (nonlinear_arith);
    lemma_apart(b, a, -k, m);
}

proof fn lemma_chained(a: int, b: int, c: int, m: int)
    requires
        congruent(a, b, m),
        congruent(b, c, m),
        m > 0,
    ensures
        congruent(a, c, m),
{
    let k = lemma_multiple(a, b, m);
    let l = lemma_multiple(b, c, m);
    assert((k + l) * m == k * m + l * m) by (nonlinear_arith);
    lemma_apart(a, c, k + l, m);
}

proof fn lemma_close(a: int, b: int, m: int)
    requires
        congruent(a, b, m),
        -m < a - b < m,
        m > 0,
    ensures
        a == b,
{
    let k = lemma_multiple(a, b, m);
    assert(k == 0) by (nonlinear_arith)
        requires
            -m < k * m < m,
            m > 0,
    ;
}

/// Sums, differences and products of congruent integers are congruent.
proof fn lemma_combined(a: int, x: int, b: int, y: int, m: int)
    requires
        congruent(a, x, m),
        congruent(b, y, m),
        m > 0,
    ensures
        congruent(a + b, x + y, m),
        congruent(a - b, x - y, m),
        congruent(a * b, x * y, m),
{
    let k = lemma_multiple(a, x, m);
    let l = lemma_multiple(b, y, m);
    assert((k + l) * m == k * m + l * m) by (nonlinear_arith);
    assert((k - l) * m == k * m - l * m) by (nonlinear_arith);
    let i = k * m;
    let j = l * m;
    assert((x + i) * (y + j) == x * y + x * j + i * y + i * j) by (nonlinear_arith);
    assert(x * j == (x * l) * m) by (nonlinear_arith)
        requires
            j == l * m,
    ;
    assert(i * y == (k * y) * m) by (nonlinear_arith)
        requires
            i == k * m,
    ;
    assert(i * j == (k * j) * m) by (nonlinear_arith)
        requires
            i == k * m,
    ;
    assert((x * l) * m + (k * y) * m + (k * j) * m == (x * l + k * y + k * j) * m)
        by (nonlinear_arith);
    lemma_apart(a + b, x + y, k + l, m);
    lemma_apart(a - b, x - y, k - l, m);
    lemma_apart(a * b, x * y, x * l + k * y + k * j, m);
}

/// What is congruent by a multiple of `m` is so by `m`.
proof fn lemma_coarser(a: int, b: int, big: int, m: int, n: int)
    requires
        congruent(a, b, big),
        big == m * n,
        m > 0,
        n > 0,
    ensures
        congruent(a, b, m),
{
    assert(big > 0) by (nonlinear_arith)
        requires
            big == m * n,
            m > 0,
            n > 0,
    ;
    let k = lemma_multiple(a, b, big);
    assert(k * big == (k * n) * m) by (nonlinear_arith)
        requires
            big == m * n,
    ;
    lemma_apart(a, b, k * n, m);
}

// ── The bits of constants ───────────────────────────────────────────────────

/// The constant made of an integer stands for it, and for it only among the integers of
/// its type.
pub proof fn law_constant_of_an_integer(v: i64, ty: IrType)
    ensures
        gives(LatticeVal::Constant(IrConst::of(v, ty)), ty, v as int),
        readable(IrConst::of(v, ty), ty),
{
    lemma_cut(v);
}

proof fn lemma_cut(v: i64)
    ensures
        congruent((v as u8) as int, v as int, 0x100),
        congruent((v as i8) as int, v as int, 0x100),
        congruent((v as u16) as int, v as int, 0x1_0000),
        congruent((v as i16) as int, v as int, 0x1_0000),
        congruent((v as u32) as int, v as int, 0x1_0000_0000),
        congruent((v as i32) as int, v as int, 0x1_0000_0000),
        congruent((v as u64) as int, v as int, 0x1_0000_0000_0000_0000),
{
    assert(v == (v >> 8) * 0x100 + (v as u8) && ((v as i8) == (v as u8) || (v as i8) == (v as u8)
        - 0x100)) by (bit_vector);
    assert(v == (v >> 16) * 0x1_0000 + (v as u16) && ((v as i16) == (v as u16) || (v as i16) == (
    v as u16) - 0x1_0000)) by (bit_vector);
    assert(v == (v >> 32) * 0x1_0000_0000 + (v as u32) && ((v as i32) == (v as u32) || (v as i32)
        == (v as u32) - 0x1_0000_0000)) by (bit_vector);
    assert((v as u64) == v || (v as u64) == v + 0x1_0000_0000_0000_0000) by (bit_vector);
}

proof fn lemma_moduli(ty: IrType)
    ensures
        modulus(ty) > 0,
        !ty.wide() ==> exists|n: int| n > 0 && 0x1_0000_0000_0000_0000 == #[trigger] (modulus(ty)
            * n),
{
    if !ty.wide() {
        let n: int = match ty {
            IrType::I8 | IrType::U8 => 0x100_0000_0000_0000,
            IrType::I16 | IrType::U16 => 0x1_0000_0000_0000,
            IrType::I32 | IrType::U32 => 0x1_0000_0000,
            _ => 1,
        };
        assert(0x1_0000_0000_0000_0000 == modulus(ty) * n);
    }
}

/// Congruent by 2^64 is congruent in each type of up to 64 bits.
proof fn lemma_coarser64(a: int, b: int, ty: IrType)
    requires
        congruent(a, b, 0x1_0000_0000_0000_0000),
        !ty.wide(),
    ensures
        congruent(a, b, modulus(ty)),
{
    lemma_moduli(ty);
    let n = choose|n: int| n > 0 && 0x1_0000_0000_0000_0000 == #[trigger] (modulus(ty) * n);
    lemma_coarser(a, b, 0x1_0000_0000_0000_0000, modulus(ty), n);
}

proof fn lemma_read(v: i64, ty: IrType)
    requires
        !ty.wide(),
    ensures
        congruent(ty.truncated(v) as int, v as int, modulus(ty)),
        signed_range(ty, ty.truncated(v) as int),
        congruent(constant_fold::unsigned(v, ty) as int, v as int, modulus(ty)),
        0 <= constant_fold::unsigned(v, ty) < modulus(ty),
        congruent(constant_fold::signed(v, ty) as int, v as int, modulus(ty)),
        -(modulus(ty) / 2) <= constant_fold::signed(v, ty) < modulus(ty) / 2,
{
    lemma_cut(v);
    match ty {
        IrType::I8 | IrType::U8 => {
            assert(modulus(ty) == 0x100);
        },
        IrType::I16 | IrType::U16 => {
            assert(modulus(ty) == 0x1_0000);
        },
        IrType::I32 | IrType::U32 => {
            assert(modulus(ty) == 0x1_0000_0000);
        },
        _ => {
            assert(modulus(ty) == 0x1_0000_0000_0000_0000);
            assert(ty.truncated(v) == v);
        },
    }
}

proof fn lemma_signed_again(u: u64)
    ensures
        congruent((u as i64) as int, u as int, 0x1_0000_0000_0000_0000),
{
    assert((u as i64) == u || (u as i64) == u - 0x1_0000_0000_0000_0000) by (bit_vector);
}

proof fn lemma_cut_wide(v: i128, u: u128)
    ensures
        congruent((v as u128) as int, v as int, modulus(IrType::I128)),
        congruent((u as i128) as int, u as int, modulus(IrType::I128)),
        congruent((v as i64) as int, v as int, 0x1_0000_0000_0000_0000),
        congruent((v as u64) as int, v as int, 0x1_0000_0000_0000_0000),
{
    assert(((v as u128) == v || (v as u128) == v + 0xFFFF_FFFF_FFFF_FFFF_FFFF_FFFF_FFFF_FFFF + 1)
        && ((u as i128) == u || (u as i128) == u - 0xFFFF_FFFF_FFFF_FFFF_FFFF_FFFF_FFFF_FFFF - 1))
        by (bit_vector);
    assert(v == (v >> 64) * 0x1_0000_0000_0000_0000 + (v as u64) && ((v as i64) == (v as u64) || (
    v as i64) == (v as u64) - 0x1_0000_0000_0000_0000)) by (bit_vector);
}

/// The folded operation, if the uncut result is congruent to `z`.
proof fn lemma_gives(v: i64, ty: IrType, z: int)
    requires
        congruent(v as int, z, modulus(ty)),
        !ty.wide(),
    ensures
        gives(LatticeVal::Constant(IrConst::of(ty.truncated(v), ty)), ty, z),
{
    let m = modulus(ty);
    let w = ty.truncated(v);
    lemma_read(v, ty);
    law_constant_of_an_integer(w, ty);
    let c = IrConst::of(w, ty);
    lemma_chained(c.integer()->0, w as int, v as int, m);
    lemma_chained(c.integer()->0, v as int, z, m);
}

/// The operand as it is read, and what it is congruent to.
proof fn lemma_operand(c: IrConst, ty: IrType, x: int)
    requires
        readable(c, ty),
        stands_for(c, ty, x),
        !ty.wide(),
    ensures
        congruent(ty.truncated(c.as_i64()->0) as int, x, modulus(ty)),
        signed_range(ty, ty.truncated(c.as_i64()->0) as int),
        signed_range(ty, x) ==> ty.truncated(c.as_i64()->0) == x,
{
    let v = c.as_i64()->0;
    lemma_read(v, ty);
    lemma_chained(ty.truncated(v) as int, v as int, x, modulus(ty));
    if signed_range(ty, x) {
        lemma_close(ty.truncated(v) as int, x, modulus(ty));
    }
}

// ── Sums, differences and products ──────────────────────────────────────────

proof fn lemma_wrapped(l: i64, r: i64)
    ensures
        congruent(l.wrapping_add(r) as int, l + r, 0x1_0000_0000_0000_0000),
        congruent(l.wrapping_sub(r) as int, l - r, 0x1_0000_0000_0000_0000),
        congruent(l.wrapping_mul(r) as int, l * r, 0x1_0000_0000_0000_0000),
{
    let m: int = 0x1_0000_0000_0000_0000;
    let z = l * r;
    vstd::arithmetic::div_mod::lemma_fundamental_div_mod(z, m);
    assert(z == m * (z / m) + z % m);
    assert(congruent(z % m, z, m));
}

proof fn lemma_wrapped_wide(l: i128, r: i128)
    ensures
        congruent(l.wrapping_add(r) as int, l + r, modulus(IrType::I128)),
        congruent(l.wrapping_sub(r) as int, l - r, modulus(IrType::I128)),
        congruent(l.wrapping_mul(r) as int, l * r, modulus(IrType::I128)),
{
    let m: int = u128::MAX + 1;
    let z = l * r;
    vstd::arithmetic::div_mod::lemma_fundamental_div_mod(z, m);
    assert(z == m * (z / m) + z % m);
    assert(congruent(z % m, z, m));
}

/// Sums, differences and products of constants stand for those of the integers that the
/// operands stand for.
pub proof fn law_sums_and_products(l: IrConst, r: IrConst, ty: IrType, x: int, y: int)
    requires
        !ty.floating(),
        readable(l, ty),
        readable(r, ty),
        stands_for(l, ty, x),
        stands_for(r, ty, y),
    ensures
        ({
            let a = LatticeVal::Constant(l);
            let b = LatticeVal::Constant(r);
            &&& gives(lattice::binop_value(IrBinOp::Add, a, b, ty), ty, x + y)
            &&& gives(lattice::binop_value(IrBinOp::Sub, a, b, ty), ty, x - y)
            &&& gives(lattice::binop_value(IrBinOp::Mul, a, b, ty), ty, x * y)
        }),
{
    let m = modulus(ty);
    if ty.wide() {
        let v = l.as_i128()->0;
        let w = r.as_i128()->0;
        lemma_wrapped_wide(v, w);
        lemma_combined(v as int, x, w as int, y, m);
        lemma_chained(v.wrapping_add(w) as int, v + w, x + y, m);
        lemma_chained(v.wrapping_sub(w) as int, v - w, x - y, m);
        lemma_chained(v.wrapping_mul(w) as int, v * w, x * y, m);
    } else {
        let v = ty.truncated(l.as_i64()->0);
        let w = ty.truncated(r.as_i64()->0);
        lemma_operand(l, ty, x);
        lemma_operand(r, ty, y);
        lemma_wrapped(v, w);
        lemma_coarser64(v.wrapping_add(w) as int, v + w, ty);
        lemma_coarser64(v.wrapping_sub(w) as int, v - w, ty);
        lemma_coarser64(v.wrapping_mul(w) as int, v * w, ty);
        lemma_combined(v as int, x, w as int, y, m);
        lemma_chained(v.wrapping_add(w) as int, v + w, x + y, m);
        lemma_chained(v.wrapping_sub(w) as int, v - w, x - y, m);
        lemma_chained(v.wrapping_mul(w) as int, v * w, x * y, m);
        lemma_gives(v.wrapping_add(w), ty, x + y);
        lemma_gives(v.wrapping_sub(w), ty, x - y);
        lemma_gives(v.wrapping_mul(w), ty, x * y);
    }
}

/// The negation of a constant and its complement stand for those of the integer that it
/// stands for.
pub proof fn law_negation_and_complement(c: IrConst, ty: IrType, x: int)
    requires
        !ty.floating(),
        readable(c, ty),
        stands_for(c, ty, x),
    ensures
        gives(lattice::unaryop_value(IrUnaryOp::Neg, LatticeVal::Constant(c), ty), ty, -x),
        gives(lattice::unaryop_value(IrUnaryOp::Not, LatticeVal::Constant(c), ty), ty, -1 - x),
{
    let m = modulus(ty);
    assert(congruent(0, 0, m) && congruent(-1, -1, m));
    if ty.wide() {
        let v = c.as_i128()->0;
        lemma_wrapped_wide(0, v);
        assert(!v == -1 - v) by (bit_vector);
        lemma_combined(0, 0, v as int, x, m);
        lemma_combined(-1, -1, v as int, x, m);
        lemma_chained(0i128.wrapping_sub(v) as int, 0 - v, -x, m);
    } else {
        let v = c.as_i64()->0;
        lemma_wrapped(0, v);
        assert(!v == -1 - v) by (bit_vector);
        lemma_coarser64(0i64.wrapping_sub(v) as int, 0 - v, ty);
        lemma_combined(0, 0, v as int, x, m);
        lemma_combined(-1, -1, v as int, x, m);
        lemma_chained(0i64.wrapping_sub(v) as int, 0 - v, -x, m);
        lemma_gives(0i64.wrapping_sub(v), ty, -x);
        lemma_gives(!v, ty, -1 - x);
    }
}

// ── Quotients and remainders ────────────────────────────────────────────────

/// `q` is the quotient of `x` by `y`, rounded toward zero, and `rem` the remainder.
pub open spec fn divides_to(x: int, y: int, q: int, rem: int) -> bool {
    &&& x == q * y + rem
    &&& if y < 0 {
        y < rem < -y
    } else {
        -y < rem < y
    }
    &&& rem == 0 || (rem < 0) == (x < 0)
}

/// The quotient that machine division gives, and the remainder.
spec fn machine_quotient(x: int, d: int) -> int {
    if x == 0 {
        0
    } else if x > 0 && d > 0 {
        x / d
    } else if x < 0 && d < 0 {
        ((x * -1) / (d * -1))
    } else if x < 0 {
        ((x * -1) / d) * -1
    } else {
        (x / (d * -1)) * -1
    }
}

spec fn machine_remainder(x: int, d: int) -> int {
    if x == 0 {
        0
    } else if x > 0 && d > 0 {
        x % d
    } else if x < 0 && d < 0 {
        ((x * -1) % (d * -1)) * -1
    } else if x < 0 {
        ((x * -1) % d) * -1
    } else {
        x % (d * -1)
    }
}

proof fn lemma_quotient(x: int, y: int, q: int, rem: int)
    requires
        y != 0,
        divides_to(x, y, q, rem),
    ensures
        machine_quotient(x, y) == q,
        machine_remainder(x, y) == rem,
        -(if x < 0 {
            -x
        } else {
            x
        }) <= q <= (if x < 0 {
            -x
        } else {
            x
        }),
{
    if x == 0 {
        assert(q == 0) by (nonlinear_arith)
            requires
                0 == q * y + rem,
                y != 0,
                y < 0 ==> y < rem < -y,
                y >= 0 ==> -y < rem < y,
        ;
        assert(q * y == 0) by (nonlinear_arith)
            requires
                q == 0,
        ;
    } else {
        let a = if x < 0 {
            -x
        } else {
            x
        };
        let d = if y < 0 {
            -y
        } else {
            y
        };
        let p = if (x < 0) == (y < 0) {
            q
        } else {
            -q
        };
        let r = if x < 0 {
            -rem
        } else {
            rem
        };
        assert(a == p * d + r) by (nonlinear_arith)
            requires
                x == q * y + rem,
                a == (if x < 0 { -x } else { x }),
                d == (if y < 0 { -y } else { y }),
                p == (if (x < 0) == (y < 0) { q } else { -q }),
                r == (if x < 0 { -rem } else { rem }),
        ;
        vstd::arithmetic::div_mod::lemma_fundamental_div_mod_converse(a, d, p, r);
        assert(0 <= p <= a) by (nonlinear_arith)
            requires
                a == p * d + r,
                0 <= r < d,
                a > 0,
        ;
    }
}

/// The quotient of two constants with a sign, and the remainder. There is none by zero,
/// and none of the least integer of 64 or 128 bits by -1.
pub proof fn law_signed_division(
    l: IrConst,
    r: IrConst,
    ty: IrType,
    x: int,
    y: int,
    q: int,
    rem: int,
)
    requires
        !ty.floating(),
        readable(l, ty),
        readable(r, ty),
        stands_for(l, ty, x) && signed_range(ty, x),
        stands_for(r, ty, y) && signed_range(ty, y),
        y != 0 ==> divides_to(x, y, q, rem),
    ensures
        ({
            let a = LatticeVal::Constant(l);
            let b = LatticeVal::Constant(r);
            let quotient = lattice::binop_value(IrBinOp::SDiv, a, b, ty);
            let remainder = lattice::binop_value(IrBinOp::SRem, a, b, ty);
            if y == 0 || (y == -1 && modulus(ty) > u64::MAX && x == -(modulus(ty) / 2)) {
                quotient is Bottom && remainder is Bottom
            } else {
                gives(quotient, ty, q) && gives(remainder, ty, rem)
            }
        }),
{
    let m = modulus(ty);
    if y != 0 {
        lemma_quotient(x, y, q, rem);
        assert(congruent(q, q, m) && congruent(rem, rem, m));
        if y == -1 {
            assert(q == -x && rem == 0);
        } else if !(x == -(m / 2)) {
        } else {
            assert(q != -x) by (nonlinear_arith)
                requires
                    x == q * y + rem,
                    x < 0,
                    y != 0,
                    y != -1,
                    y < 0 ==> y < rem <= 0,
                    y >= 0 ==> -y < rem <= 0,
                    x < -1,
            ;
        }
    }
    if ty.wide() {
        lemma_close(l.integer()->0, x, m);
        lemma_close(r.integer()->0, y, m);
        let v = l.as_i128()->0;
        let w = r.as_i128()->0;
        assert(v == x && w == y);
    } else {
        lemma_operand(l, ty, x);
        lemma_operand(r, ty, y);
        let v = ty.truncated(l.as_i64()->0);
        let w = ty.truncated(r.as_i64()->0);
        if y != 0 && v.checked_div(w) is Some {
            lemma_gives(v.checked_div(w)->0, ty, q);
        }
        if y != 0 && v.checked_rem(w) is Some {
            lemma_gives(v.checked_rem(w)->0, ty, rem);
        }
    }
}

/// The quotient of two constants without a sign, and the remainder. There is none by
/// zero.
pub proof fn law_signless_division(
    l: IrConst,
    r: IrConst,
    ty: IrType,
    x: int,
    y: int,
    q: int,
    rem: int,
)
    requires
        !ty.floating(),
        readable(l, ty),
        readable(r, ty),
        stands_for(l, ty, x) && 0 <= x < modulus(ty),
        stands_for(r, ty, y) && 0 <= y < modulus(ty),
        y != 0 ==> x == q * y + rem && 0 <= rem < y,
    ensures
        ({
            let a = LatticeVal::Constant(l);
            let b = LatticeVal::Constant(r);
            let quotient = lattice::binop_value(IrBinOp::UDiv, a, b, ty);
            let remainder = lattice::binop_value(IrBinOp::URem, a, b, ty);
            if y == 0 {
                quotient is Bottom && remainder is Bottom
            } else {
                gives(quotient, ty, q) && gives(remainder, ty, rem)
            }
        }),
{
    let m = modulus(ty);
    if y != 0 {
        vstd::arithmetic::div_mod::lemma_fundamental_div_mod_converse(x, y, q, rem);
    }
    if ty.wide() {
        let v = l.as_i128()->0;
        let w = r.as_i128()->0;
        lemma_cut_wide(v, 0);
        lemma_cut_wide(w, 0);
        lemma_chained((v as u128) as int, v as int, x, m);
        lemma_chained((w as u128) as int, w as int, y, m);
        lemma_close((v as u128) as int, x, m);
        lemma_close((w as u128) as int, y, m);
        if w == 0 {
            lemma_close(0, y, m);
        }
        if y != 0 {
            lemma_cut_wide(0, (v as u128) / (w as u128));
            lemma_cut_wide(0, (v as u128) % (w as u128));
        }
    } else {
        lemma_signless_operand(l, ty, x);
        lemma_signless_operand(r, ty, y);
        let v = constant_fold::unsigned(ty.truncated(l.as_i64()->0), ty);
        let w = constant_fold::unsigned(ty.truncated(r.as_i64()->0), ty);
        if y != 0 {
            lemma_signed_again(v / w);
            lemma_signed_again(v % w);
            lemma_coarser64(((v / w) as i64) as int, q, ty);
            lemma_coarser64(((v % w) as i64) as int, rem, ty);
            lemma_gives((v / w) as i64, ty, q);
            lemma_gives((v % w) as i64, ty, rem);
        }
    }
}

/// The operand as it is read without a sign, and with one.
proof fn lemma_signless_operand(c: IrConst, ty: IrType, x: int)
    requires
        readable(c, ty),
        stands_for(c, ty, x),
        !ty.wide(),
    ensures
        ({
            let v = ty.truncated(c.as_i64()->0);
            let u = constant_fold::unsigned(v, ty) as int;
            let s = constant_fold::signed(v, ty) as int;
            &&& congruent(u, x, modulus(ty))
            &&& congruent(s, x, modulus(ty))
            &&& 0 <= x < modulus(ty) ==> u == x
            &&& -(modulus(ty) / 2) <= x < modulus(ty) / 2 ==> s == x
        }),
{
    let m = modulus(ty);
    let v = ty.truncated(c.as_i64()->0);
    let u = constant_fold::unsigned(v, ty) as int;
    let s = constant_fold::signed(v, ty) as int;
    lemma_operand(c, ty, x);
    lemma_read(v, ty);
    lemma_chained(u, v as int, x, m);
    lemma_chained(s, v as int, x, m);
    if 0 <= x < m {
        lemma_close(u, x, m);
    }
    if -(m / 2) <= x < m / 2 {
        lemma_close(s, x, m);
    }
}

// ── Shifts ──────────────────────────────────────────────────────────────────

proof fn lemma_halved(a: int, b: int)
    requires
        b > 0,
    ensures
        (a / b) / 2 == a / (2 * b),
{
    let q = a / b;
    let h = q / 2;
    vstd::arithmetic::div_mod::lemma_fundamental_div_mod(a, b);
    let r = a - h * (2 * b);
    assert(b * q == h * (2 * b) + (q % 2) * b) by (nonlinear_arith)
        requires
            q == 2 * h + q % 2,
    ;
    assert(0 <= (q % 2) * b <= b) by (nonlinear_arith)
        requires
            0 <= q % 2 <= 1,
            b > 0,
    ;
    vstd::arithmetic::div_mod::lemma_fundamental_div_mod_converse(a, 2 * b, h, r);
}

proof fn lemma_shr(v: i64, k: i64)
    requires
        0 <= k < 64,
    ensures
        v >> k == v as int / pow2(k as nat) as int,
    decreases k,
{
    let j = (k - 1) as i64;
    let g = k as u64;
    let h = j as u64;
    assert(v >> 0u64 == v && (g == h + 1 && h < 63 ==> ((v >> h) - 2 * (v >> g) == 0 || (v >> h)
        - 2 * (v >> g) == 1))) by (bit_vector);
    if k == 0 {
        lemma2_to64();
    } else {
        lemma_shr(v, j);
        lemma_pow2_unfold(k as nat);
        lemma_pow2_pos(j as nat);
        lemma_halved(v as int, pow2(j as nat) as int);
    }
}

proof fn lemma_shr_wide(v: i128, k: i128)
    requires
        0 <= k < 128,
    ensures
        v >> k == v as int / pow2(k as nat) as int,
    decreases k,
{
    let j = (k - 1) as i128;
    let g = k as u64;
    let h = j as u64;
    assert(v >> 0u64 == v && (g == h + 1 && h < 127 ==> ((v >> h) - 2 * (v >> g) == 0 || (v >> h)
        - 2 * (v >> g) == 1))) by (bit_vector);
    if k == 0 {
        lemma2_to64();
    } else {
        lemma_shr_wide(v, j);
        lemma_pow2_unfold(k as nat);
        lemma_pow2_pos(j as nat);
        lemma_halved(v as int, pow2(j as nat) as int);
    }
}

proof fn lemma_shl(v: u64, k: u64)
    requires
        0 <= k < 64,
    ensures
        congruent((v << k) as int, v * pow2(k as nat), 0x1_0000_0000_0000_0000),
    decreases k,
{
    let m: int = 0x1_0000_0000_0000_0000;
    let j = (k - 1) as u64;
    assert(v << 0u64 == v && (k == j + 1 && j < 63 ==> ((v << k) == 2 * (v << j) || (v << k) == 2
        * (v << j) - 0x1_0000_0000_0000_0000))) by (bit_vector);
    lemma2_to64();
    assert(v * pow2(0) == v) by (nonlinear_arith)
        requires
            pow2(0) == 1,
    ;
    if k > 0 {
        lemma_shl(v, j);
        lemma_pow2_unfold(k as nat);
        assert(congruent(2, 2, m));
        lemma_combined((v << j) as int, v * pow2(j as nat), 2, 2, m);
        assert(v * pow2(j as nat) * 2 == v * pow2(k as nat)) by (nonlinear_arith)
            requires
                pow2(k as nat) == 2 * pow2(j as nat),
        ;
        assert(congruent((v << k) as int, (v << j) * 2, m));
        lemma_chained((v << k) as int, (v << j) * 2, v * pow2(k as nat), m);
    }
}

proof fn lemma_shl_wide(v: u128, k: u128)
    requires
        0 <= k < 128,
    ensures
        congruent((v << k) as int, v * pow2(k as nat), modulus(IrType::I128)),
    decreases k,
{
    let m = modulus(IrType::I128);
    let j = (k - 1) as u128;
    assert(v << 0u128 == v && (k == j + 1 && j < 127 ==> ((v << k) == 2 * (v << j) || (v << k) == 2
        * (v << j) - 0xFFFF_FFFF_FFFF_FFFF_FFFF_FFFF_FFFF_FFFF - 1))) by (bit_vector);
    lemma2_to64();
    assert(v * pow2(0) == v) by (nonlinear_arith)
        requires
            pow2(0) == 1,
    ;
    if k > 0 {
        lemma_shl_wide(v, j);
        lemma_pow2_unfold(k as nat);
        assert(congruent(2, 2, m));
        lemma_combined((v << j) as int, v * pow2(j as nat), 2, 2, m);
        assert(v * pow2(j as nat) * 2 == v * pow2(k as nat)) by (nonlinear_arith)
            requires
                pow2(k as nat) == 2 * pow2(j as nat),
        ;
        assert(congruent((v << k) as int, (v << j) * 2, m));
        lemma_chained((v << k) as int, (v << j) * 2, v * pow2(k as nat), m);
    }
}

proof fn lemma_width(ty: IrType)
    ensures
        pow2(ty.width() as nat) == modulus(ty),
        forall|n: nat| #[trigger] pow2(n) < modulus(ty) <==> n < ty.width(),
{
    lemma2_to64();
    lemma2_to64_rest();
    lemma_pow2_adds(64, 64);
    assert(pow2(64) == 0x1_0000_0000_0000_0000);
    assert(pow2(64) * pow2(64) == u128::MAX + 1) by (nonlinear_arith)
        requires
            pow2(64) == 0x1_0000_0000_0000_0000,
    ;
    let w = ty.width() as nat;
    assert forall|n: nat| #[trigger] pow2(n) < modulus(ty) <==> n < w by {
        if n < w {
            lemma_pow2_strictly_increases(n, w);
        } else if n > w {
            lemma_pow2_strictly_increases(w, n);
        }
    }
}

/// A shift by fewer bits than the type has multiplies by a power of two, or divides by
/// one and rounds down: the constant without a sign, or, if the shift is arithmetic, with
/// its sign. Other shifts have no result.
pub proof fn law_shifts(l: IrConst, r: IrConst, ty: IrType, x: int, s: int, n: int)
    requires
        !ty.floating(),
        readable(l, ty),
        readable(r, ty),
        stands_for(l, ty, x) && 0 <= x < modulus(ty),
        stands_for(l, ty, s) && -(modulus(ty) / 2) <= s < modulus(ty) / 2,
        stands_for(r, ty, n) && signed_range(ty, n),
    ensures
        ({
            let a = LatticeVal::Constant(l);
            let b = LatticeVal::Constant(r);
            let left = lattice::binop_value(IrBinOp::Shl, a, b, ty);
            let right = lattice::binop_value(IrBinOp::LShr, a, b, ty);
            let signed = lattice::binop_value(IrBinOp::AShr, a, b, ty);
            if 0 <= n && pow2(n as nat) < modulus(ty) {
                &&& gives(left, ty, x * pow2(n as nat))
                &&& gives(right, ty, x / pow2(n as nat) as int)
                &&& gives(signed, ty, s / pow2(n as nat) as int)
            } else {
                left is Bottom && right is Bottom && signed is Bottom
            }
        }),
{
    let m = modulus(ty);
    lemma_width(ty);
    if n >= 0 {
        assert(pow2(n as nat) < m <==> n < ty.width());
    }
    if ty.wide() {
        let v = l.as_i128()->0;
        let k = r.as_i128()->0;
        lemma_close(r.integer()->0, n, m);
        lemma_close(v as int, s, m);
        lemma_cut_wide(v, 0);
        lemma_chained((v as u128) as int, v as int, x, m);
        lemma_close((v as u128) as int, x, m);
        if 0 <= n < 128 {
            let u = v as u128;
            let j = k as u128;
            lemma_shr_wide(v, k);
            lemma_shl_wide(u, j);
            vstd::bits::lemma_u128_shr_is_div(u, j);
            lemma_cut_wide(0, u << j);
            lemma_cut_wide(0, u >> j);
            lemma_chained(((u << j) as i128) as int, (u << j) as int, x * pow2(n as nat), m);
        }
    } else {
        let v = ty.truncated(l.as_i64()->0);
        let k = ty.truncated(r.as_i64()->0);
        lemma_operand(r, ty, n);
        lemma_signless_operand(l, ty, x);
        lemma_signless_operand(l, ty, s);
        if 0 <= n < ty.width() {
            let u = constant_fold::unsigned(v, ty);
            let j = k as u64;
            let t = constant_fold::signed(v, ty);
            lemma_shr(t, k);
            lemma_shl(u, j);
            vstd::bits::lemma_u64_shr_is_div(u, j);
            lemma_signed_again(u << j);
            lemma_signed_again(u >> j);
            lemma_chained(
                ((u << j) as i64) as int,
                (u << j) as int,
                x * pow2(n as nat),
                0x1_0000_0000_0000_0000,
            );
            lemma_coarser64(((u << j) as i64) as int, x * pow2(n as nat), ty);
            lemma_coarser64(((u >> j) as i64) as int, x / pow2(n as nat) as int, ty);
            lemma_gives((u << j) as i64, ty, x * pow2(n as nat));
            lemma_gives((u >> j) as i64, ty, x / pow2(n as nat) as int);
            assert(congruent((t >> k) as int, s / pow2(n as nat) as int, m));
            lemma_gives(t >> k, ty, s / pow2(n as nat) as int);
        }
    }
}

// ── Bits ────────────────────────────────────────────────────────────────────

/// Bit `k` of an integer, of which a negative one has infinitely many.
pub open spec fn bit(x: int, k: nat) -> bool {
    (x / pow2(k) as int) % 2 == 1
}

proof fn lemma_same_bits(a: int, b: int, k: nat, w: nat)
    requires
        congruent(a, b, pow2(w) as int),
        k < w,
    ensures
        bit(a, k) == bit(b, k),
{
    lemma_pow2_pos(k);
    lemma_pow2_pos(w);
    let d = pow2(k) as int;
    let rest = (w - k - 1) as nat;
    let n = pow2(rest) as int;
    lemma_pow2_adds(k, (rest + 1) as nat);
    lemma_pow2_unfold((rest + 1) as nat);
    let t = lemma_multiple(a, b, pow2(w) as int);
    assert(t * pow2(w) == (2 * (t * n)) * d) by (nonlinear_arith)
        requires
            pow2(w) == d * (2 * n),
    ;
    let e = 2 * (t * n);
    vstd::arithmetic::div_mod::lemma_fundamental_div_mod(b, d);
    assert((b / d + e) * d == d * (b / d) + e * d) by (nonlinear_arith);
    vstd::arithmetic::div_mod::lemma_fundamental_div_mod_converse(a, d, b / d + e, b % d);
    assert((b / d + 2 * (t * n)) % 2 == (b / d) % 2);
}

proof fn lemma_bits(l: i64, r: i64, k: i64)
    requires
        0 <= k < 64,
    ensures
        bit((l & r) as int, k as nat) == (bit(l as int, k as nat) && bit(r as int, k as nat)),
        bit((l | r) as int, k as nat) == (bit(l as int, k as nat) || bit(r as int, k as nat)),
        bit((l ^ r) as int, k as nat) == (bit(l as int, k as nat) != bit(r as int, k as nat)),
{
    let g = k as u64;
    lemma_shr(l, k);
    lemma_shr(r, k);
    lemma_shr(l & r, k);
    lemma_shr(l | r, k);
    lemma_shr(l ^ r, k);
    lemma_parity(l >> g);
    lemma_parity(r >> g);
    lemma_parity((l & r) >> g);
    lemma_parity((l | r) >> g);
    lemma_parity((l ^ r) >> g);
    assert(g < 64 ==> ((((l & r) >> g) & 1 == 1) == ((l >> g) & 1 == 1 && (r >> g) & 1 == 1)) && ((
    ((l | r) >> g) & 1 == 1) == ((l >> g) & 1 == 1 || (r >> g) & 1 == 1)) && ((((l ^ r) >> g) & 1
        == 1) == ((l >> g) & 1 != (r >> g) & 1)) && (((l >> g) & 1 == 0) || (l >> g) & 1 == 1) && (((
    r >> g) & 1 == 0) || (r >> g) & 1 == 1)) by (bit_vector);
}

proof fn lemma_parity(w: i64)
    ensures
        w as int % 2 == w & 1,
{
    assert(w == 2 * (w >> 1u64) + (w & 1) && (w & 1 == 0 || w & 1 == 1)) by (bit_vector);
}

proof fn lemma_bits_wide(l: i128, r: i128, k: i128)
    requires
        0 <= k < 128,
    ensures
        bit((l & r) as int, k as nat) == (bit(l as int, k as nat) && bit(r as int, k as nat)),
        bit((l | r) as int, k as nat) == (bit(l as int, k as nat) || bit(r as int, k as nat)),
        bit((l ^ r) as int, k as nat) == (bit(l as int, k as nat) != bit(r as int, k as nat)),
{
    let g = k as u64;
    lemma_shr_wide(l, k);
    lemma_shr_wide(r, k);
    lemma_shr_wide(l & r, k);
    lemma_shr_wide(l | r, k);
    lemma_shr_wide(l ^ r, k);
    lemma_parity_wide(l >> g);
    lemma_parity_wide(r >> g);
    lemma_parity_wide((l & r) >> g);
    lemma_parity_wide((l | r) >> g);
    lemma_parity_wide((l ^ r) >> g);
    assert(g < 128 ==> ((((l & r) >> g) & 1 == 1) == ((l >> g) & 1 == 1 && (r >> g) & 1 == 1)) && ((
    ((l | r) >> g) & 1 == 1) == ((l >> g) & 1 == 1 || (r >> g) & 1 == 1)) && ((((l ^ r) >> g) & 1
        == 1) == ((l >> g) & 1 != (r >> g) & 1)) && (((l >> g) & 1 == 0) || (l >> g) & 1 == 1) && (((
    r >> g) & 1 == 0) || (r >> g) & 1 == 1)) by (bit_vector);
}

proof fn lemma_parity_wide(w: i128)
    ensures
        w as int % 2 == w & 1,
{
    assert(w == 2 * (w >> 1u64) + (w & 1) && (w & 1 == 0 || w & 1 == 1)) by (bit_vector);
}

/// Bitwise operations on constants are those on the bits of the integers that the
/// operands stand for, as far as the type goes.
pub proof fn law_bitwise_operations(
    l: IrConst,
    r: IrConst,
    ty: IrType,
    x: int,
    y: int,
    k: nat,
)
    requires
        !ty.floating(),
        readable(l, ty),
        readable(r, ty),
        stands_for(l, ty, x),
        stands_for(r, ty, y),
        pow2(k) < modulus(ty),
    ensures
        ({
            let a = LatticeVal::Constant(l);
            let b = LatticeVal::Constant(r);
            &&& lattice::binop_value(IrBinOp::And, a, b, ty) matches LatticeVal::Constant(c)
                && sized(c, ty) && bit(c.integer()->0, k) == (bit(x, k) && bit(y, k))
            &&& lattice::binop_value(IrBinOp::Or, a, b, ty) matches LatticeVal::Constant(c)
                && sized(c, ty) && bit(c.integer()->0, k) == (bit(x, k) || bit(y, k))
            &&& lattice::binop_value(IrBinOp::Xor, a, b, ty) matches LatticeVal::Constant(c)
                && sized(c, ty) && bit(c.integer()->0, k) == (bit(x, k) != bit(y, k))
        }),
{
    let w = ty.width() as nat;
    lemma_width(ty);
    if ty.wide() {
        let v = l.as_i128()->0;
        let u = r.as_i128()->0;
        lemma_bits_wide(v, u, k as i128);
        lemma_same_bits(v as int, x, k, w);
        lemma_same_bits(u as int, y, k, w);
    } else {
        let m = modulus(ty);
        let v = ty.truncated(l.as_i64()->0);
        let u = ty.truncated(r.as_i64()->0);
        lemma_operand(l, ty, x);
        lemma_operand(r, ty, y);
        lemma_bits(v, u, k as i64);
        lemma_same_bits(v as int, x, k, w);
        lemma_same_bits(u as int, y, k, w);
        lemma_held_bits(v & u, ty, k);
        lemma_held_bits(v | u, ty, k);
        lemma_held_bits(v ^ u, ty, k);
    }
}

proof fn lemma_held_bits(v: i64, ty: IrType, k: nat)
    requires
        !ty.wide(),
        k < ty.width(),
    ensures
        sized(IrConst::of(ty.truncated(v), ty), ty),
        bit(IrConst::of(ty.truncated(v), ty).integer()->0, k) == bit(v as int, k),
{
    lemma_width(ty);
    lemma_apart(v as int, v as int, 0, modulus(ty));
    lemma_gives(v, ty, v as int);
    lemma_same_bits(
        IrConst::of(ty.truncated(v), ty).integer()->0,
        v as int,
        k,
        ty.width() as nat,
    );
}

// ── Comparisons ─────────────────────────────────────────────────────────────

/// The result is one if `b` holds, else zero.
pub open spec fn says(result: LatticeVal, b: bool) -> bool {
    result == LatticeVal::Constant(
        IrConst::I32(
            if b {
                1
            } else {
                0
            },
        ),
    )
}

/// Comparisons of constants are those of the integers that they stand for, with a sign
/// or without.
pub proof fn law_comparisons(
    l: IrConst,
    r: IrConst,
    ty: IrType,
    x: int,
    y: int,
    u: int,
    w: int,
)
    requires
        !ty.floating(),
        readable(l, ty),
        readable(r, ty),
        stands_for(l, ty, x) && signed_range(ty, x),
        stands_for(r, ty, y) && signed_range(ty, y),
        stands_for(l, ty, u) && 0 <= u < modulus(ty),
        stands_for(r, ty, w) && 0 <= w < modulus(ty),
    ensures
        ({
            let a = LatticeVal::Constant(l);
            let b = LatticeVal::Constant(r);
            &&& says(lattice::comparison_value(IrCmpOp::Eq, a, b, ty), x == y)
            &&& says(lattice::comparison_value(IrCmpOp::Ne, a, b, ty), x != y)
            &&& says(lattice::comparison_value(IrCmpOp::Slt, a, b, ty), x < y)
            &&& says(lattice::comparison_value(IrCmpOp::Sle, a, b, ty), x <= y)
            &&& says(lattice::comparison_value(IrCmpOp::Sgt, a, b, ty), x > y)
            &&& says(lattice::comparison_value(IrCmpOp::Sge, a, b, ty), x >= y)
            &&& says(lattice::comparison_value(IrCmpOp::Ult, a, b, ty), u < w)
            &&& says(lattice::comparison_value(IrCmpOp::Ule, a, b, ty), u <= w)
            &&& says(lattice::comparison_value(IrCmpOp::Ugt, a, b, ty), u > w)
            &&& says(lattice::comparison_value(IrCmpOp::Uge, a, b, ty), u >= w)
        }),
{
    lemma_two_readings(l, ty, x, u);
    lemma_two_readings(r, ty, y, w);
    let m = modulus(ty);
    if ty.wide() {
        lemma_close(l.integer()->0, x, m);
        lemma_close(r.integer()->0, y, m);
        let v = l.as_i128()->0;
        let t = r.as_i128()->0;
        lemma_cut_wide(v, 0);
        lemma_cut_wide(t, 0);
        lemma_chained((v as u128) as int, v as int, u, m);
        lemma_chained((t as u128) as int, t as int, w, m);
        lemma_close((v as u128) as int, u, m);
        lemma_close((t as u128) as int, w, m);
        assert(v == x && t == y && (v as u128) == u && (t as u128) == w);
    } else {
        lemma_operand(l, ty, x);
        lemma_operand(r, ty, y);
        let v = ty.truncated(l.as_i64()->0);
        let t = ty.truncated(r.as_i64()->0);
        lemma_order(v);
        lemma_order(t);
        assert(v == x && t == y);
        assert(((v as u64) < (t as u64)) == (u < w));
    }
}

/// The reading without a sign is the one with a sign, or that and once around.
proof fn lemma_two_readings(c: IrConst, ty: IrType, x: int, u: int)
    requires
        stands_for(c, ty, x) && signed_range(ty, x),
        stands_for(c, ty, u) && 0 <= u < modulus(ty),
    ensures
        u == if x < 0 {
            x + modulus(ty)
        } else {
            x
        },
{
    let m = modulus(ty);
    let v = c.integer()->0;
    lemma_turned(v, x, m);
    lemma_chained(x, v, u, m);
    if x < 0 {
        let k = lemma_multiple(x, u, m);
        assert((k + 1) * m == k * m + m) by (nonlinear_arith);
        lemma_apart(x + m, u, k + 1, m);
        lemma_close(x + m, u, m);
    } else {
        lemma_close(x, u, m);
    }
}

proof fn lemma_order(v: i64)
    ensures
        v as u64 == if v < 0 {
            v + 0x1_0000_0000_0000_0000
        } else {
            v as int
        },
{
    lemma_cut(v);
}

// ── Casts ───────────────────────────────────────────────────────────────────

/// A cast keeps the integer that a constant stands for in the type it is cast from, as
/// far as the type it is cast to goes: it is that integer, if that is one of the type.
pub proof fn law_casts_keep_integers(c: IrConst, from_ty: IrType, to_ty: IrType, x: int)
    requires
        !from_ty.floating(),
        !to_ty.floating(),
        from_ty.wide() || to_ty.wide() || c.as_i64() is Some,
        stands_for(c, from_ty, x) && in_range(from_ty, x),
    ensures
        gives(
            lattice::cast_value(LatticeVal::Constant(c), from_ty, to_ty),
            to_ty,
            x,
        ),
{
    let m = modulus(to_ty);
    let n = modulus(from_ty);
    if from_ty.wide() || to_ty.wide() {
        let v = c.as_i128()->0;
        let w = constant_fold::widened(v, from_ty);
        lemma_widened(v, from_ty, x);
        lemma_cut_wide(w, 0);
        if !to_ty.wide() {
            let k: int = 0x1_0000_0000_0000_0000;
            assert(k * k == u128::MAX + 1);
            lemma_coarser(w as int, x, u128::MAX + 1, k, k);
            lemma_chained((w as i64) as int, w as int, x, k);
            lemma_coarser64((w as i64) as int, x, to_ty);
            lemma_gives(w as i64, to_ty, x);
        }
    } else {
        let v = c.as_i64()->0;
        let t = from_ty.truncated(v);
        lemma_read(v, from_ty);
        lemma_chained(t as int, v as int, x, n);
        assert(congruent(t as int, x, m)) by {
            if signed_range(from_ty, x) {
                lemma_close(t as int, x, n);
            } else {
                lemma_coarser64(t as int, x, to_ty);
            }
        }
        lemma_gives(t, to_ty, x);
    }
}

proof fn lemma_widened(v: i128, ty: IrType, x: int)
    requires
        !ty.floating(),
        congruent(v as int, x, modulus(ty)),
        in_range(ty, x),
    ensures
        congruent(constant_fold::widened(v, ty) as int, x, u128::MAX + 1),
{
    let m = modulus(ty);
    let w = constant_fold::widened(v, ty) as int;
    lemma_cut_wide(v, 0);
    if !ty.wide() {
        if ty is U64 || ty is Ptr {
            lemma_chained((v as u64) as int, v as int, x, m);
        } else {
            let t = v as i64;
            lemma_coarser64(t as int, v as int, ty);
            lemma_read(t, ty);
            lemma_chained(w, t as int, v as int, m);
            lemma_chained(w, v as int, x, m);
        }
        lemma_close(w, x, m);
    }
}

} // verus!
