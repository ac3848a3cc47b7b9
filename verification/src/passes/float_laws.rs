//! What folding computes in floating point: exact results where there are any, and the
//! nearest number elsewhere.

use vstd::arithmetic::div_mod::{lemma_fundamental_div_mod, lemma_fundamental_div_mod_converse};
use vstd::arithmetic::power2::{lemma_pow2_pos, pow2};
use vstd::prelude::*;

use super::lattice;
use super::lattice::LatticeVal;
use crate::float;
use crate::ir::{IrBinOp, IrCmpOp, IrConst, IrType, IrUnaryOp};

verus! {

/// The nearest integer to a fraction is within half of it, and even if there are two.
pub proof fn law_nearest_is_within_half(n: nat, d: nat)
    requires
        d > 0,
    ensures
        ({
            let q = float::nearest(n, d) as int;
            let off = 2 * (n - q * d);
            &&& -d <= off <= d
            &&& off == d || off == -d ==> q % 2 == 0
        }),
{
    lemma_fundamental_div_mod(n as int, d as int);
    let q = n as int / d as int;
    assert(d * q == q * d && (q + 1) * d == q * d + d) by (nonlinear_arith);
    assert(0 <= n % d < d);
}

proof fn lemma_same_binade(v: nat, d: nat)
    requires
        d > 0,
        v > 0,
    ensures
        float::binade(v * d, d) == float::binade(v, 1),
{
    let k = float::lemma_find_binade(v);
    let a = pow2(k);
    let b = pow2(k + 1);
    assert(a * d <= v * d) by (nonlinear_arith)
        requires
            a <= v,
    ;
    assert(v * d < b * d) by (nonlinear_arith)
        requires
            d > 0,
            v < b,
    ;
    float::lemma_binade(v, 1, k);
    float::lemma_binade(v * d, d, k);
}

/// A fraction that is an integer rounds as the integer does.
proof fn lemma_whole(v: nat, d: nat)
    requires
        d > 0,
        v > 0,
    ensures
        float::magnitude(float::double(), v * d, d) == float::magnitude(float::double(), v, 1),
{
    let f = float::double();
    lemma_same_binade(v, d);
    let q = float::last_place(f, v, 1);
    let w = pow2(q);
    lemma_pow2_pos(q);
    lemma_fundamental_div_mod(v as int, w as int);
    let n = v as int / w as int;
    let r = v as int % w as int;
    assert(v * d == n * (d * w) + r * d) by (nonlinear_arith)
        requires
            v == w * n + r,
    ;
    assert(0 <= r * d < d * w) by (nonlinear_arith)
        requires
            0 <= r < w,
            d > 0,
    ;
    lemma_fundamental_div_mod_converse((v * d) as int, (d * w) as int, n, r * d);
    assert((2 * (r * d) < d * w) == (2 * r < w)) by (nonlinear_arith)
        requires
            d > 0,
    ;
    assert((2 * (r * d) == d * w) == (2 * r == w)) by (nonlinear_arith)
        requires
            d > 0,
    ;
    assert(1 * w == w);
    assert(v * d > 0) by (nonlinear_arith)
        requires
            v > 0,
            d > 0,
    ;
}

/// A number that is neither infinite nor not a number.
pub open spec fn finite(b: u64) -> bool {
    float::unsigned_bits(b) < float::INFINITY
}

/// Two finite numbers have the same value and sign if and only if they are the same.
proof fn lemma_bits_of(b: u64, neg: bool, m: nat)
    requires
        m == float::unsigned_bits(b),
        neg == float::negative(b),
    ensures
        float::with_sign(neg, m) == b,
{
}

/// Sums and differences are exact where there is a number that is the result, and so are
/// products and quotients. Values are in units, of which a product has them squared.
pub proof fn law_exact_results(a: u64, b: u64, c: u64)
    requires
        finite(a),
        finite(b),
        finite(c),
        float::signed_value(c) != 0,
    ensures
        float::signed_value(a) + float::signed_value(b) == float::signed_value(c) ==> float::sum(
            a,
            b,
        ) == c,
        float::signed_value(a) - float::signed_value(b) == float::signed_value(c)
            ==> float::difference(a, b) == c,
        float::signed_value(a) * float::signed_value(b) == float::signed_value(c) * pow2(
            float::SCALE as nat,
        ) ==> float::product(a, b) == c,
        float::signed_value(b) != 0 && float::signed_value(a) * pow2(float::SCALE as nat)
            == float::signed_value(c) * float::signed_value(b) ==> float::quotient(a, b) == c,
{
    let f = float::double();
    let m = float::unsigned_bits(c) as nat;
    let v = float::value(f, m);
    let scale = pow2(float::SCALE as nat);
    lemma_pow2_pos(float::SCALE as nat);
    float::law_numbers_are_not_rounded(f, m);
    assert(v > 0);
    lemma_bits_of(c, float::negative(c), m);
    let n = float::negated(b);
    assert(float::unsigned_bits(n) == float::unsigned_bits(b));
    assert(float::signed_value(n) == -float::signed_value(b) || float::signed_value(b) == 0);
    let x = float::value(f, float::unsigned_bits(a) as nat);
    let y = float::value(f, float::unsigned_bits(b) as nat);
    if float::signed_value(a) * float::signed_value(b) == float::signed_value(c) * scale {
        lemma_signs(
            float::signed_value(a),
            float::signed_value(b),
            float::signed_value(c),
            scale as int,
        );
        assert(x * y == v * scale);
        lemma_whole(v, scale);
    }
    if float::signed_value(b) != 0 && float::signed_value(a) * scale == float::signed_value(c)
        * float::signed_value(b) {
        lemma_signs(
            float::signed_value(c),
            float::signed_value(b),
            float::signed_value(a),
            scale as int,
        );
        assert(x * scale == v * y);
        lemma_whole(v, y);
        assert(float::unsigned_bits(b) != 0) by {
            lemma_pow2_pos(52);
            let w = pow2((f.precision - 1) as nat);
            assert(w > 0 && 0nat / w == 0 && 0nat % w == 0);
            assert(float::exponent_field(f, 0) == 0);
            assert(float::significand(f, 0) == 0);
            float::lemma_zero_value(0);
        }
        assert(v * y == x * scale);
    }
}

/// The sizes and the signs of the factors.
proof fn lemma_signs(a: int, b: int, c: int, s: int)
    requires
        a * b == c * s,
        s > 0,
        c != 0 || (a != 0 && b != 0),
    ensures
        a != 0 && b != 0 && c != 0,
        (c < 0) == ((a < 0) != (b < 0)),
        float::absolute(a) * float::absolute(b) == float::absolute(c) * s,
{
    assert(a != 0 && b != 0 && c != 0) by (nonlinear_arith)
        requires
            a * b == c * s,
            s > 0,
            c != 0 || (a != 0 && b != 0),
    ;
    assert((c < 0) == ((a < 0) != (b < 0))) by (nonlinear_arith)
        requires
            a * b == c * s,
            s > 0,
            a != 0,
            b != 0,
            c != 0,
    ;
    assert((-a) * b == -(a * b) && a * (-b) == -(a * b) && (-a) * (-b) == a * b && (-c) * s == -(c
        * s)) by (nonlinear_arith);
}

/// Sums and products do not depend on the order of their operands, and operations on what
/// is not a number give no number. So do those that have no result: the sum of two
/// infinities of different signs, the product of zero and infinity, and the quotients of
/// two zeros or two infinities. Otherwise what is infinite stays so, and the quotient of a
/// number by zero is infinite.
pub proof fn law_special_results(a: u64, b: u64)
    ensures
        float::sum(a, b) == float::sum(b, a),
        float::product(a, b) == float::product(b, a),
        float::negated(float::negated(a)) == a,
        float::not_a_number(a) || float::not_a_number(b) ==> {
            &&& float::not_a_number(float::sum(a, b))
            &&& float::not_a_number(float::difference(a, b))
            &&& float::not_a_number(float::product(a, b))
            &&& float::not_a_number(float::quotient(a, b))
            &&& !float::less(a, b)
            &&& !float::equal(a, b)
        },
        float::infinite(a) && finite(b) ==> {
            &&& float::sum(a, b) == a
            &&& float::difference(a, b) == a
            &&& float::infinite(float::quotient(a, b))
        },
        float::infinite(a) && float::infinite(b) ==> {
            &&& float::not_a_number(float::quotient(a, b))
            &&& float::infinite(float::product(a, b))
            &&& if float::negative(a) == float::negative(b) {
                float::sum(a, b) == a && float::not_a_number(float::difference(a, b))
            } else {
                float::not_a_number(float::sum(a, b)) && float::difference(a, b) == a
            }
        },
        float::infinite(a) && float::unsigned_bits(b) == 0 ==> float::not_a_number(
            float::product(a, b),
        ),
        float::unsigned_bits(b) == 0 && finite(a) ==> if float::unsigned_bits(a) == 0 {
            float::not_a_number(float::quotient(a, b))
        } else {
            float::infinite(float::quotient(a, b))
        },
{
    assert(float::value(float::double(), float::unsigned_bits(a) as nat) * float::value(
        float::double(),
        float::unsigned_bits(b) as nat,
    ) == float::value(float::double(), float::unsigned_bits(b) as nat) * float::value(
        float::double(),
        float::unsigned_bits(a) as nat,
    )) by (nonlinear_arith);
}

/// Operations on numbers of 64 bits are folded to the number that is the result, where
/// there is one, and comparisons by the values.
pub proof fn law_folding_in_floating_point(a: u64, b: u64, c: u64)
    requires
        finite(a),
        finite(b),
        finite(c),
        float::signed_value(c) != 0,
    ensures
        ({
            let l = LatticeVal::Constant(IrConst::F64(a));
            let r = LatticeVal::Constant(IrConst::F64(b));
            let result = LatticeVal::Constant(IrConst::F64(c));
            let x = float::signed_value(a);
            let y = float::signed_value(b);
            let z = float::signed_value(c);
            let unit = pow2(float::SCALE as nat);
            let ty = IrType::F64;
            &&& x + y == z ==> lattice::binop_value(IrBinOp::Add, l, r, ty) == result
            &&& x - y == z ==> lattice::binop_value(IrBinOp::Sub, l, r, ty) == result
            &&& x * y == z * unit ==> lattice::binop_value(IrBinOp::Mul, l, r, ty) == result
            &&& y != 0 && x * unit == z * y ==> lattice::binop_value(IrBinOp::SDiv, l, r, ty)
                == result && lattice::binop_value(IrBinOp::UDiv, l, r, ty) == result
            &&& -x == z ==> lattice::unaryop_value(IrUnaryOp::Neg, l, ty) == result
            &&& lattice::binop_value(IrBinOp::SRem, l, r, ty) is Bottom
            &&& lattice::binop_value(IrBinOp::And, l, r, ty) is Bottom
            &&& lattice::binop_value(IrBinOp::Shl, l, r, ty) is Bottom
            &&& lattice::comparison_value(IrCmpOp::Eq, l, r, ty) == said(x == y)
            &&& lattice::comparison_value(IrCmpOp::Ne, l, r, ty) == said(x != y)
            &&& lattice::comparison_value(IrCmpOp::Slt, l, r, ty) == said(x < y)
            &&& lattice::comparison_value(IrCmpOp::Ult, l, r, ty) == said(x < y)
            &&& lattice::comparison_value(IrCmpOp::Sle, l, r, ty) == said(x <= y)
            &&& lattice::comparison_value(IrCmpOp::Ule, l, r, ty) == said(x <= y)
            &&& lattice::comparison_value(IrCmpOp::Sgt, l, r, ty) == said(x > y)
            &&& lattice::comparison_value(IrCmpOp::Ugt, l, r, ty) == said(x > y)
            &&& lattice::comparison_value(IrCmpOp::Sge, l, r, ty) == said(x >= y)
            &&& lattice::comparison_value(IrCmpOp::Uge, l, r, ty) == said(x >= y)
        }),
{
    law_exact_results(a, b, c);
    float::law_order_is_that_of_values(a, b);
    float::law_order_is_that_of_values(b, a);
    let n = float::negated(a);
    float::law_order_is_that_of_values(n, c);
    assert(float::unsigned_bits(n) == float::unsigned_bits(a));
}

/// One if it holds, else zero.
pub open spec fn said(b: bool) -> LatticeVal {
    LatticeVal::Constant(
        IrConst::I32(
            if b {
                1
            } else {
                0
            },
        ),
    )
}

} // verus!
