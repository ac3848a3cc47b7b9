//! Arithmetic on floating-point numbers that are held by their bits.
//!
//! Numbers are binary32, binary64 or binary128. Results are rounded to the
//! nearest number, and to the even one of two that are equally near. Every
//! operation that has no number as its result gives the same quiet NaN.
//!
//! Values are stated as integers, in units of two to the power of minus `SCALE`,
//! of which every number of these formats, and every product of two, is a
//! multiple.

use vstd::arithmetic::div_mod::*;
use vstd::arithmetic::power2::*;
use vstd::prelude::*;

verus! {

/// The exponent of the unit, negated.
pub const SCALE: i32 = 20000;

/// The sign bit of a binary64.
pub const SIGN: u64 = 0x8000_0000_0000_0000;

/// The bits of infinity.
pub const INFINITY: u64 = 0x7ff0_0000_0000_0000;

/// The bits of the NaN that operations give.
pub const QUIET_NAN: u64 = 0x7ff8_0000_0000_0000;

/// A binary format.
pub struct Format {
    /// Number of bits of the significand.
    pub precision: u32,
    /// The exponent of the least positive number.
    pub least: i32,
    /// The bits of infinity.
    pub infinity: u128,
}

/// binary32
pub open spec fn single() -> Format {
    Format { precision: 24, least: (-149) as i32, infinity: 0x7f80_0000 }
}

/// binary64
pub open spec fn double() -> Format {
    Format { precision: 53, least: (-1074) as i32, infinity: 0x7ff0_0000_0000_0000 }
}

/// binary128
pub open spec fn quad() -> Format {
    Format { precision: 113, least: (-16494) as i32, infinity: 0x7fff_0000_0000_0000_0000_0000_0000_0000 }
}

// ── Rounding ────────────────────────────────────────────────────────────────

/// The integer nearest to `n / d`, and the even one of two that are equally near.
pub open spec fn nearest(n: nat, d: nat) -> nat {
    let q = n / d;
    let r = n % d;
    if 2 * r < d || (2 * r == d && q % 2 == 0) {
        q
    } else {
        q + 1
    }
}

/// `x / d` is at least two to the power of `k`, and less than twice that.
pub open spec fn in_binade(x: nat, d: nat, k: nat) -> bool {
    pow2(k) * d <= x < pow2(k + 1) * d
}

/// The exponent of the greatest power of two that is at most `x / d`.
pub open spec fn binade(x: nat, d: nat) -> nat {
    choose|k: nat| in_binade(x, d, k)
}

/// The exponent, in units, of the last place of the number that stands for `x / d`.
pub open spec fn last_place(f: Format, x: nat, d: nat) -> nat {
    let least = (f.least + SCALE) as nat;
    let k = binade(x, d) - (f.precision - 1);
    if k >= least {
        k as nat
    } else {
        least
    }
}

/// The bits, without the sign, of the number nearest to `x / d` units.
///
/// Within one binade the numbers are the multiples of the last place, and their
/// bits count them up, on from those of the binade before.
pub open spec fn magnitude(f: Format, x: nat, d: nat) -> nat {
    if x == 0 {
        0
    } else {
        let q = last_place(f, x, d);
        let bits = ((q - (f.least + SCALE)) * pow2((f.precision - 1) as nat) + nearest(
            x,
            d * pow2(q),
        )) as nat;
        if bits >= f.infinity {
            f.infinity as nat
        } else {
            bits
        }
    }
}

proof fn lemma_pow2_le(a: nat, b: nat)
    requires
        a <= b,
    ensures
        0 < pow2(a) <= pow2(b),
{
    lemma_pow2_pos(a);
    if a < b {
        lemma_pow2_strictly_increases(a, b);
    }
}

/// There is one binade only.
pub proof fn lemma_binade(x: nat, d: nat, k: nat)
    requires
        in_binade(x, d, k),
        d > 0,
    ensures
        binade(x, d) == k,
{
    let j = binade(x, d);
    assert(in_binade(x, d, j));
    if j < k {
        lemma_pow2_le(j + 1, k);
        assert(pow2(j + 1) * d <= pow2(k) * d) by (nonlinear_arith)
            requires
                pow2(j + 1) <= pow2(k),
        ;
    } else if k < j {
        lemma_pow2_le(k + 1, j);
        assert(pow2(k + 1) * d <= pow2(j) * d) by (nonlinear_arith)
            requires
                pow2(k + 1) <= pow2(j),
        ;
    }
}

/// The integer nearest to `x / (b * w)`, where `n` is the integer part of `x / b`
/// and `w` is even.
proof fn lemma_nearest_scaled(x: nat, b: nat, w: nat, n: nat, exact: bool)
    requires
        b > 0,
        w >= 2,
        w % 2 == 0,
        n == x / b,
        exact == (x % b == 0),
    ensures
        nearest(x, b * w) == {
            let h = n / w;
            let low = n % w;
            if 2 * low < w || (2 * low == w && exact && h % 2 == 0) {
                h
            } else {
                h + 1
            }
        },
{
    let h = n / w;
    let low = n % w;
    let s = x % b;
    let d = b * w;
    let r = low * b + s;
    lemma_fundamental_div_mod(x as int, b as int);
    lemma_fundamental_div_mod(n as int, w as int);
    assert(x == d * h + r) by (nonlinear_arith)
        requires
            x == b * n + s,
            n == w * h + low,
            d == b * w,
            r == low * b + s,
    ;
    assert(0 <= r < d) by (nonlinear_arith)
        requires
            0 <= low <= w - 1,
            0 <= s < b,
            d == b * w,
            r == low * b + s,
    ;
    assert(h * d == d * h) by (nonlinear_arith);
    lemma_fundamental_div_mod_converse(x as int, d as int, h as int, r as int);
    if 2 * low < w {
        assert(2 * r < d) by (nonlinear_arith)
            requires
                2 * low <= w - 2,
                0 <= s < b,
                d == b * w,
                r == low * b + s,
        ;
    } else if 2 * low == w {
        assert(2 * r == d + 2 * s) by (nonlinear_arith)
            requires
                2 * low == w,
                d == b * w,
                r == low * b + s,
        ;
    } else {
        assert(2 * r > d) by (nonlinear_arith)
            requires
                2 * low > w,
                0 <= s,
                b > 0,
                d == b * w,
                r == low * b + s,
        ;
    }
}

/// Two to the power of `t`.
fn power(t: u32) -> (r: u128)
    requires
        t <= 126,
    ensures
        r == pow2(t as nat),
{
    let mut r: u128 = 1;
    let mut k: u32 = 0;
    proof {
        lemma2_to64();
    }
    while k < t
        invariant
            k <= t <= 126,
            r == pow2(k as nat),
        decreases t - k,
    {
        proof {
            lemma_pow2_126();
            lemma_pow2_le((k + 1) as nat, 126);
            lemma_pow2_unfold((k + 1) as nat);
        }
        r = r * 2;
        k += 1;
    }
    r
}

proof fn lemma_pow2_126()
    ensures
        pow2(126) == 0x4000_0000_0000_0000_0000_0000_0000_0000,
        pow2(112) == 0x1_0000_0000_0000_0000_0000_0000_0000,
        pow2(113) == 0x2_0000_0000_0000_0000_0000_0000_0000,
        pow2(64) == 0x1_0000_0000_0000_0000,
        pow2(63) == 0x8000_0000_0000_0000,
        pow2(62) == 0x4000_0000_0000_0000,
        pow2(53) == 0x20_0000_0000_0000,
        pow2(52) == 0x10_0000_0000_0000,
        pow2(23) == 0x80_0000,
        pow2(1) == 2,
        pow2(0) == 1,
{
    lemma2_to64();
    lemma2_to64_rest();
    lemma_pow2_adds(63, 63);
    lemma_pow2_adds(56, 56);
    lemma_pow2_adds(56, 57);
    assert(pow2(63) * pow2(63) == 0x4000_0000_0000_0000_0000_0000_0000_0000) by (nonlinear_arith)
        requires
            pow2(63) == 0x8000_0000_0000_0000,
    ;
    assert(pow2(56) * pow2(56) == 0x1_0000_0000_0000_0000_0000_0000_0000) by (nonlinear_arith)
        requires
            pow2(56) == 0x100_0000_0000_0000,
    ;
    assert(pow2(56) * pow2(57) == 0x2_0000_0000_0000_0000_0000_0000_0000) by (nonlinear_arith)
        requires
            pow2(56) == 0x100_0000_0000_0000,
            pow2(57) == 0x200_0000_0000_0000,
    ;
}

/// The exponent of the greatest power of two that is at most `n`.
fn log2(n: u128) -> (l: u32)
    requires
        0 < n < pow2(126),
    ensures
        l < 126,
        pow2(l as nat) <= n < pow2((l + 1) as nat),
{
    let mut l: u32 = 0;
    let mut p: u128 = 1;
    proof {
        lemma_pow2_126();
    }
    while p <= n / 2
        invariant
            0 < n < pow2(126),
            l < 126,
            p == pow2(l as nat) <= n,
            pow2(126) == 0x4000_0000_0000_0000_0000_0000_0000_0000,
        decreases n - p,
    {
        proof {
            lemma_pow2_unfold((l + 1) as nat);
            if l == 125 {
                assert(pow2(126) <= n);
            }
            lemma_pow2_pos(l as nat);
        }
        p = p * 2;
        l += 1;
    }
    proof {
        lemma_pow2_unfold((l + 1) as nat);
    }
    l
}

impl Format {
    /// The format is one that results are rounded to here.
    pub open spec fn wf(self) -> bool {
        &&& 2 <= self.precision <= 113
        &&& -17000 <= self.least <= 0
        &&& self.infinity < 0x8000_0000_0000_0000_0000_0000_0000_0000
    }
}

/// `n` is the integer part of `x / d` in units of two to the power of `e`, and
/// `exact` says whether that is all of it.
spec fn stands_for(n: u128, e: i32, exact: bool, x: nat, d: nat) -> bool {
    let b = d * pow2((e + SCALE) as nat);
    &&& b > 0
    &&& n == x / b
    &&& exact == (x % b == 0)
}

/// Rounds a number to a format.
#[verifier::rlimit(40)]
fn round_to(
    f: &Format,
    n: u128,
    e: i32,
    exact: bool,
    Ghost(x): Ghost<nat>,
    Ghost(d): Ghost<nat>,
) -> (r: u128)
    requires
        f.wf(),
        -3000 <= e <= 3000,
        0 < n < pow2(126),
        d > 0,
        stands_for(n, e, exact, x, d),
        !exact ==> n >= pow2(f.precision as nat),
    ensures
        r == magnitude(*f, x, d),
{
    let l = log2(n);
    let ghost eo = (e + SCALE) as nat;
    let ghost b = d * pow2(eo);
    proof {
        lemma_fundamental_div_mod(x as int, b as int);
        lemma_pow2_pos(eo);
        lemma_pow2_adds(l as nat, eo);
        lemma_pow2_adds((l + 1) as nat, eo);
        assert(pow2(eo + l as nat) * d <= x < pow2(eo + l as nat + 1) * d) by {
            assert(pow2(eo + l as nat) * d == pow2(l as nat) * b) by (nonlinear_arith)
                requires
                    pow2(eo + l as nat) == pow2(l as nat) * pow2(eo),
                    b == d * pow2(eo),
            ;
            assert(pow2(eo + l as nat + 1) * d == pow2((l + 1) as nat) * b) by (nonlinear_arith)
                requires
                    pow2(eo + l as nat + 1) == pow2((l + 1) as nat) * pow2(eo),
                    b == d * pow2(eo),
            ;
            assert(pow2(l as nat) * b <= n * b) by (nonlinear_arith)
                requires
                    pow2(l as nat) <= n,
            ;
            assert((n + 1) * b <= pow2((l + 1) as nat) * b) by (nonlinear_arith)
                requires
                    n + 1 <= pow2((l + 1) as nat),
            ;
            assert(x < (n + 1) * b && n * b <= x) by (nonlinear_arith)
                requires
                    x == b * n + x % b,
                    0 <= x % b < b,
            ;
        }
        lemma_binade(x, d, eo + l as nat);
        assert(x > 0) by (nonlinear_arith)
            requires
                x == b * n + x % b,
                0 <= x % b,
                b > 0,
                n > 0,
        ;
        if !exact {
            if l < f.precision {
                lemma_pow2_le((l + 1) as nat, f.precision as nat);
            }
        }
    }
    let low: i32 = e + l as i32 - (f.precision as i32 - 1);
    let q: i32 = if low >= f.least {
        low
    } else {
        f.least
    };
    let t: i32 = q - e;
    let ghost qo = (q + SCALE) as nat;
    assert(last_place(*f, x, d) == qo);
    proof {
        lemma_pow2_126();
    }
    let m: u128 = if t <= 0 {
        let s = (0 - t) as u32;
        proof {
            assert(exact);
            let up = pow2(s as nat);
            let c = d * pow2(qo);
            lemma_pow2_adds(qo, s as nat);
            lemma_pow2_pos(qo);
            lemma_pow2_pos(s as nat);
            assert(b == c * up) by (nonlinear_arith)
                requires
                    b == d * pow2(eo),
                    pow2(eo) == pow2(qo) * up,
                    c == d * pow2(qo),
            ;
            assert(c > 0) by (nonlinear_arith)
                requires
                    c == d * pow2(qo),
                    d > 0,
                    pow2(qo) > 0,
            ;
            assert(x == (n * up) * c + 0) by (nonlinear_arith)
                requires
                    x == b * n,
                    b == c * up,
            ;
            lemma_fundamental_div_mod_converse(x as int, c as int, n * up, 0);
            assert(nearest(x, c) == n * up);
            lemma_pow2_adds((l + 1) as nat, s as nat);
            lemma_pow2_le((l + 1 + s) as nat, 113);
            assert(n * up <= pow2((l + 1) as nat) * up) by (nonlinear_arith)
                requires
                    n <= pow2((l + 1) as nat),
            ;
        }
        n * power(s)
    } else {
        proof {
            lemma_pow2_adds(eo, t as nat);
            lemma_pow2_unfold(t as nat);
            let w = pow2(t as nat);
            assert(d * pow2(qo) == b * w) by (nonlinear_arith)
                requires
                    b == d * pow2(eo),
                    pow2(qo) == pow2(eo) * w,
            ;
            lemma_pow2_pos((t - 1) as nat);
            lemma_nearest_scaled(x, b, w, n as nat, exact);
        }
        if t > 126 {
            proof {
                lemma_pow2_le(126, (t - 1) as nat);
                lemma_fundamental_div_mod_converse(n as int, pow2(t as nat) as int, 0, n as int);
            }
            0
        } else {
            let w = power(t as u32);
            let h = n / w;
            let rest = n % w;
            if rest < w / 2 || (rest == w / 2 && exact && h % 2 == 0) {
                h
            } else {
                h + 1
            }
        }
    };
    proof {
        lemma_pow2_le((f.precision - 1) as nat, 112);
        assert(0 <= q - f.least <= 20200);
        assert((q - f.least) * pow2((f.precision - 1) as nat) <= 20200 * pow2(112))
            by (nonlinear_arith)
            requires
                0 <= q - f.least <= 20200,
                0 < pow2((f.precision - 1) as nat) <= pow2(112),
        ;
    }
    let bits: u128 = (q - f.least) as u128 * power(f.precision - 1) + m;
    if bits >= f.infinity {
        f.infinity
    } else {
        bits
    }
}

// ── Numbers ─────────────────────────────────────────────────────────────────

/// The exponent bits of a number, given its bits without the sign.
pub open spec fn exponent_field(f: Format, m: nat) -> nat {
    m / pow2((f.precision - 1) as nat)
}

/// The significand of a number, given its bits without the sign.
pub open spec fn significand(f: Format, m: nat) -> nat {
    let w = pow2((f.precision - 1) as nat);
    if exponent_field(f, m) == 0 {
        m % w
    } else {
        m % w + w
    }
}

/// The exponent of a number's last place, given its bits without the sign.
pub open spec fn exponent(f: Format, m: nat) -> int {
    if exponent_field(f, m) == 0 {
        f.least as int
    } else {
        f.least + exponent_field(f, m) - 1
    }
}

/// The absolute value of a number in units, given its bits without the sign.
pub open spec fn value(f: Format, m: nat) -> nat {
    significand(f, m) * pow2((exponent(f, m) + SCALE) as nat)
}

/// Is the binary64 negative?
pub open spec fn negative(b: u64) -> bool {
    b >= SIGN
}

/// The bits of a binary64 without its sign.
pub open spec fn unsigned_bits(b: u64) -> u64 {
    if b >= SIGN {
        (b - SIGN) as u64
    } else {
        b
    }
}

pub open spec fn not_a_number(b: u64) -> bool {
    unsigned_bits(b) > INFINITY
}

pub open spec fn infinite(b: u64) -> bool {
    unsigned_bits(b) == INFINITY
}

/// The value of a binary64 in units.
pub open spec fn signed_value(b: u64) -> int {
    let v = value(double(), unsigned_bits(b) as nat);
    if negative(b) {
        -v
    } else {
        v as int
    }
}

/// The binary64 with these bits and this sign.
pub open spec fn with_sign(negative: bool, m: nat) -> u64 {
    if negative {
        (m + SIGN) as u64
    } else {
        m as u64
    }
}

/// The bits of a number, from its significand and exponent.
proof fn lemma_bits(f: Format, m: nat)
    requires
        f.wf(),
    ensures
        m == (exponent(f, m) - f.least) * pow2((f.precision - 1) as nat) + significand(f, m),
        significand(f, m) < 2 * pow2((f.precision - 1) as nat),
        exponent(f, m) >= f.least,
        exponent(f, m) > f.least ==> significand(f, m) >= pow2((f.precision - 1) as nat),
{
    let w = pow2((f.precision - 1) as nat);
    lemma_pow2_pos((f.precision - 1) as nat);
    lemma_fundamental_div_mod(m as int, w as int);
    let e = exponent_field(f, m);
    if e > 0 {
        assert((e - 1) * w + (m % w + w) == w * e + m % w) by (nonlinear_arith);
    } else {
        assert(w * 0 == 0 && 0 * w == 0) by (nonlinear_arith);
    }
}

/// Rounding a number to its own format gives the number.
pub proof fn law_numbers_are_not_rounded(f: Format, m: nat)
    requires
        f.wf(),
        m < f.infinity,
    ensures
        magnitude(f, value(f, m), 1) == m,
{
    let p1 = (f.precision - 1) as nat;
    let w = pow2(p1);
    let s = significand(f, m);
    let eo = (exponent(f, m) + SCALE) as nat;
    let x = value(f, m);
    lemma_bits(f, m);
    lemma_pow2_pos(eo);
    lemma_pow2_pos(p1);
    if s == 0 {
        assert(exponent(f, m) == f.least);
        assert(0 * w == 0) by (nonlinear_arith);
        assert(m == 0);
        assert(x == 0) by (nonlinear_arith)
            requires
                x == s * pow2(eo),
                s == 0,
        ;
    } else {
        assert(x > 0) by (nonlinear_arith)
            requires
                x == s * pow2(eo),
                s > 0,
                pow2(eo) > 0,
        ;
        lemma_fundamental_div_mod_converse(x as int, pow2(eo) as int, s as int, 0);
        assert(nearest(x, pow2(eo)) == s);
        assert(1 * pow2(eo) == pow2(eo));
        if s >= w {
            lemma_pow2_adds(p1, eo);
            lemma_pow2_unfold(p1 + 1);
            lemma_pow2_adds(p1 + 1, eo);
            assert(in_binade(x, 1, p1 + eo)) by (nonlinear_arith)
                requires
                    x == s * pow2(eo),
                    w <= s < 2 * w,
                    pow2(p1 + eo) == w * pow2(eo),
                    pow2(p1 + eo + 1) == 2 * w * pow2(eo),
                    pow2(eo) > 0,
            ;
            lemma_binade(x, 1, p1 + eo);
        } else {
            assert(exponent(f, m) == f.least);
            lemma_some_binade(x);
            let k = binade(x, 1);
            lemma_pow2_adds(p1, eo);
            if k >= p1 + eo {
                lemma_pow2_le(p1 + eo, k);
                assert(false) by (nonlinear_arith)
                    requires
                        x == s * pow2(eo),
                        s < w,
                        pow2(p1 + eo) == w * pow2(eo),
                        pow2(p1 + eo) <= pow2(k) <= x,
                        pow2(eo) > 0,
                ;
            }
        }
        assert(last_place(f, x, 1) == eo);
        assert(magnitude(f, x, 1) == m);
    }
}

/// A positive integer is in some binade.
proof fn lemma_some_binade(x: nat)
    requires
        x > 0,
    ensures
        in_binade(x, 1, binade(x, 1)),
{
    let k = lemma_find_binade(x);
    assert(in_binade(x, 1, k));
}

pub proof fn lemma_find_binade(x: nat) -> (k: nat)
    requires
        x > 0,
    ensures
        in_binade(x, 1, k),
    decreases x,
{
    lemma_pow2_126();
    if x == 1 {
        0
    } else {
        let j = lemma_find_binade(x / 2);
        lemma_pow2_unfold(j + 1);
        lemma_pow2_unfold(j + 2);
        j + 1
    }
}

fn binary64() -> (r: Format)
    ensures
        r == double(),
        r.wf(),
{
    Format { precision: 53, least: -1074, infinity: 0x7ff0_0000_0000_0000 }
}

/// The significand and the exponent of a binary64 without its sign.
fn split(m: u64) -> (r: (u64, i32))
    requires
        m < INFINITY,
    ensures
        r.0 == significand(double(), m as nat),
        r.1 == exponent(double(), m as nat),
        r.0 < 0x20_0000_0000_0000,
        -1074 <= r.1 <= 971,
        r.1 > -1074 ==> r.0 >= 0x10_0000_0000_0000,
{
    proof {
        lemma_pow2_126();
    }
    let e = m / 0x10_0000_0000_0000;
    let low = m % 0x10_0000_0000_0000;
    if e == 0 {
        (low, -1074)
    } else {
        (low + 0x10_0000_0000_0000, e as i32 - 1075)
    }
}

fn without_sign(b: u64) -> (r: u64)
    ensures
        r == unsigned_bits(b),
{
    if b >= SIGN {
        b - SIGN
    } else {
        b
    }
}

fn sign_bits(negative: bool, m: u64) -> (r: u64)
    requires
        m < SIGN,
    ensures
        r == with_sign(negative, m as nat),
{
    if negative {
        m + SIGN
    } else {
        m
    }
}

/// A whole number of last places stands for itself.
proof fn lemma_exact(n: u128, e: i32, x: nat, d: nat)
    requires
        d > 0,
        -3000 <= e <= 3000,
        x == n * (d * pow2((e + SCALE) as nat)),
    ensures
        stands_for(n, e, true, x, d),
{
    let b = d * pow2((e + SCALE) as nat);
    lemma_pow2_pos((e + SCALE) as nat);
    assert(b > 0) by (nonlinear_arith)
        requires
            b == d * pow2((e + SCALE) as nat),
            d > 0,
            pow2((e + SCALE) as nat) > 0,
    ;
    lemma_fundamental_div_mod_converse(x as int, b as int, n as int, 0);
}

/// Rounds a number without a sign to binary64.
fn round64(n: u128, e: i32, exact: bool, Ghost(x): Ghost<nat>, Ghost(d): Ghost<nat>) -> (r: u64)
    requires
        -3000 <= e <= 3000,
        0 < n < pow2(126),
        d > 0,
        stands_for(n, e, exact, x, d),
        !exact ==> n >= 0x20_0000_0000_0000,
    ensures
        r == magnitude(double(), x, d),
        r <= INFINITY,
{
    proof {
        lemma_pow2_126();
    }
    round_to(&binary64(), n, e, exact, Ghost(x), Ghost(d)) as u64
}

// ── Products ────────────────────────────────────────────────────────────────

/// The product of two numbers.
pub open spec fn product(a: u64, b: u64) -> u64 {
    let x = value(double(), unsigned_bits(a) as nat);
    let y = value(double(), unsigned_bits(b) as nat);
    let neg = negative(a) != negative(b);
    if not_a_number(a) || not_a_number(b) {
        QUIET_NAN
    } else if infinite(a) || infinite(b) {
        if unsigned_bits(a) == 0 || unsigned_bits(b) == 0 {
            QUIET_NAN
        } else {
            with_sign(neg, INFINITY as nat)
        }
    } else {
        with_sign(neg, magnitude(double(), x * y, pow2(SCALE as nat)))
    }
}

pub proof fn lemma_zero_value(m: nat)
    ensures
        significand(double(), m) == 0 ==> value(double(), m) == 0,
{
    assert(0 * pow2((exponent(double(), m) + SCALE) as nat) == 0) by (nonlinear_arith);
}

/// Multiplies two numbers.
pub fn multiply(a: u64, b: u64) -> (r: u64)
    ensures
        r == product(a, b),
{
    let ma = without_sign(a);
    let mb = without_sign(b);
    if ma > INFINITY || mb > INFINITY {
        return QUIET_NAN;
    }
    let neg = (a >= SIGN) != (b >= SIGN);
    if ma == INFINITY || mb == INFINITY {
        if ma == 0 || mb == 0 {
            return QUIET_NAN;
        }
        return sign_bits(neg, INFINITY);
    }
    let (sa, ea) = split(ma);
    let (sb, eb) = split(mb);
    let ghost x = value(double(), ma as nat);
    let ghost y = value(double(), mb as nat);
    if sa == 0 || sb == 0 {
        proof {
            lemma_zero_value(ma as nat);
            lemma_zero_value(mb as nat);
            assert(x * y == 0) by (nonlinear_arith)
                requires
                    x == 0 || y == 0,
            ;
        }
        return sign_bits(neg, 0);
    }
    proof {
        lemma_pow2_126();
        assert(0 < sa * sb < 0x400_0000_0000_0000_0000_0000_0000) by (nonlinear_arith)
            requires
                0 < sa < 0x20_0000_0000_0000,
                0 < sb < 0x20_0000_0000_0000,
        ;
    }
    let n: u128 = sa as u128 * sb as u128;
    let e: i32 = ea + eb;
    proof {
        let u = pow2(SCALE as nat);
        let pa = pow2((ea + SCALE) as nat);
        let pb = pow2((eb + SCALE) as nat);
        let pe = pow2((e + SCALE) as nat);
        lemma_pow2_adds((ea + SCALE) as nat, (eb + SCALE) as nat);
        lemma_pow2_adds(SCALE as nat, (e + SCALE) as nat);
        lemma_pow2_pos(SCALE as nat);
        assert(x * y == n * (u * pe)) by (nonlinear_arith)
            requires
                x == sa * pa,
                y == sb * pb,
                n == sa * sb,
                pa * pb == u * pe,
        ;
        lemma_exact(n, e, x * y, u);
    }
    sign_bits(neg, round64(n, e, true, Ghost(x * y), Ghost(pow2(SCALE as nat))))
}

// ── Quotients ───────────────────────────────────────────────────────────────

/// The quotient of two numbers.
pub open spec fn quotient(a: u64, b: u64) -> u64 {
    let x = value(double(), unsigned_bits(a) as nat);
    let y = value(double(), unsigned_bits(b) as nat);
    let neg = negative(a) != negative(b);
    if not_a_number(a) || not_a_number(b) {
        QUIET_NAN
    } else if infinite(a) {
        if infinite(b) {
            QUIET_NAN
        } else {
            with_sign(neg, INFINITY as nat)
        }
    } else if infinite(b) {
        with_sign(neg, 0)
    } else if unsigned_bits(b) == 0 {
        if unsigned_bits(a) == 0 {
            QUIET_NAN
        } else {
            with_sign(neg, INFINITY as nat)
        }
    } else {
        with_sign(neg, magnitude(double(), x * pow2(SCALE as nat), y))
    }
}

/// The same value with a significand of 53 bits.
fn normalize(s: u64, e: i32) -> (r: (u64, i32))
    requires
        0 < s < 0x20_0000_0000_0000,
        -1074 <= e <= 971,
    ensures
        0x10_0000_0000_0000 <= r.0 < 0x20_0000_0000_0000,
        -1200 <= r.1 <= e,
        r.0 * pow2((r.1 + SCALE) as nat) == s * pow2((e + SCALE) as nat),
{
    let mut t: u64 = s;
    let mut x: i32 = e;
    let mut k: i32 = 0;
    proof {
        lemma_pow2_126();
    }
    while t < 0x10_0000_0000_0000
        invariant
            0 < t < 0x20_0000_0000_0000,
            t >= pow2(k as nat),
            x == e - k,
            0 <= k <= 53,
            -1074 <= e <= 971,
            t * pow2((x + SCALE) as nat) == s * pow2((e + SCALE) as nat),
        decreases 0x20_0000_0000_0000 - t,
    {
        proof {
            lemma_pow2_126();
            lemma_pow2_unfold((x + SCALE) as nat);
            lemma_pow2_unfold((k + 1) as nat);
            if k >= 52 {
                lemma_pow2_le(52, k as nat);
            }
            let half = pow2((x - 1 + SCALE) as nat);
            assert((2 * t) * half == t * (2 * half)) by (nonlinear_arith);
        }
        t = 2 * t;
        x = x - 1;
        k = k + 1;
    }
    (t, x)
}

/// Divides two numbers.
pub fn divide(a: u64, b: u64) -> (r: u64)
    ensures
        r == quotient(a, b),
{
    let ma = without_sign(a);
    let mb = without_sign(b);
    if ma > INFINITY || mb > INFINITY {
        return QUIET_NAN;
    }
    let neg = (a >= SIGN) != (b >= SIGN);
    if ma == INFINITY {
        if mb == INFINITY {
            return QUIET_NAN;
        }
        return sign_bits(neg, INFINITY);
    }
    if mb == INFINITY {
        return sign_bits(neg, 0);
    }
    if mb == 0 {
        if ma == 0 {
            return QUIET_NAN;
        }
        return sign_bits(neg, INFINITY);
    }
    let (s0, e0) = split(ma);
    let (sb, eb) = split(mb);
    let ghost u = pow2(SCALE as nat);
    let ghost x = value(double(), ma as nat) * u;
    let ghost y = value(double(), mb as nat);
    proof {
        lemma_bits(double(), mb as nat);
        lemma_bits(double(), ma as nat);
        lemma_pow2_126();
    }
    if s0 == 0 {
        proof {
            lemma_zero_value(ma as nat);
            assert(0 * u == 0) by (nonlinear_arith);
        }
        return sign_bits(neg, 0);
    }
    let (sa, ea) = normalize(s0, e0);
    let top: u128 = sa as u128 * 0x1_0000_0000_0000_0000;
    assert(sb > 0) by {
        if sb == 0 {
            assert((eb + 1074) * 0x10_0000_0000_0000 == 0) by (nonlinear_arith)
                requires
                    eb == -1074,
            ;
        }
    }
    let n: u128 = top / sb as u128;
    let exact = top % sb as u128 == 0;
    let e: i32 = ea - eb - 64;
    proof {
        let p = pow2((ea - 64 + 2 * SCALE) as nat);
        let pa = pow2((ea + SCALE) as nat);
        let pb = pow2((eb + SCALE) as nat);
        let pe = pow2((e + SCALE) as nat);
        lemma_pow2_adds((eb + SCALE) as nat, (e + SCALE) as nat);
        lemma_pow2_adds((ea - 64 + 2 * SCALE) as nat, 64);
        lemma_pow2_adds((ea + SCALE) as nat, SCALE as nat);
        lemma_pow2_pos((ea - 64 + 2 * SCALE) as nat);
        lemma_pow2_pos((eb + SCALE) as nat);
        assert(x == p * top) by (nonlinear_arith)
            requires
                x == (sa * pa) * u,
                pa * u == p * 0x1_0000_0000_0000_0000,
                top == sa * 0x1_0000_0000_0000_0000,
        ;
        assert(y * pe == p * sb) by (nonlinear_arith)
            requires
                y == sb * pb,
                pb * pe == p,
        ;
        lemma_div_multiples_vanish_quotient(p as int, top as int, sb as int);
        lemma_fundamental_div_mod(top as int, sb as int);
        let r = top % sb as u128;
        assert(x == (p * sb) * n + p * r) by (nonlinear_arith)
            requires
                x == p * top,
                top == sb * n + r,
        ;
        assert(0 <= p * r < p * sb) by (nonlinear_arith)
            requires
                0 <= r < sb,
                p > 0,
        ;
        assert((p * sb) * n == n * (p * sb)) by (nonlinear_arith);
        lemma_fundamental_div_mod_converse(x as int, p * sb, n as int, p * r);
        assert((p * r == 0) == (r == 0)) by (nonlinear_arith)
            requires
                p > 0,
                0 <= r,
        ;
        assert(y > 0 && p * sb > 0) by (nonlinear_arith)
            requires
                y == sb * pb,
                sb > 0,
                pb > 0,
                p > 0,
        ;
        assert(stands_for(n, e, exact, x, y));
        assert(n >= 0x8000_0000_0000_0000) by (nonlinear_arith)
            requires
                top == sb * n + r,
                0 <= r < sb,
                0 < sb <= 0x20_0000_0000_0000,
                top >= 0x10_0000_0000_0000 * 0x1_0000_0000_0000_0000,
        ;
        assert(n <= top) by (nonlinear_arith)
            requires
                top == sb * n + r,
                0 <= r,
                sb > 0,
        ;
    }
    sign_bits(neg, round64(n, e, exact, Ghost(x), Ghost(y)))
}

// ── Sums ────────────────────────────────────────────────────────────────────

pub open spec fn absolute(x: int) -> nat {
    if x < 0 {
        (-x) as nat
    } else {
        x as nat
    }
}

/// The sum of two numbers. A sum that is zero is positive, unless both are
/// negative zeros.
pub open spec fn sum(a: u64, b: u64) -> u64 {
    let s = signed_value(a) + signed_value(b);
    if not_a_number(a) || not_a_number(b) {
        QUIET_NAN
    } else if infinite(a) {
        if infinite(b) && negative(a) != negative(b) {
            QUIET_NAN
        } else {
            a
        }
    } else if infinite(b) {
        b
    } else if s == 0 {
        with_sign(negative(a) && negative(b), 0)
    } else {
        with_sign(s < 0, magnitude(double(), absolute(s), 1))
    }
}

/// The same number with the other sign.
pub open spec fn negated(b: u64) -> u64 {
    if b >= SIGN {
        (b - SIGN) as u64
    } else {
        (b + SIGN) as u64
    }
}

/// The difference of two numbers.
pub open spec fn difference(a: u64, b: u64) -> u64 {
    sum(a, negated(b))
}

/// A number that is far smaller than another does not change it.
#[verifier::rlimit(40)]
proof fn lemma_far(m: nat, ea: int, sa: nat, v: nat, minus: bool)
    requires
        m < INFINITY,
        ea == exponent(double(), m),
        sa == significand(double(), m),
        ea >= -1074 + 60,
        128 * v < pow2((ea + SCALE) as nat),
    ensures
        ({
            let x = value(double(), m);
            x > v && magnitude(
                double(),
                if minus {
                    (x - v) as nat
                } else {
                    x + v
                },
                1,
            ) == m
        }),
{
    let f = double();
    let eo = (ea + SCALE) as nat;
    let p = pow2(eo);
    let x = value(f, m);
    lemma_pow2_126();
    lemma_bits(f, m);
    lemma_pow2_pos(eo);
    lemma_pow2_adds(52, eo);
    lemma_pow2_adds(53, eo);
    assert(x == sa * p);
    assert(x >= 0x10_0000_0000_0000 * p && x + p <= 0x20_0000_0000_0000 * p) by (nonlinear_arith)
        requires
            x == sa * p,
            0x10_0000_0000_0000 <= sa,
            sa + 1 <= 0x20_0000_0000_0000,
            p > 0,
    ;
    assert(1 * p == p);
    if !minus {
        let y = x + v;
        assert(in_binade(y, 1, 52 + eo));
        lemma_binade(y, 1, 52 + eo);
        assert(y == sa * p + v);
        lemma_fundamental_div_mod_converse(y as int, p as int, sa as int, v as int);
        assert(nearest(y, p) == sa);
        assert(last_place(f, y, 1) == eo);
    } else if v == 0 {
        law_numbers_are_not_rounded(f, m);
    } else if sa > 0x10_0000_0000_0000 {
        let y = (x - v) as nat;
        assert(y >= 0x10_0000_0000_0000 * p) by (nonlinear_arith)
            requires
                y == sa * p - v,
                sa >= 0x10_0000_0000_0000 + 1,
                v < p,
        ;
        assert(in_binade(y, 1, 52 + eo));
        lemma_binade(y, 1, 52 + eo);
        assert(y == (sa - 1) * p + (p - v)) by (nonlinear_arith)
            requires
                y == sa * p - v,
        ;
        lemma_fundamental_div_mod_converse(y as int, p as int, sa - 1, p - v);
        assert(nearest(y, p) == sa);
        assert(last_place(f, y, 1) == eo);
    } else {
        let y = (x - v) as nat;
        let eh = (eo - 1) as nat;
        let h = pow2(eh);
        lemma_pow2_unfold(eo);
        lemma_pow2_adds(52, eh);
        lemma_pow2_adds(53, eh);
        assert(y == 0x20_0000_0000_0000 * h - v);
        assert(in_binade(y, 1, 52 + eh));
        lemma_binade(y, 1, 52 + eh);
        assert(y == (0x20_0000_0000_0000 - 1) * h + (h - v));
        lemma_fundamental_div_mod_converse(
            y as int,
            h as int,
            0x20_0000_0000_0000 - 1,
            h - v,
        );
        assert(nearest(y, h) == 0x20_0000_0000_0000);
        assert(1 * h == h);
        assert(last_place(f, y, 1) == eh);
        assert((ea - 1 + 1074) * 0x10_0000_0000_0000 + 0x20_0000_0000_0000 == (ea + 1074)
            * 0x10_0000_0000_0000 + 0x10_0000_0000_0000) by (nonlinear_arith);
    }
}

/// Adds two numbers without signs, the first with the greater exponent; `minus`
/// says to subtract the second. Gives the sign and the bits of the result, and
/// whether it is zero before rounding.
#[verifier::rlimit(40)]
fn combine(ma: u64, mb: u64, minus: bool) -> (r: (bool, u64, bool))
    requires
        ma < INFINITY,
        mb < INFINITY,
        exponent(double(), ma as nat) >= exponent(double(), mb as nat),
    ensures
        ({
            let x = value(double(), ma as nat);
            let y = value(double(), mb as nat);
            let s = if minus {
                x - y
            } else {
                (x + y) as int
            };
            &&& r.0 == (s < 0)
            &&& r.1 == magnitude(double(), absolute(s), 1)
            &&& r.1 <= INFINITY
            &&& r.2 == (s == 0)
        }),
{
    let (sa, ea) = split(ma);
    let (sb, eb) = split(mb);
    let gap: i32 = ea - eb;
    let ghost x = value(double(), ma as nat);
    let ghost y = value(double(), mb as nat);
    let ghost u = pow2((eb + SCALE) as nat);
    let ghost up = pow2(gap as nat);
    proof {
        lemma_pow2_126();
        lemma_pow2_adds((eb + SCALE) as nat, gap as nat);
        lemma_pow2_pos((eb + SCALE) as nat);
        lemma_pow2_pos(gap as nat);
    }
    if gap >= 60 {
        proof {
            lemma_pow2_le(60, gap as nat);
            lemma_pow2_adds(53, 7);
            lemma2_to64();
            assert(128 * y < pow2((ea + SCALE) as nat)) by (nonlinear_arith)
                requires
                    y == sb * u,
                    sb < 0x20_0000_0000_0000,
                    pow2((ea + SCALE) as nat) == u * up,
                    up >= 0x20_0000_0000_0000 * 128,
                    u > 0,
            ;
            lemma_far(ma as nat, ea as int, sa as nat, y, minus);
        }
        return (false, ma, false);
    }
    proof {
        lemma_pow2_le(gap as nat, 62);
        assert(sa * up < 0x20_0000_0000_0000 * 0x4000_0000_0000_0000) by (nonlinear_arith)
            requires
                sa < 0x20_0000_0000_0000,
                0 < up <= 0x4000_0000_0000_0000,
        ;
        assert(x == (sa * up) * u) by (nonlinear_arith)
            requires
                x == sa * pow2((ea + SCALE) as nat),
                pow2((ea + SCALE) as nat) == u * up,
        ;
    }
    let na: u128 = sa as u128 * power(gap as u32);
    let nb: u128 = sb as u128;
    let neg = minus && na < nb;
    let n: u128 = if !minus {
        na + nb
    } else if na < nb {
        nb - na
    } else {
        na - nb
    };
    let ghost s = if minus {
        x - y
    } else {
        (x + y) as int
    };
    proof {
        assert(absolute(s) == n * u && neg == (s < 0) && (n == 0) == (s == 0)) by {
            assert(x - y == (na - nb) * u && x + y == (na + nb) * u) by (nonlinear_arith)
                requires
                    x == na * u,
                    y == nb * u,
            ;
            assert((na - nb) * u < 0 <==> na < nb) by (nonlinear_arith)
                requires
                    u > 0,
            ;
            assert(-((na - nb) * u) == (nb - na) * u) by (nonlinear_arith);
            assert(n * u == 0 <==> n == 0) by (nonlinear_arith)
                requires
                    u > 0,
            ;
        }
    }
    if n == 0 {
        return (false, 0, true);
    }
    proof {
        assert(n * (1 * u) == n * u);
        lemma_exact(n, eb, absolute(s), 1);
    }
    (neg, round64(n, eb, true, Ghost(absolute(s)), Ghost(1nat)), false)
}

/// Adds two numbers.
pub fn plus(a: u64, b: u64) -> (r: u64)
    ensures
        r == sum(a, b),
{
    let ma = without_sign(a);
    let mb = without_sign(b);
    let na = a >= SIGN;
    let nb = b >= SIGN;
    if ma > INFINITY || mb > INFINITY {
        return QUIET_NAN;
    }
    if ma == INFINITY {
        if mb == INFINITY && na != nb {
            return QUIET_NAN;
        }
        return a;
    }
    if mb == INFINITY {
        return b;
    }
    let (_, ea) = split(ma);
    let (_, eb) = split(mb);
    let (swapped, m, zero) = if ea >= eb {
        let (less, m, zero) = combine(ma, mb, na != nb);
        (na != less, m, zero)
    } else {
        let (less, m, zero) = combine(mb, ma, na != nb);
        (nb != less, m, zero)
    };
    if zero {
        return sign_bits(na && nb, 0);
    }
    sign_bits(swapped, m)
}

/// Changes the sign of a number.
pub fn negate(b: u64) -> (r: u64)
    ensures
        r == negated(b),
{
    if b >= SIGN {
        b - SIGN
    } else {
        b + SIGN
    }
}

/// Subtracts a number from another.
pub fn minus(a: u64, b: u64) -> (r: u64)
    ensures
        r == difference(a, b),
{
    plus(a, negate(b))
}

// ── Order ───────────────────────────────────────────────────────────────────

/// A number by which binary64 numbers are ordered.
pub open spec fn rank(b: u64) -> int {
    if b >= SIGN {
        -(b - SIGN)
    } else {
        b as int
    }
}

/// Is the first number less than the second? A NaN is neither less nor more than
/// anything.
pub open spec fn less(a: u64, b: u64) -> bool {
    !not_a_number(a) && !not_a_number(b) && rank(a) < rank(b)
}

/// Are the numbers equal? Zeros are, whatever their sign, and a NaN is not even
/// equal to itself.
pub open spec fn equal(a: u64, b: u64) -> bool {
    !not_a_number(a) && !not_a_number(b) && rank(a) == rank(b)
}

fn rank_of(b: u64) -> (r: i128)
    ensures
        r == rank(b),
{
    if b >= SIGN {
        0 - (b - SIGN) as i128
    } else {
        b as i128
    }
}

/// Is the first number less than the second?
pub fn is_less(a: u64, b: u64) -> (r: bool)
    ensures
        r == less(a, b),
{
    without_sign(a) <= INFINITY && without_sign(b) <= INFINITY && rank_of(a) < rank_of(b)
}

/// Are the numbers equal?
pub fn is_equal(a: u64, b: u64) -> (r: bool)
    ensures
        r == equal(a, b),
{
    without_sign(a) <= INFINITY && without_sign(b) <= INFINITY && rank_of(a) == rank_of(b)
}

/// More bits mean a greater value.
proof fn lemma_value_grows(m: nat, n: nat)
    requires
        m < n,
    ensures
        value(double(), m) < value(double(), n),
{
    let f = double();
    let w = pow2(52);
    lemma_pow2_126();
    lemma_bits(f, m);
    lemma_bits(f, n);
    let em = (exponent(f, m) + SCALE) as nat;
    let en = (exponent(f, n) + SCALE) as nat;
    let sm = significand(f, m);
    let sn = significand(f, n);
    lemma_pow2_pos(em);
    if em == en {
        assert(sm * pow2(em) < sn * pow2(em)) by (nonlinear_arith)
            requires
                sm < sn,
                pow2(em) > 0,
        ;
    } else if em < en {
        lemma_pow2_le(em + 1, en);
        lemma_pow2_unfold(em + 1);
        assert(sm * pow2(em) < sn * pow2(en)) by (nonlinear_arith)
            requires
                sm < 2 * w,
                sn >= w,
                w > 0,
                pow2(en) >= 2 * pow2(em),
                pow2(em) > 0,
        ;
    } else {
        assert((em - en - 1) * w >= 0) by (nonlinear_arith)
            requires
                em >= en + 1,
                w > 0,
        ;
        assert((exponent(f, m) - f.least) * w == (exponent(f, n) - f.least) * w + (em - en) * w)
            by (nonlinear_arith)
            requires
                em - en == exponent(f, m) - exponent(f, n),
        ;
        assert((em - en) * w == (em - en - 1) * w + w) by (nonlinear_arith);
        assert(false);
    }
}

/// Finite numbers are ordered by their values.
pub proof fn law_order_is_that_of_values(a: u64, b: u64)
    requires
        unsigned_bits(a) < INFINITY,
        unsigned_bits(b) < INFINITY,
    ensures
        less(a, b) == (signed_value(a) < signed_value(b)),
        equal(a, b) == (signed_value(a) == signed_value(b)),
{
    let x = unsigned_bits(a) as nat;
    let y = unsigned_bits(b) as nat;
    if x < y {
        lemma_value_grows(x, y);
    }
    if y < x {
        lemma_value_grows(y, x);
    }
    assert(significand(double(), 0) == 0) by {
        lemma_pow2_126();
    }
    lemma_zero_value(0);
    if x > 0 {
        lemma_value_grows(0, x);
    }
    if y > 0 {
        lemma_value_grows(0, y);
    }
}

// ── Other formats ───────────────────────────────────────────────────────────

/// The bits of a binary32 without its sign.
pub open spec fn unsigned_single(b: u32) -> u32 {
    if b >= 0x8000_0000 {
        (b - 0x8000_0000) as u32
    } else {
        b
    }
}

/// A binary32 as a binary64.
pub open spec fn from_single(b: u32) -> u64 {
    let m = unsigned_single(b);
    if m > single().infinity {
        QUIET_NAN
    } else if m == single().infinity {
        with_sign(b >= 0x8000_0000, INFINITY as nat)
    } else {
        with_sign(b >= 0x8000_0000, magnitude(double(), value(single(), m as nat), 1))
    }
}

/// A binary64 rounded to binary32.
pub open spec fn to_single(b: u64) -> u32 {
    let m = if not_a_number(b) {
        0x7fc0_0000
    } else if infinite(b) {
        single().infinity as nat
    } else {
        magnitude(single(), value(double(), unsigned_bits(b) as nat), 1)
    };
    if negative(b) && !not_a_number(b) {
        (m + 0x8000_0000) as u32
    } else {
        m as u32
    }
}

/// A binary64 as a binary128.
pub open spec fn to_quad(b: u64) -> u128 {
    let m = if not_a_number(b) {
        0x7fff_8000_0000_0000_0000_0000_0000_0000
    } else if infinite(b) {
        quad().infinity as nat
    } else {
        magnitude(quad(), value(double(), unsigned_bits(b) as nat), 1)
    };
    if negative(b) && !not_a_number(b) {
        (m + 0x8000_0000_0000_0000_0000_0000_0000_0000) as u128
    } else {
        m as u128
    }
}

/// Rounds a number to a format, from its significand and exponent.
fn convert(f: &Format, s: u64, e: i32) -> (r: u128)
    requires
        f.wf(),
        -1200 <= e <= 1200,
        s < 0x20_0000_0000_0000,
    ensures
        r == magnitude(*f, s as nat * pow2((e + SCALE) as nat), 1),
        r <= f.infinity,
{
    let ghost x = s as nat * pow2((e + SCALE) as nat);
    if s == 0 {
        assert(x == 0) by (nonlinear_arith)
            requires
                x == 0 * pow2((e + SCALE) as nat),
        ;
        return 0;
    }
    proof {
        lemma_pow2_126();
        assert(1 * pow2((e + SCALE) as nat) == pow2((e + SCALE) as nat));
        lemma_exact(s as u128, e, x, 1);
    }
    round_to(f, s as u128, e, true, Ghost(x), Ghost(1nat))
}

/// Widens a binary32.
pub fn widen_single(b: u32) -> (r: u64)
    ensures
        r == from_single(b),
{
    let neg = b >= 0x8000_0000;
    let m: u32 = if neg {
        b - 0x8000_0000
    } else {
        b
    };
    if m > 0x7f80_0000 {
        return QUIET_NAN;
    }
    if m == 0x7f80_0000 {
        return sign_bits(neg, INFINITY);
    }
    proof {
        lemma_pow2_126();
    }
    let field = m / 0x80_0000;
    let low = m % 0x80_0000;
    let r = if field == 0 {
        convert(&binary64(), low as u64, -149)
    } else {
        convert(&binary64(), (low + 0x80_0000) as u64, field as i32 - 150)
    };
    sign_bits(neg, r as u64)
}

/// Rounds a binary64 to binary32.
pub fn narrow_to_single(b: u64) -> (r: u32)
    ensures
        r == to_single(b),
{
    let m = without_sign(b);
    if m > INFINITY {
        return 0x7fc0_0000;
    }
    let bits: u32 = if m == INFINITY {
        0x7f80_0000
    } else {
        let f = Format { precision: 24, least: -149, infinity: 0x7f80_0000 };
        let (s, e) = split(m);
        convert(&f, s, e) as u32
    };
    if b >= SIGN {
        bits + 0x8000_0000
    } else {
        bits
    }
}

/// Widens a binary64 to binary128.
pub fn widen_to_quad(b: u64) -> (r: u128)
    ensures
        r == to_quad(b),
{
    let m = without_sign(b);
    if m > INFINITY {
        return 0x7fff_8000_0000_0000_0000_0000_0000_0000;
    }
    let bits: u128 = if m == INFINITY {
        0x7fff_0000_0000_0000_0000_0000_0000_0000
    } else {
        let f = Format {
            precision: 113,
            least: -16494,
            infinity: 0x7fff_0000_0000_0000_0000_0000_0000_0000,
        };
        let (s, e) = split(m);
        convert(&f, s, e)
    };
    if b >= SIGN {
        bits + 0x8000_0000_0000_0000_0000_0000_0000_0000
    } else {
        bits
    }
}

} // verus!
