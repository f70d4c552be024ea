//! Single-precision arithmetic on integers.
//!
//! The procedural textures decide their shapes and shades by floats. A float
//! that is not negative is `m * 2^e` with a significand of 24 bits, and every
//! operation gives the float that is nearest to the exact result, the even one
//! of two. Infinities, subnormal numbers and numbers that are not numbers do not
//! come up in the textures.

use vstd::arithmetic::power2::{
    lemma2_to64, lemma2_to64_rest, lemma_pow2_adds, lemma_pow2_pos, lemma_pow2_strictly_increases,
    lemma_pow2_unfold, pow2,
};
use vstd::prelude::*;

verus! {

/// The number `m * 2^e`.
#[derive(Clone, Copy, Debug, PartialEq, Eq, Structural)]
pub struct Single {
    pub m: u32,
    pub e: i32,
}

/// A significand has 24 bits; zero has one form only.
pub open spec fn normal(s: Single) -> bool {
    (s.m == 0 && s.e == 0) || 0x80_0000 <= s.m <= 0x100_0000
}

/// The integer nearest to `p / q`, the even one of two.
pub open spec fn nearest(p: int, q: int) -> int {
    let d = p / q;
    let r = p % q;
    if 2 * r > q || (2 * r == q && d % 2 == 1) {
        d + 1
    } else {
        d
    }
}

/// `p / q * 2^e`, rounded once the quotient has at most 24 bits.
pub open spec fn rounded_down_to_bits(p: int, q: int, e: int) -> Single
    decreases p - q,
{
    if q > 0 && p >= 0x100_0000 * q {
        rounded_down_to_bits(p, 2 * q, e + 1)
    } else {
        Single { m: nearest(p, q) as u32, e: e as i32 }
    }
}

/// `p / q * 2^e`, rounded once the quotient has at least 24 bits.
pub open spec fn rounded_up_to_bits(p: int, q: int, e: int) -> Single
    decreases 0x100_0000 * q - p,
{
    if 0 < p < 0x80_0000 * q {
        rounded_up_to_bits(2 * p, q, e - 1)
    } else {
        Single { m: nearest(p, q) as u32, e: e as i32 }
    }
}

/// The single nearest to `p / q * 2^e`, for `p >= 0` and `q > 0`.
pub open spec fn rounded(p: int, q: int, e: int) -> Single {
    if p == 0 {
        Single { m: 0, e: 0 }
    } else if p >= 0x100_0000 * q {
        rounded_down_to_bits(p, q, e)
    } else {
        rounded_up_to_bits(p, q, e)
    }
}

/// The smaller of two exponents.
pub open spec fn lower(a: Single, b: Single) -> int {
    if a.e <= b.e {
        a.e as int
    } else {
        b.e as int
    }
}

/// The larger of two exponents.
pub open spec fn upper(a: Single, b: Single) -> int {
    if a.e <= b.e {
        b.e as int
    } else {
        a.e as int
    }
}

/// `s` in units of `2^e`.
pub open spec fn in_units(s: Single, e: int) -> int {
    s.m * pow2((s.e - e) as nat)
}

/// An integer as a single.
pub open spec fn of_int(n: int) -> Single {
    rounded(n, 1, 0)
}

/// `a / 2`.
pub open spec fn half(a: Single) -> Single {
    if a.m == 0 {
        a
    } else {
        Single { m: a.m, e: (a.e - 1) as i32 }
    }
}

/// `a + b`.
pub open spec fn sum(a: Single, b: Single) -> Single {
    rounded(in_units(a, lower(a, b)) + in_units(b, lower(a, b)), 1, lower(a, b))
}

/// The absolute value of `a - b`.
pub open spec fn gap(a: Single, b: Single) -> Single {
    let x = in_units(a, lower(a, b));
    let y = in_units(b, lower(a, b));
    rounded(
        if x >= y {
            x - y
        } else {
            y - x
        },
        1,
        lower(a, b),
    )
}

/// `a * b`.
pub open spec fn product(a: Single, b: Single) -> Single {
    rounded(a.m * b.m, 1, a.e + b.e)
}

/// `a / b`.
pub open spec fn quotient(a: Single, b: Single) -> Single {
    rounded(a.m as int, b.m as int, a.e - b.e)
}

/// `a <= b`.
pub open spec fn at_most(a: Single, b: Single) -> bool {
    in_units(a, lower(a, b)) <= in_units(b, lower(a, b))
}

/// The whole part of `a`.
pub open spec fn whole_part(a: Single) -> int {
    if a.e >= 0 {
        in_units(a, 0)
    } else {
        a.m as int / pow2((-a.e) as nat) as int
    }
}

/// `a` as a byte: its whole part, at most 255.
pub open spec fn as_byte(a: Single) -> u8 {
    if whole_part(a) >= 255 {
        255
    } else {
        whole_part(a) as u8
    }
}

proof fn lemma_large_powers()
    ensures
        pow2(96) == 0x1_0000_0000_0000_0000_0000_0000,
        pow2(98) == 0x4_0000_0000_0000_0000_0000_0000,
        pow2(120) == 0x100_0000_0000_0000_0000_0000_0000_0000,
{
    lemma2_to64();
    lemma2_to64_rest();
    lemma_pow2_adds(64, 32);
    lemma_pow2_adds(64, 34);
    lemma_pow2_adds(64, 56);
}

/// Rounding keeps within bounds.
proof fn lemma_nearest(p: int, q: int, lo: int, hi: int)
    requires
        q > 0,
        lo * q <= p < hi * q,
    ensures
        lo <= nearest(p, q) <= hi,
{
    vstd::arithmetic::div_mod::lemma_fundamental_div_mod(p, q);
    vstd::arithmetic::div_mod::lemma_mod_bound(p, q);
    let d = p / q;
    let r = p % q;
    assert(lo <= d < hi) by (nonlinear_arith)
        requires
            q > 0,
            lo * q <= p < hi * q,
            p == q * d + r,
            0 <= r < q,
    ;
}

/// How far the exponent rises.
proof fn lemma_down(p: int, q: int, e: int, k: nat)
    requires
        q > 0,
        0x100_0000 * q <= p < 0x100_0000 * q * pow2(k),
        -1000 <= e,
        e + k <= 1000,
    ensures
        0x80_0000 <= rounded_down_to_bits(p, q, e).m <= 0x100_0000,
        e <= rounded_down_to_bits(p, q, e).e <= e + k,
    decreases k,
{
    if k == 0 {
        lemma2_to64();
        assert(false);
    }
    if p >= 0x100_0000 * (2 * q) {
        lemma_pow2_unfold(k);
        let f = pow2((k - 1) as nat);
        assert(0x100_0000 * q * (2 * f) == 0x100_0000 * (2 * q) * f) by (nonlinear_arith);
        lemma_down(p, 2 * q, e + 1, (k - 1) as nat);
    } else {
        lemma_nearest(p, 2 * q, 0x80_0000, 0x100_0000);
        assert(rounded_down_to_bits(p, q, e) == rounded_down_to_bits(p, 2 * q, e + 1));
    }
}

/// How far the exponent falls at most.
proof fn lemma_up(p: int, q: int, e: int, k: nat)
    requires
        q > 0,
        0 < p < 0x100_0000 * q,
        0x80_0000 * q <= p * pow2(k),
        -1000 <= e - k,
        e <= 1000,
    ensures
        0x80_0000 <= rounded_up_to_bits(p, q, e).m <= 0x100_0000,
        e - k <= rounded_up_to_bits(p, q, e).e <= e,
    decreases k,
{
    if p < 0x80_0000 * q {
        if k == 0 {
            lemma2_to64();
            assert(false);
        }
        lemma_pow2_unfold(k);
        let f = pow2((k - 1) as nat);
        assert(p * (2 * f) == 2 * p * f) by (nonlinear_arith);
        lemma_up(2 * p, q, e - 1, (k - 1) as nat);
    } else {
        lemma_nearest(p, q, 0x80_0000, 0x100_0000);
    }
}

/// How far the exponent falls at least.
proof fn lemma_up_at_least(p: int, q: int, e: int, k: nat, j: nat)
    requires
        q > 0,
        0 < p,
        p * pow2(j) < 0x100_0000 * q,
        0x80_0000 * q <= p * pow2(k),
        -1000 <= e - k,
        e <= 1000,
    ensures
        rounded_up_to_bits(p, q, e).e <= e - j,
    decreases j,
{
    lemma2_to64();
    if j == 0 {
        assert(p * pow2(j) == p) by (nonlinear_arith)
            requires
                pow2(j) == 1,
        ;
        lemma_up(p, q, e, k);
    } else {
        lemma_pow2_unfold(j);
        let f = pow2((j - 1) as nat);
        lemma_pow2_pos((j - 1) as nat);
        assert(p * pow2(j) == 2 * p * f && 2 * p <= 2 * p * f) by (nonlinear_arith)
            requires
                p > 0,
                f >= 1,
                pow2(j) == 2 * f,
        ;
        if k == 0 {
            assert(p * pow2(k) == p) by (nonlinear_arith)
                requires
                    pow2(k) == 1,
            ;
        }
        lemma_pow2_unfold(k);
        let g = pow2((k - 1) as nat);
        assert(p * (2 * g) == 2 * p * g) by (nonlinear_arith);
        lemma_up_at_least(2 * p, q, e - 1, (k - 1) as nat, (j - 1) as nat);
    }
}

/// Rounds `p / q * 2^e`.
fn round(p: u128, q: u128, e: i32) -> (s: Single)
    requires
        0 < q <= 0x100_0000,
        p < 0x400_0000_0000_0000_0000_0000_0000_0000,
        -400 <= e <= 400,
    ensures
        s == rounded(p as int, q as int, e as int),
        normal(s),
{
    if p == 0 {
        return Single { m: 0, e: 0 };
    }
    let mut p: u128 = p;
    let mut q: u128 = q;
    let mut e: i32 = e;
    let ghost p0 = p as int;
    let ghost q0 = q as int;
    let ghost e0 = e as int;
    let ghost mut steps: nat = 0;
    proof {
        lemma2_to64();
        lemma2_to64_rest();
        lemma_large_powers();
    }
    if p >= 0x100_0000 * q {
        while p >= 0x100_0000 * q
            invariant
                0 < q <= 0x8_0000_0000_0000_0000_0000_0000,
                0x80_0000 * q <= p,
                p < 0x400_0000_0000_0000_0000_0000_0000_0000,
                q >= pow2(steps),
                steps <= 98,
                e == e0 + steps,
                -400 <= e0 <= 400,
                pow2(98) == 0x4_0000_0000_0000_0000_0000_0000,
                rounded_down_to_bits(p as int, q as int, e as int) == rounded_down_to_bits(
                    p0,
                    q0,
                    e0,
                ),
            decreases p - q,
        {
            proof {
                if steps >= 98 {
                    assert(steps == 98);
                }
                lemma_pow2_unfold(steps + 1);
                steps = steps + 1;
            }
            q = 2 * q;
            e = e + 1;
        }
    } else {
        while p < 0x80_0000 * q
            invariant
                0 < q <= 0x100_0000,
                0 < p < 0x100_0000 * q,
                p >= pow2(steps),
                steps <= 48,
                e == e0 - steps,
                -400 <= e0 <= 400,
                pow2(48) == 0x1_0000_0000_0000,
                rounded_up_to_bits(p as int, q as int, e as int) == rounded_up_to_bits(p0, q0, e0),
            decreases 0x100_0000 * q - p,
        {
            proof {
                if steps >= 48 {
                    assert(steps == 48);
                }
                lemma_pow2_unfold(steps + 1);
                steps = steps + 1;
            }
            p = 2 * p;
            e = e - 1;
        }
    }
    proof {
        lemma_nearest(p as int, q as int, 0x80_0000, 0x100_0000);
        vstd::arithmetic::div_mod::lemma_mod_bound(p as int, q as int);
    }
    let d: u128 = p / q;
    let r: u128 = p % q;
    let m: u128 = if 2 * r > q || (2 * r == q && d % 2 == 1) {
        d + 1
    } else {
        d
    };
    Single { m: m as u32, e }
}

/// `m * 2^by`.
fn shifted(m: u32, by: u32) -> (r: u128)
    requires
        m <= 0x100_0000,
        by <= 96,
    ensures
        r == m * pow2(by as nat),
        r <= 0x100_0000_0000_0000_0000_0000_0000_0000,
{
    proof {
        lemma2_to64();
        lemma_large_powers();
    }
    let mut r: u128 = m as u128;
    let mut i: u32 = 0;
    assert(m * pow2(0) == m);
    while i < by
        invariant
            i <= by <= 96,
            m <= 0x100_0000,
            r == m * pow2(i as nat),
            pow2(96) == 0x1_0000_0000_0000_0000_0000_0000,
            r <= 0x100_0000_0000_0000_0000_0000_0000_0000,
        decreases by - i,
    {
        proof {
            lemma_pow2_unfold((i + 1) as nat);
            if i + 1 < 96 {
                lemma_pow2_strictly_increases((i + 1) as nat, 96);
            }
            let f = pow2(i as nat);
            let g = pow2((i + 1) as nat);
            assert(m * g == 2 * (m * f) && m * g <= 0x100_0000
                * 0x1_0000_0000_0000_0000_0000_0000) by (nonlinear_arith)
                requires
                    g == 2 * f,
                    0 <= m <= 0x100_0000,
                    0 <= g <= 0x1_0000_0000_0000_0000_0000_0000,
            ;
        }
        r = 2 * r;
        i += 1;
    }
    r
}

/// Two numbers in units of the smaller exponent.
fn in_common_units(a: Single, b: Single) -> (units: (u128, u128, i32))
    requires
        normal(a),
        normal(b),
        -200 <= a.e <= 200,
        -200 <= b.e <= 200,
        upper(a, b) - lower(a, b) <= 96,
    ensures
        units.2 == lower(a, b),
        units.0 == in_units(a, lower(a, b)),
        units.1 == in_units(b, lower(a, b)),
        units.0 <= 0x100_0000 * pow2((upper(a, b) - lower(a, b)) as nat),
        units.1 <= 0x100_0000 * pow2((upper(a, b) - lower(a, b)) as nat),
        a.m > 0 ==> units.0 >= 0x80_0000,
        b.m > 0 ==> units.1 >= 0x80_0000,
        a.m == 0 ==> units.0 == 0,
        b.m == 0 ==> units.1 == 0,
        units.0 <= 0x100_0000_0000_0000_0000_0000_0000_0000,
        units.1 <= 0x100_0000_0000_0000_0000_0000_0000_0000,
{
    let e: i32 = if a.e <= b.e {
        a.e
    } else {
        b.e
    };
    let x: u128 = shifted(a.m, (a.e - e) as u32);
    let y: u128 = shifted(b.m, (b.e - e) as u32);
    proof {
        lemma2_to64();
        let h = (upper(a, b) - lower(a, b)) as nat;
        let f = pow2((a.e - e) as nat);
        let g = pow2((b.e - e) as nat);
        let top = pow2(h);
        if h > 0 {
            lemma_pow2_strictly_increases(0, h);
        }
        assert(1 <= f <= top && 1 <= g <= top);
        lemma_shift_bounds(a.m as int, f as int, top as int);
        lemma_shift_bounds(b.m as int, g as int, top as int);
    }
    (x, y, e)
}

proof fn lemma_shift_bounds(m: int, f: int, top: int)
    requires
        0 <= m <= 0x100_0000,
        1 <= f <= top,
    ensures
        m <= m * f <= 0x100_0000 * top,
        m == 0 ==> m * f == 0,
{
    assert(m <= m * f <= 0x100_0000 * top) by (nonlinear_arith)
        requires
            0 <= m <= 0x100_0000,
            1 <= f <= top,
    ;
}

/// An integer as a single.
pub fn single_of(n: u32) -> (s: Single)
    ensures
        s == of_int(n as int),
        normal(s),
        -23 <= s.e <= 8,
        n > 0 ==> s.m > 0,
{
    proof {
        lemma2_to64();
        if n >= 0x100_0000 {
            lemma_down(n as int, 1, 0, 8);
        } else if n > 0 {
            assert(n * pow2(23) >= 0x80_0000) by (nonlinear_arith)
                requires
                    pow2(23) == 0x80_0000,
                    n >= 1,
            ;
            lemma_up(n as int, 1, 0, 23);
        }
    }
    round(n as u128, 1, 0)
}

/// `a / 2`.
pub fn halved(a: Single) -> (s: Single)
    requires
        normal(a),
        -200 <= a.e <= 200,
    ensures
        s == half(a),
        normal(s),
        a.m > 0 ==> s.m > 0 && s.e == a.e - 1,
        a.m == 0 ==> s == a,
{
    if a.m == 0 {
        a
    } else {
        Single { m: a.m, e: a.e - 1 }
    }
}

/// `a + b`.
pub fn added(a: Single, b: Single) -> (s: Single)
    requires
        normal(a),
        normal(b),
        -200 <= a.e <= 200,
        -200 <= b.e <= 200,
        upper(a, b) - lower(a, b) <= 96,
    ensures
        s == sum(a, b),
        normal(s),
        s.m > 0 ==> lower(a, b) <= s.e <= upper(a, b) + 2,
{
    let (x, y, e) = in_common_units(a, b);
    proof {
        lemma2_to64();
        let p = x + y;
        let h = (upper(a, b) - lower(a, b)) as nat;
        if p >= 0x100_0000 {
            lemma_pow2_unfold(h + 1);
            lemma_pow2_unfold(h + 2);
            lemma_pow2_pos(h);
            lemma_down(p, 1, e as int, h + 2);
        } else if p > 0 {
            assert(p * pow2(0) == p);
            lemma_up(p, 1, e as int, 0);
        }
    }
    round(x + y, 1, e)
}

/// The absolute value of `a - b`.
pub fn apart(a: Single, b: Single) -> (s: Single)
    requires
        normal(a),
        normal(b),
        -150 <= a.e <= 150,
        -150 <= b.e <= 150,
        upper(a, b) - lower(a, b) <= 96,
    ensures
        s == gap(a, b),
        normal(s),
        s.m > 0 ==> lower(a, b) - 23 <= s.e <= upper(a, b) + 1,
{
    let (x, y, e) = in_common_units(a, b);
    let p: u128 = if x >= y {
        x - y
    } else {
        y - x
    };
    proof {
        lemma2_to64();
        let h = (upper(a, b) - lower(a, b)) as nat;
        if p >= 0x100_0000 {
            lemma_pow2_unfold(h + 1);
            lemma_pow2_pos(h);
            lemma_down(p as int, 1, e as int, h + 1);
        } else if p > 0 {
            assert(p * pow2(23) >= 0x80_0000) by (nonlinear_arith)
                requires
                    pow2(23) == 0x80_0000,
                    p >= 1,
            ;
            lemma_up(p as int, 1, e as int, 23);
        }
    }
    round(p, 1, e)
}

/// `a * b`.
pub fn multiplied(a: Single, b: Single) -> (s: Single)
    requires
        normal(a),
        normal(b),
        -200 <= a.e <= 200,
        -200 <= b.e <= 200,
    ensures
        s == product(a, b),
        normal(s),
        s.m > 0 ==> a.e + b.e <= s.e <= a.e + b.e + 25,
{
    assert(0 <= a.m * b.m <= 0x1_0000_0000_0000) by (nonlinear_arith)
        requires
            0 <= a.m <= 0x100_0000,
            0 <= b.m <= 0x100_0000,
    ;
    let p: u128 = (a.m as u128) * (b.m as u128);
    proof {
        lemma2_to64();
        if a.m > 0 && b.m > 0 {
            assert(a.m * b.m >= 0x4000_0000_0000) by (nonlinear_arith)
                requires
                    a.m >= 0x80_0000,
                    b.m >= 0x80_0000,
            ;
            lemma_down(p as int, 1, a.e + b.e, 25);
        } else {
            assert(a.m * b.m == 0) by (nonlinear_arith)
                requires
                    a.m == 0 || b.m == 0,
            ;
        }
    }
    round(p, 1, a.e + b.e)
}

/// `a / b`.
pub fn divided(a: Single, b: Single) -> (s: Single)
    requires
        normal(a),
        normal(b),
        b.m > 0,
        -200 <= a.e <= 200,
        -200 <= b.e <= 200,
    ensures
        s == quotient(a, b),
        normal(s),
        s.m > 0 ==> a.e - b.e - 24 <= s.e <= a.e - b.e - 22,
        s.m > 0 <==> a.m > 0,
{
    proof {
        lemma2_to64();
        let p = a.m as int;
        let q = b.m as int;
        if p > 0 {
            assert(p * pow2(24) == 0x100_0000 * p) by (nonlinear_arith)
                requires
                    pow2(24) == 0x100_0000,
            ;
            assert(p * pow2(22) == 0x40_0000 * p) by (nonlinear_arith)
                requires
                    pow2(22) == 0x40_0000,
            ;
            lemma_up(p, q, a.e - b.e, 24);
            lemma_up_at_least(p, q, a.e - b.e, 24, 22);
        }
    }
    round(a.m as u128, b.m as u128, a.e - b.e)
}

/// `a <= b`.
pub fn is_at_most(a: Single, b: Single) -> (yes: bool)
    requires
        normal(a),
        normal(b),
        -200 <= a.e <= 200,
        -200 <= b.e <= 200,
        upper(a, b) - lower(a, b) <= 96,
    ensures
        yes <==> at_most(a, b),
{
    let (x, y, _) = in_common_units(a, b);
    x <= y
}

/// `a` as a byte.
pub fn byte_of(a: Single) -> (byte: u8)
    requires
        normal(a),
        -200 <= a.e <= 96,
    ensures
        byte == as_byte(a),
{
    let whole: u128 = if a.e >= 0 {
        shifted(a.m, a.e as u32)
    } else {
        let mut m: u32 = a.m;
        let mut e: i32 = a.e;
        proof {
            lemma2_to64();
            assert(a.m as int / pow2(0) as int == a.m) by (nonlinear_arith)
                requires
                    pow2(0) == 1,
            ;
        }
        while e < 0
            invariant
                a.e <= e <= 0,
                -200 <= a.e < 0,
                m as int == a.m as int / pow2((e - a.e) as nat) as int,
            decreases -e,
        {
            proof {
                let k = (e - a.e) as nat;
                lemma_pow2_unfold(k + 1);
                lemma_pow2_pos(k);
                vstd::arithmetic::div_mod::lemma_div_denominator(a.m as int, pow2(k) as int, 2);
            }
            m = m / 2;
            e += 1;
        }
        m as u128
    };
    if whole >= 255 {
        255
    } else {
        whole as u8
    }
}

/// Rounding is to the nearest: no integer is closer to `p / q`, and of two that
/// are equally close the even one is taken.
pub proof fn law_nearest_is_nearest(p: int, q: int, other: int)
    requires
        p >= 0,
        q > 0,
        other != nearest(p, q),
    ensures
        ({
            let own_error = if nearest(p, q) * q >= p {
                nearest(p, q) * q - p
            } else {
                p - nearest(p, q) * q
            };
            let other_error = if other * q >= p {
                other * q - p
            } else {
                p - other * q
            };
            own_error < other_error || (own_error == other_error && nearest(p, q) % 2 == 0)
        }),
{
    vstd::arithmetic::div_mod::lemma_fundamental_div_mod(p, q);
    vstd::arithmetic::div_mod::lemma_mod_bound(p, q);
    let d = p / q;
    let r = p % q;
    let n = nearest(p, q);
    assert(d * q == q * d) by (nonlinear_arith);
    assert((d + 1) * q == d * q + q) by (nonlinear_arith);
    if other <= d - 1 {
        assert(other * q <= d * q - q) by (nonlinear_arith)
            requires
                other <= d - 1,
                q > 0,
        ;
    } else if other >= d + 2 {
        assert(other * q >= d * q + 2 * q) by (nonlinear_arith)
            requires
                other >= d + 2,
                q > 0,
        ;
    }
}

proof fn lemma_nearest_scales(p: int, q: int)
    requires
        p >= 0,
        q > 0,
    ensures
        nearest(2 * p, 2 * q) == nearest(p, q),
{
    vstd::arithmetic::div_mod::lemma_fundamental_div_mod(p, q);
    vstd::arithmetic::div_mod::lemma_mod_bound(p, q);
    let d = p / q;
    let r = p % q;
    assert(2 * p == d * (2 * q) + 2 * r) by (nonlinear_arith)
        requires
            p == q * d + r,
    ;
    vstd::arithmetic::div_mod::lemma_fundamental_div_mod_converse(2 * p, 2 * q, d, 2 * r);
}

proof fn lemma_down_scales(p: int, q: int, e: int)
    requires
        p >= 0,
        q > 0,
    ensures
        rounded_down_to_bits(2 * p, 2 * q, e) == rounded_down_to_bits(p, q, e),
    decreases p - q,
{
    if p >= 0x100_0000 * q {
        lemma_down_scales(p, 2 * q, e + 1);
    } else {
        lemma_nearest_scales(p, q);
    }
}

/// Rounding goes by the value, not by how it is written.
proof fn lemma_rounded_scales(p: int, q: int, e: int, k: nat)
    requires
        p >= 0,
        q > 0,
    ensures
        rounded(p * pow2(k), q, e - k) == rounded(p, q, e),
    decreases k,
{
    lemma2_to64();
    if k == 0 {
        assert(p * pow2(0) == p);
    } else {
        let half_way = p * pow2((k - 1) as nat);
        lemma_pow2_unfold(k);
        lemma_pow2_pos((k - 1) as nat);
        assert(p * pow2(k) == 2 * half_way && half_way >= 0 && (half_way == 0 <==> p == 0))
            by (nonlinear_arith)
            requires
                pow2(k) == 2 * pow2((k - 1) as nat),
                pow2((k - 1) as nat) >= 1,
                half_way == p * pow2((k - 1) as nat),
                p >= 0,
        ;
        lemma_rounded_scales(p, q, e, (k - 1) as nat);
        let e1 = e - (k - 1);
        if half_way > 0 && half_way >= 0x80_0000 * q {
            // One step more, and the quotient is the same again.
            lemma_down_scales(half_way, q, e1);
            lemma_nearest_scales(half_way, q);
            assert(rounded_down_to_bits(2 * half_way, q, e1 - 1) == rounded_down_to_bits(
                2 * half_way,
                2 * q,
                e1,
            ));
        }
    }
}

proof fn lemma_up_exact(p: int, e: int)
    requires
        0 < p < 0x100_0000,
        -100 <= e <= 0,
        p * pow2((100 + e) as nat) >= 0x80_0000,
    ensures
        -100 <= rounded_up_to_bits(p, 1, e).e <= e,
        rounded_up_to_bits(p, 1, e).m == p * pow2((e - rounded_up_to_bits(p, 1, e).e) as nat),
    decreases 0x100_0000 - p,
{
    lemma2_to64();
    let r = rounded_up_to_bits(p, 1, e);
    if p < 0x80_0000 {
        if e == -100 {
            assert(p * pow2(0) == p);
        }
        lemma_pow2_unfold((100 + e) as nat);
        let f = pow2((99 + e) as nat);
        assert(p * (2 * f) == 2 * p * f) by (nonlinear_arith);
        lemma_up_exact(2 * p, e - 1);
        let k = (e - r.e) as nat;
        lemma_pow2_unfold(k);
        let g = pow2((k - 1) as nat);
        assert(p * (2 * g) == 2 * p * g) by (nonlinear_arith);
    } else {
        assert(p / 1 == p && p % 1 == 0);
        assert(p * pow2(0) == p);
    }
}

/// Integers of at most 24 bits are exact.
proof fn lemma_of_int_exact(n: int)
    requires
        0 < n < 0x100_0000,
    ensures
        -100 <= of_int(n).e <= 0,
        of_int(n).m == n * pow2((-of_int(n).e) as nat),
        of_int(n).m > 0,
{
    lemma2_to64();
    lemma_pow2_strictly_increases(23, 100);
    assert(n * pow2(100) >= 0x80_0000) by (nonlinear_arith)
        requires
            n >= 1,
            pow2(100) >= 0x80_0000,
    ;
    lemma_up_exact(n, 0);
    let f = pow2((-of_int(n).e) as nat);
    lemma_pow2_pos((-of_int(n).e) as nat);
    assert(n * f > 0) by (nonlinear_arith)
        requires
            n > 0,
            f > 0,
    ;
}

/// Distances between integers and halves of at most 24 bits depend on their
/// exact value alone.
pub proof fn law_distance_to_half_is_exact(x: int, n: int)
    requires
        0 <= x < 0x100_0000,
        0 < n < 0x100_0000,
    ensures
        gap(of_int(x), half(of_int(n))) == rounded(
            if 2 * x >= n {
                2 * x - n
            } else {
                n - 2 * x
            },
            1,
            -1,
        ),
{
    let a = of_int(x);
    let b = half(of_int(n));
    lemma_of_int_exact(n);
    if x > 0 {
        lemma_of_int_exact(x);
    }
    let lo = lower(a, b);
    let j = (-lo - 1) as nat;
    let f = pow2(j);
    assert(in_units(a, lo) == 2 * x * f) by {
        lemma_pow2_unfold((-lo) as nat);
        if x > 0 {
            lemma_pow2_adds((-a.e) as nat, (a.e - lo) as nat);
            let g = pow2((-a.e) as nat);
            let h = pow2((a.e - lo) as nat);
            assert(x * g * h == 2 * x * f) by (nonlinear_arith)
                requires
                    g * h == 2 * f,
            ;
        } else {
            assert(0 * pow2((a.e - lo) as nat) == 0);
        }
    }
    assert(in_units(b, lo) == n * f) by {
        lemma_pow2_adds((-b.e - 1) as nat, (b.e - lo) as nat);
        let g = pow2((-b.e - 1) as nat);
        let h = pow2((b.e - lo) as nat);
        assert(n * g * h == n * f) by (nonlinear_arith)
            requires
                g * h == f,
        ;
    }
    let d = if 2 * x >= n {
        2 * x - n
    } else {
        n - 2 * x
    };
    lemma_pow2_pos(j);
    assert(2 * x * f - n * f == (2 * x - n) * f && n * f - 2 * x * f == (n - 2 * x) * f && (2 * x
        >= n ==> 2 * x * f >= n * f) && (2 * x < n ==> 2 * x * f < n * f)) by (nonlinear_arith)
        requires
            f > 0,
    ;
    lemma_rounded_scales(d, 1, -1, j);
}

proof fn lemma_down_value(p: int, q: int, e: int, k: nat)
    requires
        q > 0,
        0x100_0000 * q <= p < 0x100_0000 * q * pow2(k),
        -1000 <= e,
        e + k <= 1000,
    ensures
        ({
            let r = rounded_down_to_bits(p, q, e);
            r.e >= e && r.m == nearest(p, q * pow2((r.e - e) as nat))
        }),
    decreases k,
{
    lemma_down(p, q, e, k);
    lemma2_to64();
    if k == 0 {
        assert(0x100_0000 * q * pow2(k) == 0x100_0000 * q) by (nonlinear_arith)
            requires
                pow2(k) == 1,
        ;
    }
    let r = rounded_down_to_bits(p, q, e);
    assert(r == rounded_down_to_bits(p, 2 * q, e + 1));
    if p >= 0x100_0000 * (2 * q) {
        lemma_pow2_unfold(k);
        let f = pow2((k - 1) as nat);
        assert(0x100_0000 * q * (2 * f) == 0x100_0000 * (2 * q) * f) by (nonlinear_arith);
        lemma_down_value(p, 2 * q, e + 1, (k - 1) as nat);
        let d = (r.e - e) as nat;
        lemma_pow2_unfold(d);
        let g = pow2((d - 1) as nat);
        assert(2 * q * g == q * (2 * g)) by (nonlinear_arith);
    } else {
        lemma_nearest(p, 2 * q, 0x80_0000, 0x100_0000);
        assert(r.e == e + 1);
        assert(q * pow2(1) == 2 * q);
    }
}

proof fn lemma_up_value(p: int, q: int, e: int, k: nat)
    requires
        q > 0,
        0 < p < 0x100_0000 * q,
        0x80_0000 * q <= p * pow2(k),
        -1000 <= e - k,
        e <= 1000,
    ensures
        ({
            let r = rounded_up_to_bits(p, q, e);
            r.e <= e && r.m == nearest(p * pow2((e - r.e) as nat), q)
        }),
    decreases k,
{
    lemma_up(p, q, e, k);
    lemma2_to64();
    let r = rounded_up_to_bits(p, q, e);
    if p < 0x80_0000 * q {
        if k == 0 {
            assert(false);
        }
        lemma_pow2_unfold(k);
        let f = pow2((k - 1) as nat);
        assert(p * (2 * f) == 2 * p * f) by (nonlinear_arith);
        lemma_up_value(2 * p, q, e - 1, (k - 1) as nat);
        let d = (e - r.e) as nat;
        lemma_pow2_unfold(d);
        let g = pow2((d - 1) as nat);
        assert(2 * p * g == p * (2 * g)) by (nonlinear_arith);
    } else {
        lemma_nearest(p, q, 0x80_0000, 0x100_0000);
        assert(p * pow2(0) == p);
    }
}

/// Rounding scales a value by a power of two until its significand has 24 bits, and
/// takes the nearest integer then. `k` is any bound on how far that is.
pub proof fn law_rounding_takes_nearest_of_24_bits(p: int, q: int, e: int, k: nat)
    requires
        q > 0,
        0x80_0000 * q <= p * pow2(k),
        p < 0x100_0000 * q * pow2(k),
        -400 <= e <= 400,
        k <= 500,
    ensures
        ({
            let r = rounded(p, q, e);
            &&& 0x80_0000 <= r.m <= 0x100_0000
            &&& r.e >= e ==> r.m == nearest(p, q * pow2((r.e - e) as nat))
            &&& r.e <= e ==> r.m == nearest(p * pow2((e - r.e) as nat), q)
        }),
{
    lemma_pow2_pos(k);
    assert(p > 0) by (nonlinear_arith)
        requires
            q > 0,
            pow2(k) > 0,
            0x80_0000 * q <= p * pow2(k),
    ;
    lemma2_to64();
    if p >= 0x100_0000 * q {
        lemma_down(p, q, e, k);
        lemma_down_value(p, q, e, k);
        let r = rounded(p, q, e);
        if r.e == e {
            assert(p * pow2(0) == p && q * pow2(0) == q);
        }
    } else {
        lemma_up(p, q, e, k);
        lemma_up_value(p, q, e, k);
        let r = rounded(p, q, e);
        if r.e == e {
            assert(p * pow2(0) == p && q * pow2(0) == q);
        }
    }
}

proof fn lemma_in_lower_units(a: Single, lo: int, u: int)
    requires
        u <= lo <= a.e,
    ensures
        in_units(a, lo) * pow2((lo - u) as nat) == a.m * pow2((a.e - u) as nat),
{
    let f = pow2((a.e - lo) as nat);
    let g = pow2((lo - u) as nat);
    lemma_pow2_adds((a.e - lo) as nat, (lo - u) as nat);
    assert(a.m * f * g == a.m * (f * g)) by (nonlinear_arith);
}

/// A sum is the exact sum, rounded once, whatever unit it is taken in.
pub proof fn law_sum_is_rounded_once(a: Single, b: Single, u: int)
    requires
        u <= a.e,
        u <= b.e,
    ensures
        sum(a, b) == rounded(
            a.m * pow2((a.e - u) as nat) + b.m * pow2((b.e - u) as nat),
            1,
            u,
        ),
        sum(a, b) == sum(b, a),
{
    let lo = lower(a, b);
    let x = in_units(a, lo);
    let y = in_units(b, lo);
    let f = pow2((lo - u) as nat);
    lemma_in_lower_units(a, lo, u);
    lemma_in_lower_units(b, lo, u);
    lemma_units_not_negative(a, lo);
    lemma_units_not_negative(b, lo);
    assert((x + y) * f == x * f + y * f) by (nonlinear_arith);
    lemma_rounded_scales(x + y, 1, lo, (lo - u) as nat);
}

proof fn lemma_units_not_negative(a: Single, lo: int)
    ensures
        in_units(a, lo) >= 0,
{
    assert(a.m * pow2((a.e - lo) as nat) >= 0) by (nonlinear_arith)
        requires
            a.m >= 0,
            pow2((a.e - lo) as nat) >= 0,
    ;
}

/// A distance is the exact distance, rounded once, whatever unit it is taken in, and
/// comparing goes by the exact values.
pub proof fn law_gap_is_rounded_once(a: Single, b: Single, u: int)
    requires
        u <= a.e,
        u <= b.e,
    ensures
        ({
            let x = a.m * pow2((a.e - u) as nat);
            let y = b.m * pow2((b.e - u) as nat);
            &&& x >= y ==> gap(a, b) == rounded(x - y, 1, u)
            &&& x <= y ==> gap(a, b) == rounded(y - x, 1, u)
            &&& at_most(a, b) <==> x <= y
        }),
        gap(a, b) == gap(b, a),
{
    let lo = lower(a, b);
    let x = in_units(a, lo);
    let y = in_units(b, lo);
    let f = pow2((lo - u) as nat);
    lemma_pow2_pos((lo - u) as nat);
    lemma_in_lower_units(a, lo, u);
    lemma_in_lower_units(b, lo, u);
    assert((x - y) * f == x * f - y * f && (y - x) * f == y * f - x * f && (x <= y <==> x * f <= y
        * f)) by (nonlinear_arith)
        requires
            f > 0,
    ;
    if x >= y {
        lemma_rounded_scales(x - y, 1, lo, (lo - u) as nat);
    } else {
        lemma_rounded_scales(y - x, 1, lo, (lo - u) as nat);
    }
    if x == y {
        assert(x - y == 0 && x * f == y * f);
    }
}

proof fn lemma_up_steps(p: int, q: int, e: int, j: nat)
    requires
        q > 0,
        p > 0,
        j > 0 ==> p * pow2((j - 1) as nat) < 0x80_0000 * q,
    ensures
        rounded_up_to_bits(p, q, e) == rounded_up_to_bits(p * pow2(j), q, e - j),
    decreases j,
{
    lemma2_to64();
    if j == 0 {
        assert(p * pow2(0) == p);
    } else {
        let f = pow2((j - 1) as nat);
        lemma_pow2_pos((j - 1) as nat);
        assert(p <= p * f) by (nonlinear_arith)
            requires
                p > 0,
                f >= 1,
        ;
        lemma_pow2_unfold(j);
        if j > 1 {
            lemma_pow2_unfold((j - 1) as nat);
            let g = pow2((j - 2) as nat);
            assert(2 * p * g == p * (2 * g)) by (nonlinear_arith);
        }
        lemma_up_steps(2 * p, q, e - 1, (j - 1) as nat);
        assert(2 * p * f == p * (2 * f)) by (nonlinear_arith);
    }
}

/// A significand of 24 bits stays as it is.
proof fn lemma_rounded_fits(m: int, e: int)
    requires
        0x80_0000 <= m < 0x100_0000,
        i32::MIN <= e <= i32::MAX,
    ensures
        rounded(m, 1, e) == (Single { m: m as u32, e: e as i32 }),
{
    assert(m / 1 == m && m % 1 == 0);
}

/// Multiplying takes the exact product of the significands, rounded once; the order
/// does not matter, and `2^d` only moves the exponent. `2^23 * 2^(d - 23)` is `2^d`.
pub proof fn law_product_is_rounded_once(a: Single, b: Single, d: int)
    requires
        0x80_0000 <= a.m < 0x100_0000,
        -1000 <= a.e <= 1000,
        -1000 <= d <= 1000,
    ensures
        product(a, b) == rounded(a.m * b.m, 1, a.e + b.e),
        product(a, b) == product(b, a),
        product(a, Single { m: 0x80_0000, e: (d - 23) as i32 }) == (Single {
            m: a.m,
            e: (a.e + d) as i32,
        }),
        product(a, Single { m: 0, e: 0 }) == (Single { m: 0, e: 0 }),
{
    assert(a.m * b.m == b.m * a.m) by (nonlinear_arith);
    lemma2_to64();
    lemma_rounded_scales(a.m as int, 1, a.e + d, 23);
    lemma_rounded_fits(a.m as int, a.e + d);
    assert(a.m * 0 == 0) by (nonlinear_arith);
}

/// Dividing takes the exact quotient of the significands, rounded once: a number by
/// itself is one, zero by a number is zero, and `2^d` only moves the exponent.
pub proof fn law_quotient_is_rounded_once(a: Single, b: Single, d: int)
    requires
        0x80_0000 <= a.m < 0x100_0000,
        -1000 <= a.e <= 1000,
        -1000 <= d <= 1000,
    ensures
        quotient(a, b) == rounded(a.m as int, b.m as int, a.e - b.e),
        quotient(a, a) == (Single { m: 0x80_0000, e: -23 as i32 }),
        quotient(Single { m: 0, e: 0 }, a) == (Single { m: 0, e: 0 }),
        quotient(a, Single { m: 0x80_0000, e: (d - 23) as i32 }) == (Single {
            m: a.m,
            e: (a.e - d) as i32,
        }),
{
    lemma2_to64();
    let m = a.m as int;
    assert(pow2((23 - 1) as nat) == 0x40_0000);
    // By itself.
    lemma_up_steps(m, m, 0, 23);
    assert(m * pow2(23) == 0x80_0000 * m);
    assert(nearest(0x80_0000 * m, m) == 0x80_0000) by {
        vstd::arithmetic::div_mod::lemma_fundamental_div_mod_converse(
            0x80_0000 * m,
            m,
            0x80_0000,
            0,
        );
    }
    // By a power of two.
    lemma_up_steps(m, 0x80_0000, a.e - d + 23, 23);
    assert(nearest(0x80_0000 * m, 0x80_0000) == m) by {
        vstd::arithmetic::div_mod::lemma_fundamental_div_mod_converse(
            0x80_0000 * m,
            0x80_0000,
            m,
            0,
        );
    }
}

/// Two halves make a whole.
pub proof fn law_two_halves_make_a_whole(a: Single)
    requires
        0x80_0000 <= a.m < 0x100_0000,
        -1000 <= a.e <= 1000,
    ensures
        sum(half(a), half(a)) == a,
        half(Single { m: 0, e: 0 }) == (Single { m: 0, e: 0 }),
{
    lemma2_to64();
    assert(in_units(half(a), a.e - 1) == a.m * pow2(0));
    assert(a.m * pow2(0) == a.m && a.m * pow2(1) == 2 * a.m);
    lemma_rounded_scales(a.m as int, 1, a.e as int, 1);
    lemma_rounded_fits(a.m as int, a.e as int);
}

proof fn lemma_up_strict(p: int, e: int)
    requires
        0 < p < 0x100_0000,
    ensures
        0x80_0000 <= rounded_up_to_bits(p, 1, e).m < 0x100_0000,
    decreases 0x100_0000 - p,
{
    if p < 0x80_0000 {
        lemma_up_strict(2 * p, e - 1);
    } else {
        assert(p / 1 == p && p % 1 == 0);
    }
}

/// Integers below 2^24 are exact: their value is `m * 2^e`.
pub proof fn law_integers_are_exact(n: int)
    requires
        0 < n < 0x100_0000,
    ensures
        -100 <= of_int(n).e <= 0,
        of_int(n).m == n * pow2((-of_int(n).e) as nat),
        0x80_0000 <= of_int(n).m < 0x100_0000,
        of_int(0) == (Single { m: 0, e: 0 }),
{
    lemma_of_int_exact(n);
    lemma_up_strict(n, 0);
}

/// The significand of an integer in a unit that is small enough for it.
proof fn lemma_int_in_units(n: int, u: int)
    requires
        0 <= n < 0x100_0000,
        u <= of_int(n).e,
        u <= 0,
    ensures
        of_int(n).m * pow2((of_int(n).e - u) as nat) == n * pow2((-u) as nat),
{
    let a = of_int(n);
    if n > 0 {
        lemma_of_int_exact(n);
        lemma_pow2_adds((-a.e) as nat, (a.e - u) as nat);
        let f = pow2((-a.e) as nat);
        let g = pow2((a.e - u) as nat);
        assert(n * f * g == n * (f * g)) by (nonlinear_arith);
    }
}

/// Sums, distances and comparisons of integers below 2^24 are those of the integers,
/// as are their products, and the byte of an integer is the integer, at most 255.
pub proof fn law_integers_calculate(a: int, b: int)
    requires
        0 <= a < 0x100_0000,
        0 <= b < 0x100_0000,
    ensures
        sum(of_int(a), of_int(b)) == of_int(a + b),
        a >= b ==> gap(of_int(a), of_int(b)) == of_int(a - b),
        at_most(of_int(a), of_int(b)) <==> a <= b,
        product(of_int(a), of_int(b)) == of_int(a * b),
        as_byte(of_int(a)) == if a < 255 {
            a
        } else {
            255
        },
{
    lemma2_to64();
    let x = of_int(a);
    let y = of_int(b);
    if a > 0 {
        lemma_of_int_exact(a);
    }
    if b > 0 {
        lemma_of_int_exact(b);
    }
    let u = lower(x, y);
    let f = pow2((-u) as nat);
    lemma_pow2_pos((-u) as nat);
    lemma_int_in_units(a, u);
    lemma_int_in_units(b, u);
    law_sum_is_rounded_once(x, y, u);
    law_gap_is_rounded_once(x, y, u);
    assert(a * f + b * f == (a + b) * f && a * f - b * f == (a - b) * f && (a <= b <==> a * f <= b
        * f)) by (nonlinear_arith)
        requires
            f > 0,
    ;
    lemma_rounded_scales(a + b, 1, 0, (-u) as nat);
    if a >= b {
        lemma_rounded_scales(a - b, 1, 0, (-u) as nat);
    }
    // The product.
    if a > 0 && b > 0 {
        let g = pow2((-x.e) as nat);
        let h = pow2((-y.e) as nat);
        lemma_pow2_adds((-x.e) as nat, (-y.e) as nat);
        assert((a * g) * (b * h) == (a * b) * (g * h)) by (nonlinear_arith);
        assert(a * b >= 0) by (nonlinear_arith)
            requires
                a >= 0,
                b >= 0,
        ;
        lemma_rounded_scales(a * b, 1, 0, (-x.e - y.e) as nat);
    } else {
        assert(a * b == 0) by (nonlinear_arith)
            requires
                a == 0 || b == 0,
        ;
        assert(x.m * y.m == 0) by (nonlinear_arith)
            requires
                x.m == 0 || y.m == 0,
        ;
    }
    // The byte.
    if x.e == 0 {
        assert(x.m * pow2((x.e - 0) as nat) == x.m && a * pow2(0) == a);
        assert(a > 0 ==> x.m == a * pow2((-x.e) as nat));
        assert((-x.e) as nat == 0);
        assert(whole_part(x) == a);
    } else {
        let g = pow2((-x.e) as nat);
        lemma_pow2_pos((-x.e) as nat);
        vstd::arithmetic::div_mod::lemma_fundamental_div_mod_converse(x.m as int, g as int, a, 0);
    }
}

/// A byte is the whole part of a number below 255, and 255 from there on. Below zero
/// exponents the whole part is a quotient by a power of two.
pub proof fn law_byte_is_whole_part(a: Single)
    requires
        a.e <= 0,
    ensures
        ({
            let unit = pow2((-a.e) as nat);
            &&& as_byte(a) == 255 <==> a.m >= 255 * unit
            &&& as_byte(a) < 255 ==> as_byte(a) * unit <= a.m < (as_byte(a) + 1) * unit
        }),
{
    lemma2_to64();
    let unit = pow2((-a.e) as nat) as int;
    lemma_pow2_pos((-a.e) as nat);
    let w = a.m as int / unit;
    vstd::arithmetic::div_mod::lemma_fundamental_div_mod(a.m as int, unit);
    vstd::arithmetic::div_mod::lemma_mod_bound(a.m as int, unit);
    if a.e == 0 {
        assert(unit == 1);
        assert(whole_part(a) == a.m);
        assert(a.m as int / 1 == a.m);
    }
    assert(whole_part(a) == w);
    assert(w >= 0 && w * unit <= a.m < (w + 1) * unit && (w >= 255 <==> a.m >= 255 * unit))
        by (nonlinear_arith)
        requires
            unit > 0,
            a.m == unit * w + a.m as int % unit,
            0 <= a.m as int % unit < unit,
            a.m >= 0,
    ;
}

/// A sum of an integer and half an integer is exact too.
pub proof fn law_sum_with_half_is_exact(x: int, n: int)
    requires
        0 <= x < 0x100_0000,
        0 < n < 0x100_0000,
    ensures
        sum(of_int(x), half(of_int(n))) == rounded(2 * x + n, 1, -1),
        half(of_int(n)) == rounded(n, 1, -1),
        2 * x + n < 0x100_0000 ==> sum(of_int(x), half(of_int(n))) == half(of_int(2 * x + n)),
{
    lemma2_to64();
    let a = of_int(x);
    let b = half(of_int(n));
    lemma_of_int_exact(n);
    if x > 0 {
        lemma_of_int_exact(x);
    }
    let u = lower(a, b);
    let f = pow2((-u) as nat);
    lemma_int_in_units(x, u);
    // Half of n, in units of 2^u, is n in units of 2^(u + 1).
    lemma_int_in_units(n, u + 1);
    assert(b.e - u == of_int(n).e - (u + 1));
    let g = pow2((-u - 1) as nat);
    lemma_pow2_unfold((-u) as nat);
    law_sum_is_rounded_once(a, b, u);
    assert(x * f + n * g == (2 * x + n) * g) by (nonlinear_arith)
        requires
            f == 2 * g,
    ;
    lemma_rounded_scales(2 * x + n, 1, -1, (-u - 1) as nat);
    lemma_half_of_int(n);
    if 2 * x + n < 0x100_0000 {
        lemma_half_of_int(2 * x + n);
    }
}

proof fn lemma_half_of_int(n: int)
    requires
        0 < n < 0x100_0000,
    ensures
        half(of_int(n)) == rounded(n, 1, -1),
{
    lemma_of_int_exact(n);
    lemma_up_strict(n, 0);
    let b = half(of_int(n));
    lemma_rounded_fits(b.m as int, b.e as int);
    lemma_rounded_scales(n, 1, -1, (-1 - b.e) as nat);
}

} // verus!
