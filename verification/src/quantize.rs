use crate::scalar::saturate;
use vstd::arithmetic::div_mod::{
    lemma_basic_div, lemma_div_is_ordered, lemma_div_multiples_vanish_fancy,
    lemma_div_multiples_vanish_quotient,
};
use vstd::arithmetic::power2::{
    lemma2_to64, lemma2_to64_rest, lemma_pow2_adds, lemma_pow2_pos, lemma_pow2_strictly_increases,
    lemma_pow2_unfold, pow2,
};
use vstd::prelude::*;

verus! {

/// The number of lattice steps to one unit of length: 2^20.
pub const STEPS_PER_UNIT: i64 = 1_048_576;

/// The exponent field of a binary32 bit pattern.
pub open spec fn exponent_of(bits: u32) -> int {
    ((bits / 0x80_0000) % 0x100) as int
}

/// The fraction field of a binary32 bit pattern.
pub open spec fn fraction_of(bits: u32) -> int {
    (bits % 0x80_0000) as int
}

/// Whether a bit pattern stands for a number: neither for an infinity nor
/// for what is not a number.
pub open spec fn is_finite(bits: u32) -> bool {
    exponent_of(bits) != 255
}

/// The magnitude of the number that a bit pattern stands for, in units of
/// 2^-149, of which every such number is a whole multiple.
pub open spec fn magnitude_of(bits: u32) -> int {
    if exponent_of(bits) == 0 {
        fraction_of(bits)
    } else {
        (0x80_0000 + fraction_of(bits)) * pow2((exponent_of(bits) - 1) as nat)
    }
}

/// The number that a bit pattern stands for, in units of 2^-149.
pub open spec fn value_of(bits: u32) -> int {
    if bits >= 0x8000_0000 {
        -magnitude_of(bits)
    } else {
        magnitude_of(bits)
    }
}

/// One lattice step, 2^-20, in units of 2^-149.
pub open spec fn step() -> int {
    pow2(129) as int
}

/// The magnitude, in lattice steps, of the number that a bit pattern stands
/// for: the nearest whole number of steps, a half counting as a whole.
/// What is not a number counts as zero, and an infinity as 2^63.
pub open spec fn steps_of(bits: u32) -> int {
    if exponent_of(bits) == 255 {
        if fraction_of(bits) == 0 {
            0x8000_0000_0000_0000
        } else {
            0
        }
    } else {
        (magnitude_of(bits) + pow2(128)) / step()
    }
}

/// The lattice coordinate of the number that a bit pattern stands for: its
/// magnitude in steps with its sign, held to the range of `i64`.
pub open spec fn grid_value(bits: u32) -> int {
    if bits >= 0x8000_0000 {
        saturate(-steps_of(bits))
    } else {
        saturate(steps_of(bits))
    }
}

/// The steps of a number by the size of its exponent: below 2^-20 the
/// significand is cut, with half of what is cut added before; from 2^-20 on
/// it is a whole number of steps as it stands.
pub proof fn lemma_steps_by_exponent(bits: u32)
    requires
        is_finite(bits),
    ensures
        exponent_of(bits) == 0 ==> steps_of(bits) == 0,
        1 <= exponent_of(bits) < 130 ==> steps_of(bits) == (0x80_0000 + fraction_of(bits) + pow2(
            (129 - exponent_of(bits)) as nat,
        )) / (pow2((130 - exponent_of(bits)) as nat) as int),
        130 <= exponent_of(bits) ==> steps_of(bits) == (0x80_0000 + fraction_of(bits)) * pow2(
            (exponent_of(bits) - 130) as nat,
        ),
{
    let e = exponent_of(bits);
    let f = fraction_of(bits);
    let m = 0x80_0000 + f;
    lemma2_to64();
    lemma_pow2_unfold(129);
    lemma_pow2_pos(128);
    if e == 0 {
        lemma_pow2_strictly_increases(23, 128);
        lemma_basic_div(f + pow2(128), step());
    } else if e < 130 {
        let low = pow2((e - 1) as nat) as int;
        let cut = pow2((130 - e) as nat) as int;
        let half = pow2((129 - e) as nat) as int;
        lemma_pow2_pos((e - 1) as nat);
        lemma_pow2_pos((130 - e) as nat);
        lemma_pow2_adds((e - 1) as nat, (130 - e) as nat);
        lemma_pow2_adds((e - 1) as nat, (129 - e) as nat);
        assert(step() == low * cut);
        assert(pow2(128) == low * half);
        assert(m * low + low * half == low * (m + half)) by (nonlinear_arith);
        lemma_div_multiples_vanish_quotient(low, m + half, cut);
    } else {
        let high = pow2((e - 130) as nat) as int;
        lemma_pow2_adds(129, (e - 130) as nat);
        assert(pow2((e - 1) as nat) == step() * high);
        assert(m * (step() * high) == step() * (m * high)) by (nonlinear_arith);
        lemma_div_multiples_vanish_fancy(m * high, pow2(128) as int, step());
    }
}

/// The lattice coordinate of the number that a binary32 bit pattern stands
/// for.
pub fn quantize(bits: u32) -> (q: i64)
    ensures
        q == grid_value(bits),
{
    let negative = bits >= 0x8000_0000;
    let exponent: u32 = (bits / 0x80_0000) % 0x100;
    let fraction: u32 = bits % 0x80_0000;
    let significand: u64 = 0x80_0000 + fraction as u64;
    proof {
        lemma2_to64();
        lemma2_to64_rest();
        if exponent != 255 {
            lemma_steps_by_exponent(bits);
        }
    }
    let magnitude: u64 = if exponent == 255 {
        if fraction == 0 {
            0x8000_0000_0000_0000
        } else {
            0
        }
    } else if exponent == 0 {
        0
    } else if exponent >= 170 {
        proof {
            let e = (exponent - 130) as nat;
            if e > 40 {
                lemma_pow2_strictly_increases(40, e);
            }
            assert(significand * pow2(e) >= 0x80_0000 * 0x100_0000_0000) by (nonlinear_arith)
                requires
                    significand >= 0x80_0000,
                    pow2(e) >= 0x100_0000_0000,
            ;
        }
        0x8000_0000_0000_0000
    } else if exponent >= 130 {
        let shift: u64 = (exponent - 130) as u64;
        proof {
            if shift < 39 {
                lemma_pow2_strictly_increases(shift as nat, 39);
            }
            assert(significand * pow2(shift as nat) <= 0xff_ffff * 0x80_0000_0000)
                by (nonlinear_arith)
                requires
                    0 <= significand <= 0xff_ffff,
                    pow2(shift as nat) <= 0x80_0000_0000,
            ;
            vstd::bits::lemma_u64_shl_is_mul(significand, shift);
        }
        significand << shift
    } else if exponent >= 105 {
        let shift: u64 = (130 - exponent) as u64;
        let half: u64 = 1u64 << (shift - 1);
        proof {
            if shift - 1 < 24 {
                lemma_pow2_strictly_increases((shift - 1) as nat, 24);
            }
            vstd::bits::lemma_u64_shl_is_mul(1, (shift - 1) as u64);
            vstd::bits::lemma_u64_shr_is_div((significand + half) as u64, shift);
        }
        (significand + half) >> shift
    } else {
        proof {
            let s = (130 - exponent) as nat;
            if s - 1 > 24 {
                lemma_pow2_strictly_increases(24, (s - 1) as nat);
            }
            lemma_pow2_unfold(s);
            lemma_basic_div(significand + pow2((s - 1) as nat), pow2(s) as int);
        }
        0
    };
    assert(magnitude == steps_of(bits) || (magnitude == 0x8000_0000_0000_0000 && steps_of(bits)
        >= 0x8000_0000_0000_0000));
    if negative {
        if magnitude >= 0x8000_0000_0000_0000 {
            i64::MIN
        } else {
            -(magnitude as i64)
        }
    } else {
        if magnitude > 0x7fff_ffff_ffff_ffff {
            i64::MAX
        } else {
            magnitude as i64
        }
    }
}

/// The steps of a magnitude grow with it, and by one with each whole step.
proof fn lemma_rounding(a: int, b: int)
    requires
        0 <= a <= b,
    ensures
        (a + pow2(128)) / step() <= (b + pow2(128)) / step(),
        b - a >= step() ==> (a + pow2(128)) / step() + 1 <= (b + pow2(128)) / step(),
        b - a < step() ==> (b + pow2(128)) / step() <= (a + pow2(128)) / step() + 1,
        a < pow2(128) <==> (a + pow2(128)) / step() == 0,
{
    let h = pow2(128) as int;
    let d = step();
    lemma_pow2_unfold(129);
    lemma_pow2_pos(128);
    lemma_div_is_ordered(a + h, b + h, d);
    if b - a >= d {
        lemma_div_is_ordered(a + d + h, b + h, d);
    } else {
        lemma_div_is_ordered(b + h, a + d + h, d);
    }
    assert((a + d + h) / d == (a + h) / d + 1) by {
        vstd::arithmetic::div_mod::lemma_div_plus_one(a + h, d);
    }
    if a < h {
        lemma_basic_div(a + h, d);
    } else {
        lemma_div_is_ordered(d, a + h, d);
        vstd::arithmetic::div_mod::lemma_div_basics(d);
    }
}

/// Tolerance: two numbers that differ by less than a step get coordinates
/// that are equal or one step apart.
pub proof fn lemma_within_a_step(a: u32, b: u32)
    requires
        is_finite(a),
        is_finite(b),
        -step() < value_of(a) - value_of(b) < step(),
    ensures
        -1 <= grid_value(a) - grid_value(b) <= 1,
{
    let va = magnitude_of(a);
    let vb = magnitude_of(b);
    lemma_magnitude_bounds(a);
    lemma_magnitude_bounds(b);
    lemma_pow2_unfold(129);
    if (a >= 0x8000_0000) == (b >= 0x8000_0000) {
        if va <= vb {
            lemma_rounding(va, vb);
        } else {
            lemma_rounding(vb, va);
        }
    } else {
        lemma_rounding(0, va);
        lemma_rounding(0, vb);
        lemma_rounding(va, va);
        lemma_rounding(vb, vb);
    }
}

/// Separation: two numbers that differ by a step or more, and whose
/// coordinates lie within the range of `i64`, get different coordinates.
pub proof fn lemma_a_step_apart(a: u32, b: u32)
    requires
        is_finite(a),
        is_finite(b),
        value_of(a) - value_of(b) >= step() || value_of(b) - value_of(a) >= step(),
        steps_of(a) <= i64::MAX,
        steps_of(b) <= i64::MAX,
    ensures
        grid_value(a) != grid_value(b),
{
    let va = magnitude_of(a);
    let vb = magnitude_of(b);
    lemma_magnitude_bounds(a);
    lemma_magnitude_bounds(b);
    lemma_pow2_unfold(129);
    if (a >= 0x8000_0000) == (b >= 0x8000_0000) {
        if va <= vb {
            lemma_rounding(va, vb);
        } else {
            lemma_rounding(vb, va);
        }
    } else {
        lemma_rounding(0, va);
        lemma_rounding(0, vb);
        lemma_rounding(va, va);
        lemma_rounding(vb, vb);
    }
}

/// A magnitude is not negative, and neither are its steps.
pub proof fn lemma_magnitude_bounds(bits: u32)
    ensures
        magnitude_of(bits) >= 0,
        is_finite(bits) ==> steps_of(bits) >= 0,
{
    let e = exponent_of(bits);
    if e != 0 {
        lemma_pow2_pos((e - 1) as nat);
        assert((0x80_0000 + fraction_of(bits)) * pow2((e - 1) as nat) >= 0) by (nonlinear_arith)
            requires
                fraction_of(bits) >= 0,
                pow2((e - 1) as nat) > 0,
        ;
    }
    if e != 255 {
        lemma_rounding(0, magnitude_of(bits));
        lemma_pow2_pos(128);
        lemma_pow2_pos(129);
        vstd::arithmetic::div_mod::lemma_div_pos_is_pos(magnitude_of(bits) + pow2(128), step());
    }
}

/// The place of the highest bit of a positive number: the whole part of its
/// binary logarithm.
pub open spec fn top_bit(m: int) -> nat
    decreases m,
{
    if m <= 1 {
        0
    } else {
        1 + top_bit(m / 2)
    }
}

/// A positive number lies between the power of two of its highest bit and
/// the next.
pub proof fn lemma_top_bit(m: int)
    requires
        m >= 1,
    ensures
        pow2(top_bit(m)) <= m < pow2(top_bit(m) + 1),
    decreases m,
{
    lemma2_to64();
    if m > 1 {
        lemma_top_bit(m / 2);
        lemma_pow2_unfold(top_bit(m));
        lemma_pow2_unfold(top_bit(m) + 1);
    }
}

/// The place of the highest bit of a positive number.
pub fn highest_bit(m: u64) -> (h: u32)
    requires
        m >= 1,
    ensures
        h == top_bit(m as int),
        h <= 63,
{
    let mut rest: u64 = m;
    let mut h: u32 = 0;
    proof {
        lemma_top_bit(m as int);
        lemma2_to64();
        lemma2_to64_rest();
        if top_bit(m as int) > 63 {
            lemma_pow2_strictly_increases(64, top_bit(m as int) + 1);
            if top_bit(m as int) > 64 {
                lemma_pow2_strictly_increases(64, top_bit(m as int));
            }
        }
    }
    while rest > 1
        invariant
            rest >= 1,
            h + top_bit(rest as int) == top_bit(m as int),
            top_bit(m as int) <= 63,
        decreases rest,
    {
        rest = rest / 2;
        h += 1;
    }
    h
}

/// The significand of 24 bits and the place of the highest bit to which a
/// positive number of steps is rounded: the bits below the 24th are cut,
/// and one is added where they come to more than a half, or to just a half
/// and the cut number is odd.
pub open spec fn rounded(m: int) -> (int, nat) {
    let h = top_bit(m);
    if h <= 23 {
        (m * pow2((23 - h) as nat), h)
    } else {
        let cut = m / (pow2((h - 23) as nat) as int);
        let rest = m % (pow2((h - 23) as nat) as int);
        let half = pow2((h - 24) as nat) as int;
        let up: int = if rest > half || (rest == half && cut % 2 == 1) {
            1
        } else {
            0
        };
        if cut + up == 0x100_0000 {
            (0x80_0000, h + 1)
        } else {
            (cut + up, h)
        }
    }
}

/// The binary32 bit pattern of the number nearest to a lattice coordinate:
/// the coordinate rounded to 24 bits, halves to the even side, with the
/// exponent that undoes the 2^20 steps to the unit.
pub open spec fn word_of(q: int) -> int {
    if q == 0 {
        0
    } else {
        let (significand, h) = rounded(if q < 0 {
            -q
        } else {
            q
        });
        (if q < 0 {
            0x8000_0000int
        } else {
            0int
        }) + (h + 107) * 0x80_0000 + (significand - 0x80_0000)
    }
}

/// Whether a lattice coordinate is the coordinate of a binary32 number:
/// whether it has no bits below the 24th from its highest.
pub open spec fn is_exact(q: int) -> bool {
    let m = if q < 0 {
        -q
    } else {
        q
    };
    q == 0 || top_bit(m) <= 23 || m % (pow2((top_bit(m) - 23) as nat) as int) == 0
}

/// The significand to which a number of steps is rounded has 24 bits, and
/// the highest bit does not move beyond the 64th.
pub proof fn lemma_rounded(m: int)
    requires
        1 <= m <= 0x8000_0000_0000_0000,
    ensures
        0x80_0000 <= rounded(m).0 < 0x100_0000,
        rounded(m).1 <= 63,
        is_exact(m) ==> rounded(m).0 * pow2(rounded(m).1) == m * pow2(23),
{
    let h = top_bit(m);
    lemma_top_bit(m);
    lemma2_to64();
    lemma2_to64_rest();
    if h > 63 {
        lemma_pow2_strictly_increases(63, h);
    }
    if h <= 23 {
        let up = pow2((23 - h) as nat) as int;
        lemma_pow2_adds(h, (23 - h) as nat);
        lemma_pow2_adds(h + 1, (23 - h) as nat);
        lemma_pow2_pos((23 - h) as nat);
        assert(pow2(h) * up <= m * up < pow2(h + 1) * up) by (nonlinear_arith)
            requires
                pow2(h) <= m < pow2(h + 1),
                up > 0,
        ;
        assert(m * up * pow2(h) == m * (pow2(h) * up)) by (nonlinear_arith);
    } else {
        let s = (h - 23) as nat;
        let d = pow2(s) as int;
        lemma_pow2_pos(s);
        lemma_pow2_adds(23, s);
        lemma_pow2_adds(24, s);
        lemma_pow2_unfold(s);
        let cut = m / d;
        let rest = m % d;
        vstd::arithmetic::div_mod::lemma_fundamental_div_mod(m, d);
        vstd::arithmetic::div_mod::lemma_mod_bound(m, d);
        assert(0x80_0000 <= cut < 0x100_0000) by (nonlinear_arith)
            requires
                m == d * cut + rest,
                0 <= rest < d,
                0x80_0000 * d <= m < 0x100_0000 * d,
                d > 0,
        ;
        if h == 63 {
            assert(m == 0x8000_0000_0000_0000);
            assert(d == 0x100_0000_0000);
            assert(cut == 0x80_0000 && rest == 0) by (nonlinear_arith)
                requires
                    m == d * cut + rest,
                    0 <= rest < d,
                    m == 0x80_0000 * d,
                    d > 0,
            ;
        }
        if is_exact(m) {
            lemma_pow2_pos((h - 24) as nat);
            assert(cut * pow2(h) == (d * cut) * pow2(23)) by (nonlinear_arith)
                requires
                    pow2(h) == pow2(23) * d,
            ;
        }
    }
}

/// The binary32 bit pattern of the number nearest to a lattice coordinate.
pub fn dequantize(q: i64) -> (bits: u32)
    ensures
        bits == word_of(q as int),
{
    if q == 0 {
        return 0;
    }
    let negative = q < 0;
    let m: u64 = if negative {
        (-(q as i128)) as u64
    } else {
        q as u64
    };
    let h = highest_bit(m);
    proof {
        lemma_top_bit(m as int);
        lemma_rounded(m as int);
        lemma2_to64();
        lemma2_to64_rest();
    }
    let mut place: u32 = h;
    let significand: u64 = if h <= 23 {
        proof {
            lemma_pow2_adds(h as nat, (23 - h) as nat);
            lemma_pow2_adds((h + 1) as nat, (23 - h) as nat);
            vstd::bits::lemma_u64_shl_is_mul(m, (23 - h) as u64);
        }
        m << (23 - h)
    } else {
        let shift: u32 = h - 23;
        proof {
            lemma_pow2_pos(shift as nat);
            lemma_pow2_strictly_increases(shift as nat, 64);
            if shift > 1 {
                lemma_pow2_strictly_increases((shift - 1) as nat, shift as nat);
            }
            lemma_pow2_unfold(shift as nat);
            vstd::bits::lemma_u64_shl_is_mul(1, shift as u64);
            vstd::bits::lemma_u64_shl_is_mul(1, (shift - 1) as u64);
            vstd::bits::lemma_u64_shr_is_div(m, shift as u64);
        }
        let unit: u64 = 1u64 << shift;
        let half: u64 = 1u64 << (shift - 1);
        let cut: u64 = m >> shift;
        let rest: u64 = m % unit;
        let up = rest > half || (rest == half && cut % 2 == 1);
        let t: u64 = if up {
            cut + 1
        } else {
            cut
        };
        if t == 0x100_0000 {
            place = h + 1;
            0x80_0000
        } else {
            t
        }
    };
    let sign: u32 = if negative {
        0x8000_0000
    } else {
        0
    };
    sign + (place + 107) * 0x80_0000 + (significand as u32 - 0x80_0000)
}

/// The bit pattern of a lattice coordinate fits into 32 bits.
pub proof fn lemma_word_fits(q: int)
    requires
        i64::MIN <= q <= i64::MAX,
    ensures
        0 <= word_of(q) <= u32::MAX,
{
    if q != 0 {
        lemma_rounded(if q < 0 {
            -q
        } else {
            q
        });
    }
}

/// What is written is read again: the bit pattern of a lattice coordinate
/// that is the coordinate of a binary32 number stands for that coordinate.
pub proof fn lemma_word_reads_back(q: int)
    requires
        i64::MIN <= q <= i64::MAX,
        is_exact(q),
    ensures
        0 <= word_of(q) <= u32::MAX,
        is_finite(word_of(q) as u32),
        grid_value(word_of(q) as u32) == q,
{
    lemma2_to64();
    lemma2_to64_rest();
    if q != 0 {
        let m = if q < 0 {
            -q
        } else {
            q
        };
        let (significand, h) = rounded(m);
        lemma_rounded(m);
        let bits = word_of(q) as u32;
        let e = h + 107;
        let f = significand - 0x80_0000;
        assert(exponent_of(bits) == e && fraction_of(bits) == f && (bits >= 0x8000_0000 <==> q
            < 0)) by {
            assert(word_of(q) == (if q < 0 {
                256int
            } else {
                0int
            } + e) * 0x80_0000 + f);
        }
        lemma_steps_by_exponent(bits);
        if e >= 130 {
            lemma_pow2_adds(23, (e - 130) as nat);
            assert(significand * pow2((e - 130) as nat) == m) by (nonlinear_arith)
                requires
                    significand * pow2(h) == m * pow2(23),
                    pow2(h) == pow2(23) * pow2((e - 130) as nat),
                    pow2(23) > 0,
            ;
        } else {
            let d = pow2((130 - e) as nat) as int;
            lemma_pow2_adds(h, (130 - e) as nat);
            lemma_pow2_pos((130 - e) as nat);
            lemma_pow2_pos(h);
            lemma_pow2_unfold((130 - e) as nat);
            assert(significand == d * m) by (nonlinear_arith)
                requires
                    significand * pow2(h) == m * pow2(23),
                    pow2(23) == pow2(h) * d,
                    pow2(h) > 0,
            ;
            lemma_div_multiples_vanish_fancy(m, pow2((129 - e) as nat) as int, d);
        }
        assert(steps_of(bits) == m);
    } else {
        lemma_steps_by_exponent(0u32);
    }
}

/// The place of the highest bit of a number between two powers of two.
pub proof fn lemma_top_bit_between(m: int, h: nat)
    requires
        pow2(h) <= m < pow2(h + 1),
    ensures
        top_bit(m) == h,
{
    lemma_pow2_pos(h);
    lemma_top_bit(m);
    let t = top_bit(m);
    if t < h {
        if t + 1 < h {
            lemma_pow2_strictly_increases(t + 1, h);
        }
    } else if t > h {
        if h + 1 < t {
            lemma_pow2_strictly_increases(h + 1, t);
        }
    }
}

/// What is read can be written: the lattice coordinate of a binary32 number
/// that lies within the range of `i64` is the coordinate of a binary32
/// number.
pub proof fn lemma_quantized_is_exact(bits: u32)
    requires
        is_finite(bits),
        steps_of(bits) <= i64::MAX,
    ensures
        is_exact(grid_value(bits)),
{
    let e = exponent_of(bits);
    let m = steps_of(bits);
    let significand = 0x80_0000 + fraction_of(bits);
    lemma_steps_by_exponent(bits);
    lemma_magnitude_bounds(bits);
    lemma2_to64();
    lemma2_to64_rest();
    if m > 0 {
        if e < 130 {
            let s = (130 - e) as nat;
            let d = pow2(s) as int;
            lemma_pow2_pos(s);
            lemma_pow2_unfold(s);
            lemma_pow2_pos((s - 1) as nat);
            assert(significand + pow2((s - 1) as nat) < 0x100_0000 * d) by (nonlinear_arith)
                requires
                    significand < 0x100_0000,
                    d == 2 * pow2((s - 1) as nat),
                    pow2((s - 1) as nat) >= 1,
            ;
            vstd::arithmetic::div_mod::lemma_div_by_multiple_is_strongly_ordered(
                significand + pow2((s - 1) as nat),
                0x100_0000 * d,
                0x100_0000,
                d,
            );
            vstd::arithmetic::div_mod::lemma_div_by_multiple(0x100_0000, d);
            assert(m < 0x100_0000);
            lemma_top_bit(m);
            if top_bit(m) > 23 {
                if top_bit(m) > 24 {
                    lemma_pow2_strictly_increases(24, top_bit(m));
                }
            }
        } else {
            let k = (e - 130) as nat;
            lemma_pow2_pos(k);
            lemma_pow2_adds(23, k);
            lemma_pow2_adds(24, k);
            assert(pow2(23) * pow2(k) <= significand * pow2(k) < pow2(24) * pow2(k))
                by (nonlinear_arith)
                requires
                    pow2(23) <= significand < pow2(24),
                    pow2(k) > 0,
            ;
            lemma_top_bit_between(m, 23 + k);
            vstd::arithmetic::div_mod::lemma_mod_multiples_basic(significand, pow2(k) as int);
        }
    }
}

} // verus!
