use std::cmp::Ordering;
use std::collections::hash_map::DefaultHasher;
use std::hash::{Hash, Hasher};
use stl::quantize::{dequantize, highest_bit, quantize};
use stl::scalar::{ceil_sqrt, clamp, midpoint, ratio};
use stl::vertex::LineSegment;
use stl::{Normal, Point, Triangle};

fn reference(x: f32) -> i64 {
    (x * 1024.0 * 1024.0).round() as i64
}

#[test]
fn quantize_agrees_with_the_scaled_and_rounded_number() {
    let samples: [f32; 40] = [
        0.0,
        -0.0,
        1.0,
        -1.0,
        0.5,
        0.75,
        0.001,
        5.001,
        1.5,
        1.75,
        100.0,
        -100.0,
        3.14159265,
        -2.71828,
        1.0e-6,
        -1.0e-6,
        4.76837158203125e-7,
        -4.76837158203125e-7,
        4.7683713e-7,
        4.768372e-7,
        9.5367431640625e-7,
        1.4305114746e-6,
        1.0e-7,
        1.0e-30,
        1.0e-40,
        f32::MIN_POSITIVE,
        123456.789,
        -123456.789,
        8388608.0,
        16777216.0,
        1.0e10,
        -1.0e10,
        8.7e12,
        8.8e12,
        9.0e12,
        1.0e19,
        -1.0e19,
        1.0e30,
        f32::MAX,
        f32::MIN,
    ];
    for x in samples {
        assert_eq!(quantize(x.to_bits()), reference(x), "for {:?}", x);
    }
}

#[test]
fn quantize_agrees_on_a_sweep_of_bit_patterns() {
    let mut bits: u32 = 0;
    let mut count = 0;
    loop {
        let x = f32::from_bits(bits);
        assert_eq!(quantize(bits), reference(x), "for bits {:#x}", bits);
        count += 1;
        match bits.checked_add(40_503) {
            Some(next) => bits = next,
            None => break,
        }
    }
    assert!(count > 100_000);
}

#[test]
fn quantize_of_what_is_no_number_is_zero_and_of_infinity_the_bound() {
    assert_eq!(quantize(f32::NAN.to_bits()), 0);
    assert_eq!(quantize(0x7fc0_0001), 0);
    assert_eq!(quantize(0xffff_ffff), 0);
    assert_eq!(quantize(f32::INFINITY.to_bits()), i64::MAX);
    assert_eq!(quantize(f32::NEG_INFINITY.to_bits()), i64::MIN);
}

#[test]
fn quantize_has_exact_values() {
    assert_eq!(quantize(1.0f32.to_bits()), 1_048_576);
    assert_eq!(quantize(0.5f32.to_bits()), 524_288);
    assert_eq!(quantize((-2.0f32).to_bits()), -2_097_152);
    // half a step rounds away from zero
    assert_eq!(quantize(4.76837158203125e-7f32.to_bits()), 1);
    assert_eq!(quantize((-4.76837158203125e-7f32).to_bits()), -1);
    // just under half a step rounds to zero
    assert_eq!(quantize(4.7683713e-7f32.to_bits()), 0);
    // one and a half steps round to two
    assert_eq!(quantize(1.430511474609375e-6f32.to_bits()), 2);
}

fn written(q: i64) -> u32 {
    (q as f32 / 1024.0 / 1024.0).to_bits()
}

#[test]
fn dequantize_agrees_with_the_number_of_the_coordinate() {
    let samples: [i64; 36] = [
        0,
        1,
        -1,
        2,
        3,
        1_048_576,
        -1_048_576,
        524_288,
        1_572_864,
        16_777_215,
        16_777_216,
        16_777_217,
        16_777_218,
        16_777_219,
        33_554_430,
        33_554_431,
        33_554_433,
        33_554_434,
        33_554_435,
        -33_554_435,
        123_456_789_012,
        -123_456_789_012,
        (1 << 40) + (1 << 16),
        (1 << 40) + (1 << 16) + 1,
        (1 << 40) + 3 * (1 << 16),
        (1 << 40) - 1,
        (1 << 62) - 1,
        1 << 62,
        (1 << 62) + (1 << 38),
        (1 << 62) + (1 << 38) + 1,
        i64::MAX,
        i64::MAX - (1 << 38),
        i64::MAX - (1 << 38) - 1,
        i64::MIN,
        i64::MIN + 1,
        i64::MIN + (1 << 39),
    ];
    for q in samples {
        assert_eq!(dequantize(q), written(q), "for {}", q);
    }
}

#[test]
fn dequantize_agrees_on_a_sweep_of_coordinates() {
    let mut q: i64 = i64::MIN;
    let mut count = 0;
    loop {
        assert_eq!(dequantize(q), written(q), "for {}", q);
        assert_eq!(dequantize(q >> 20), written(q >> 20), "for {}", q >> 20);
        assert_eq!(dequantize(q >> 38), written(q >> 38), "for {}", q >> 38);
        count += 1;
        match q.checked_add(0x0000_3a5f_1234_5677) {
            Some(next) => q = next,
            None => break,
        }
    }
    assert!(count > 100_000);
}

#[test]
fn dequantize_has_exact_values() {
    assert_eq!(dequantize(0), 0);
    assert_eq!(dequantize(1_048_576), 1.0f32.to_bits());
    assert_eq!(dequantize(-2_097_152), (-2.0f32).to_bits());
    assert_eq!(dequantize(1), 9.5367431640625e-7f32.to_bits());
    assert_eq!(dequantize(1_572_864), 1.5f32.to_bits());
    // 2^24 + 1 lies halfway between two numbers and goes to the even one
    assert_eq!(dequantize(16_777_217), 16.0f32.to_bits());
    assert_eq!(dequantize(16_777_219), (16.0f32 + 4.0 / 1_048_576.0).to_bits());
}

#[test]
fn what_was_read_is_written_as_it_was() {
    let mut bits: u32 = 0;
    loop {
        let x = f32::from_bits(bits);
        let q = quantize(bits);
        if x.is_finite() && q != i64::MAX && q != i64::MIN && q != 0 {
            let back = f32::from_bits(dequantize(q));
            assert_eq!(quantize(back.to_bits()), q);
            if x.abs() >= 16.0 {
                assert_eq!(back, x);
            }
        }
        match bits.checked_add(104_729) {
            Some(next) => bits = next,
            None => break,
        }
    }
}

#[test]
fn highest_bit_values() {
    assert_eq!(highest_bit(1), 0);
    assert_eq!(highest_bit(2), 1);
    assert_eq!(highest_bit(3), 1);
    assert_eq!(highest_bit(4), 2);
    assert_eq!(highest_bit(0x00ff_ffff), 23);
    assert_eq!(highest_bit(0x0100_0000), 24);
    assert_eq!(highest_bit(u64::MAX), 63);
    assert_eq!(highest_bit(1 << 63), 63);
}

#[test]
fn points_nearer_than_a_step_can_be_equal_and_points_a_step_apart_are_not() {
    let step = 1.0f32 / 1_048_576.0;
    let p = |x: f32| Point::new(quantize(x.to_bits()), quantize(x.to_bits()), 0);
    // within one cell of the lattice
    assert_eq!(p(1.0), p(1.0 + 0.25 * step));
    assert_eq!(p(0.0), p(0.4 * step));
    assert_eq!(p(0.0), p(-0.4 * step));
    // a whole step apart
    assert_ne!(p(1.0), p(1.0 + step));
    assert_ne!(p(0.0), p(step));
    assert_ne!(p(-0.5 * step), p(0.5 * step));
    assert_ne!(p(3.0), p(3.0 + 2.0 * step));
}

#[test]
fn points_nearer_than_a_step_can_differ_across_a_cell_border() {
    let step = 1.0f32 / 1_048_576.0;
    let a = quantize((0.45 * step).to_bits());
    let b = quantize((0.55 * step).to_bits());
    assert_eq!(a, 0);
    assert_eq!(b, 1);
}

#[test]
fn equal_points_hash_alike() {
    let step = 1.0f32 / 1_048_576.0;
    let p = Point::new(quantize(1.0f32.to_bits()), 0, 0);
    let q = Point::new(quantize((1.0f32 + 0.25 * step).to_bits()), 0, 0);
    let mut hp = DefaultHasher::new();
    let mut hq = DefaultHasher::new();
    p.hash(&mut hp);
    q.hash(&mut hq);
    assert_eq!(p, q);
    assert_eq!(hp.finish(), hq.finish());
}

#[test]
fn point_arithmetic_is_componentwise() {
    let a = Point::new(1, 2, 3);
    let b = Point::new(10, -20, 30);
    assert_eq!(a + b, Point::new(11, -18, 33));
    assert_eq!(a - b, Point::new(-9, 22, -27));
    assert_eq!(a * b, Point::new(10, -40, 90));
    assert_eq!(-b, Point::new(-10, 20, -30));
    assert_eq!(b / 2, Point::new(5, -10, 15));
    assert_eq!(Point::new(7, -7, 1) / 2, Point::new(3, -3, 0));
}

#[test]
fn point_arithmetic_saturates() {
    let top = Point::new(i64::MAX, i64::MAX, i64::MAX);
    let bottom = Point::new(i64::MIN, i64::MIN, i64::MIN);
    let one = Point::new(1, 1, 1);
    assert_eq!(top + one, top);
    assert_eq!(bottom - one, bottom);
    assert_eq!(top * Point::new(2, -2, 1), Point::new(i64::MAX, i64::MIN, i64::MAX));
    assert_eq!(-bottom, top);
    assert_eq!(bottom.abs(), top);
    assert_eq!(bottom / -1, top);
}

#[test]
fn division_by_zero_gives_the_bound_on_the_side_of_the_number() {
    assert_eq!(Point::new(5, -5, 0) / 0, Point::new(i64::MAX, i64::MIN, 0));
    assert_eq!(ratio(7, 2), 3);
    assert_eq!(ratio(-7, 2), -3);
    assert_eq!(ratio(7, -2), -3);
    assert_eq!(ratio(-7, -2), 3);
}

#[test]
fn half_is_rounded_up() {
    assert_eq!(Point::new(4, 5, 0).half(), Point::new(2, 3, 0));
    assert_eq!(Point::new(1, -1, -5).half(), Point::new(1, 0, -2));
    assert_eq!(Point::new(i64::MAX, i64::MIN, -2).half(), Point::new(1 << 62, -(1 << 62), -1));
}

#[test]
fn abs_and_sign() {
    let p = Point::new(-3, 0, 4);
    assert_eq!(p.abs(), Point::new(3, 0, 4));
    assert_eq!(p.sign(), (-1, 1, 1));
    assert_eq!(Point::new(1, -1, -9).sign(), (1, -1, -1));
}

#[test]
fn normalize_gives_the_coordinates() {
    assert_eq!(Point::new(1, -2, 3).normalize(), (1, -2, 3));
    assert_eq!(Normal { i: 4, j: 5, k: -6 }.normalize(), (4, 5, -6));
    assert_eq!(Normal::zero(), Normal { i: 0, j: 0, k: 0 });
}

#[test]
fn distance_is_the_length_rounded_up() {
    let o = Point::new(0, 0, 0);
    assert_eq!(o.distance(&Point::new(3, 4, 0)), 5);
    assert_eq!(o.distance(&Point::new(0, 0, 0)), 0);
    assert_eq!(o.distance(&Point::new(1, 1, 0)), 2);
    assert_eq!(o.distance(&Point::new(1, 1, 1)), 2);
    assert_eq!(o.distance(&Point::new(2, 3, 6)), 7);
    assert_eq!(Point::new(-1, -2, -3).distance(&Point::new(1, 1, 3)), 7);
    assert_eq!(o.distance(&Point::new(10, 0, 0)), 10);
    assert_eq!(o.distance(&Point::new(10, 1, 0)), 11);
}

#[test]
fn distance_saturates() {
    let a = Point::new(i64::MIN, i64::MIN, i64::MIN);
    let b = Point::new(i64::MAX, i64::MAX, i64::MAX);
    assert_eq!(a.distance(&b), i64::MAX);
    assert_eq!(Point::new(0, 0, 0).distance(&Point::new(i64::MAX, 0, 0)), i64::MAX);
    assert_eq!(Point::new(0, 0, 0).distance(&Point::new(i64::MAX, 1, 0)), i64::MAX);
    assert_eq!(Point::new(0, 0, 0).distance(&Point::new(i64::MAX - 1, 0, 0)), i64::MAX - 1);
}

#[test]
fn ceil_sqrt_values() {
    assert_eq!(ceil_sqrt(0), 0);
    assert_eq!(ceil_sqrt(1), 1);
    assert_eq!(ceil_sqrt(2), 2);
    assert_eq!(ceil_sqrt(4), 2);
    assert_eq!(ceil_sqrt(5), 3);
    assert_eq!(ceil_sqrt(1_000_000), 1000);
    assert_eq!(ceil_sqrt(1_000_001), 1001);
    assert_eq!(ceil_sqrt(u128::MAX), 1u128 << 64);
    assert_eq!(ceil_sqrt((1u128 << 126) + 1), (1u128 << 63) + 1);
}

#[test]
fn clamp_and_midpoint() {
    assert_eq!(clamp(5), 5);
    assert_eq!(clamp(i64::MAX as i128 + 1), i64::MAX);
    assert_eq!(clamp(i64::MIN as i128 - 1), i64::MIN);
    assert_eq!(midpoint(0, 10), 5);
    assert_eq!(midpoint(-3, 0), -2);
    assert_eq!(midpoint(-3, -4), -4);
    assert_eq!(midpoint(i64::MIN, i64::MAX), -1);
    assert_eq!(midpoint(i64::MAX, i64::MAX), i64::MAX);
}

#[test]
fn partial_cmp_needs_all_axes_to_agree() {
    let a = Point::new(1, 1, 1);
    assert_eq!(a.partial_cmp(&Point::new(2, 2, 2)), Some(Ordering::Less));
    assert_eq!(a.partial_cmp(&Point::new(0, 0, 0)), Some(Ordering::Greater));
    assert_eq!(a.partial_cmp(&Point::new(1, 1, 1)), Some(Ordering::Equal));
    assert_eq!(a.partial_cmp(&Point::new(2, 0, 1)), None);
    assert_eq!(a.partial_cmp(&Point::new(2, 2, 1)), None);
    assert_eq!(a.partial_cmp(&Point::new(1, 1, 2)), None);
    assert!(a < Point::new(2, 2, 2));
    assert!(!(a < Point::new(2, 2, 1)));
    assert!(a >= Point::new(1, 1, 1));
}

#[test]
fn edges_run_from_each_vertex_to_the_next() {
    let t = Triangle {
        normal: Normal::zero(),
        v0: Point::new(0, 0, 0),
        v1: Point::new(3, 0, 0),
        v2: Point::new(3, 4, 0),
    };
    let e = t.edges();
    assert_eq!(e[0], LineSegment { start: t.v0, end: t.v1 });
    assert_eq!(e[1], LineSegment { start: t.v1, end: t.v2 });
    assert_eq!(e[2], LineSegment { start: t.v2, end: t.v0 });
    assert_eq!(e[0].length(), 3);
    assert_eq!(e[1].length(), 4);
    assert_eq!(e[2].length(), 5);
    assert_eq!(t.longest_edge(), 5);
}
