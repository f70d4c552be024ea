use exey_engine::demo::rng::DemoRng;
use exey_engine::demo::single::{
    added, apart, byte_of, divided, halved, is_at_most, multiplied, single_of, Single,
};

/// The float that a number stands for.
fn float(s: Single) -> f32 {
    let exact = s.m as f64 * 2.0f64.powi(s.e);
    let f = exact as f32;
    assert_eq!(f as f64, exact);
    f
}

/// Integers of all magnitudes.
fn integers() -> Vec<u32> {
    let mut rng = DemoRng::new(7);
    let mut list = vec![0, 1, 2, 3, 0xff_ffff, 0x100_0000, 0x100_0001, 0x100_0003, u32::MAX];
    for bits in 1..32 {
        for _ in 0..4 {
            list.push(rng.next_u32() >> (32 - bits));
        }
    }
    list
}

#[test]
fn integers_round_like_floats() {
    for n in integers() {
        assert_eq!(float(single_of(n)), n as f32, "{n}");
        assert_eq!(float(halved(single_of(n))), n as f32 * 0.5, "{n}");
    }
    // Ties go to the even significand.
    assert_eq!(float(single_of(0x100_0001)), 0x100_0000 as f32);
    assert_eq!(float(single_of(0x100_0003)), 0x100_0004 as f32);
}

#[test]
fn operations_round_like_floats() {
    let list = integers();
    for &i in &list {
        for &j in &list {
            let (a, b) = (single_of(i), single_of(j));
            let (x, y) = (i as f32, j as f32);
            assert_eq!(float(added(a, b)), x + y, "{i} + {j}");
            assert_eq!(float(apart(a, b)), (x - y).abs(), "{i} - {j}");
            assert_eq!(float(multiplied(a, b)), x * y, "{i} * {j}");
            assert_eq!(is_at_most(a, b), x <= y, "{i} <= {j}");
            if j > 0 {
                let (q, f) = (divided(a, b), x / y);
                assert_eq!(float(q), f, "{i} / {j}");
                assert_eq!(byte_of(q), f as u8, "{i} / {j} as a byte");
                // Fractions as operands.
                assert_eq!(float(added(q, halved(b))), f + y * 0.5);
                assert_eq!(float(apart(q, single_of(1))), (f - 1.0).abs());
                assert_eq!(float(multiplied(q, q)), f * f);
            }
        }
    }
}

#[test]
fn distances_to_a_middle_are_exact() {
    for n in [1u32, 2, 63, 127, 4095, 0xff_ffff] {
        for x in [0u32, 1, 2, 31, 0xff_fffe] {
            let d = float(apart(single_of(x), halved(single_of(n))));
            assert_eq!(d as f64, (x as f64 - n as f64 * 0.5).abs() as f32 as f64);
        }
    }
}
