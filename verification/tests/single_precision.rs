use matrix_telemetry::overlay::whole_string;
use matrix_telemetry::single::Single;

fn edge_patterns() -> Vec<u32> {
    let mut v = vec![
        0x0000_0000, 0x0000_0001, 0x0000_0002, 0x0000_0003, 0x007f_ffff, 0x0080_0000, 0x0080_0001,
        0x00ff_ffff, 0x0100_0000, 0x3380_0000, 0x3400_0000, 0x3d23_d70a, 0x3e19_999a, 0x3f00_0000,
        0x3f19_999a, 0x3f7f_ffff, 0x3f80_0000, 0x3f80_0001, 0x3fe6_6666, 0x4000_0000, 0x4040_0000,
        0x4060_0000, 0x42c8_0000, 0x437f_0000, 0x4b00_0000, 0x4b7f_ffff, 0x4b80_0000, 0x4f00_0000,
        0x5f00_0000, 0x7e80_0000, 0x7f00_0000, 0x7f7f_fffe, 0x7f7f_ffff, 0x7f80_0000, 0x7fc0_0000,
        0x7f80_0001,
    ];
    let negative: Vec<u32> = v.iter().map(|b| b | 0x8000_0000).collect();
    v.extend(negative);
    v
}

fn random_patterns(n: usize, mut seed: u64) -> Vec<u32> {
    let mut v = Vec::new();
    for _ in 0..n {
        seed = seed.wrapping_mul(6364136223846793005).wrapping_add(1442695040888963407);
        v.push((seed >> 32) as u32);
    }
    v
}

fn same(got: Single, want: f32) -> bool {
    if want.is_nan() {
        got.bits == 0x7fc0_0000
    } else {
        got.bits == want.to_bits()
    }
}

fn agree(a: u32, b: u32) {
    let (x, y) = (f32::from_bits(a), f32::from_bits(b));
    let (p, q) = (Single::from_bits(a), Single::from_bits(b));
    assert!(same(p.plus(q), x + y), "{a:x} + {b:x}");
    assert!(same(p.minus(q), x - y), "{a:x} - {b:x}");
    assert!(same(p.times(q), x * y), "{a:x} * {b:x}");
    assert!(same(p.over(q), x / y), "{a:x} / {b:x}");
    assert_eq!(p.is_less(q), x < y, "{a:x} < {b:x}");
    assert_eq!(p.is_at_most(q), x <= y, "{a:x} <= {b:x}");
}

#[test]
fn operations_agree_with_the_hardware_on_edges() {
    let v = edge_patterns();
    for a in &v {
        for b in &v {
            agree(*a, *b);
        }
    }
}

#[test]
fn operations_agree_with_the_hardware_on_random_patterns() {
    let a = random_patterns(100_000, 1);
    let b = random_patterns(100_000, 2);
    for i in 0..a.len() {
        agree(a[i], b[i]);
    }
}

#[test]
fn operations_agree_with_the_hardware_on_close_exponents() {
    let a = random_patterns(100_000, 3);
    let b = random_patterns(100_000, 4);
    for i in 0..a.len() {
        let x = a[i];
        let shift = (b[i] >> 24) % 40;
        let exponent = ((x >> 23) & 0xff).saturating_sub(shift);
        let y = (b[i] & 0x807f_ffff) | (exponent << 23);
        agree(x, y);
    }
}

#[test]
fn operations_agree_with_the_hardware_on_small_results() {
    let a = random_patterns(50_000, 5);
    let b = random_patterns(50_000, 6);
    for i in 0..a.len() {
        let x = (a[i] & 0x80ff_ffff) | 0x1f00_0000;
        let y = (b[i] & 0x80ff_ffff) | 0x2000_0000;
        agree(x, y);
        agree(a[i] & 0x80ff_ffff, b[i] & 0x80ff_ffff);
    }
}

#[test]
fn whole_numbers_round_as_casts() {
    for n in [0u64, 1, 2, 9, 65535, 16_777_215, 16_777_216, 16_777_217, 16_777_219, u64::MAX, u64::MAX / 3] {
        assert_eq!(Single::from_u64(n).bits, (n as f32).to_bits());
    }
    for r in random_patterns(20_000, 7) {
        let n = (r as u64).wrapping_mul(0x9e37_79b9_7f4a_7c15) >> (r % 64);
        assert_eq!(Single::from_u64(n).bits, (n as f32).to_bits());
    }
}

#[test]
fn floors_agree_with_the_hardware() {
    let mut v = edge_patterns();
    v.extend(random_patterns(50_000, 8));
    for k in 0..4000 {
        v.push((k as f32 / 7.0 - 280.0).to_bits());
    }
    for b in v {
        let x = f32::from_bits(b);
        assert_eq!(Single::from_bits(b).floor_i32(), x.floor() as i32, "{x}");
        assert_eq!(Single::from_bits(b).floor_u8(), x as u8, "{x}");
    }
}

#[test]
fn floors_go_down_below_zero() {
    assert_eq!(Single::from_bits((-0.5f32).to_bits()).floor_i32(), -1);
    assert_eq!(Single::from_bits((-1.0f32).to_bits()).floor_i32(), -1);
    assert_eq!(Single::from_bits(0.99f32.to_bits()).floor_i32(), 0);
    assert_eq!(Single::from_bits(f32::NAN.to_bits()).floor_i32(), 0);
    assert_eq!(Single::from_bits(f32::INFINITY.to_bits()).floor_i32(), i32::MAX);
    assert_eq!(Single::from_bits(f32::NEG_INFINITY.to_bits()).floor_i32(), i32::MIN);
}

#[test]
fn clamping_agrees_with_the_hardware() {
    let lo = Single::from_bits(0.04f32.to_bits());
    let hi = Single::from_bits(1.0f32.to_bits());
    let mut v = edge_patterns();
    v.extend(random_patterns(20_000, 9));
    for b in v {
        let want = f32::from_bits(b).clamp(0.04, 1.0);
        let got = Single::from_bits(b).clamp(lo, hi);
        assert!(same(got, want) || (want.is_nan() && f32::from_bits(got.bits).is_nan()));
    }
}

#[test]
fn negation_flips_the_sign() {
    for b in edge_patterns() {
        assert_eq!(Single::from_bits(b).negated().bits, b ^ 0x8000_0000);
    }
}

#[test]
fn whole_text_agrees_with_formatting() {
    let mut v = edge_patterns();
    v.extend(random_patterns(20_000, 10));
    for k in 0..2000 {
        v.push((k as f32 / 8.0).to_bits());
        v.push((-(k as f32) / 8.0).to_bits());
    }
    for b in v {
        let x = f32::from_bits(b);
        assert_eq!(whole_string(Single::from_bits(b)), format!("{:.0}", x), "{b:x}");
    }
}

#[test]
fn signs_and_classes() {
    assert!(Single::from_bits(0x8000_0000).sign_bit());
    assert!(!Single::from_bits(0).sign_bit());
    assert!(Single::from_bits(0x7f80_0001).is_not_a_number());
    assert!(Single::from_bits(0xff80_0000).is_infinity());
    assert!(!Single::from_bits(0x7f7f_ffff).is_infinity());
    assert_eq!(Single::from_bits(2.5f32.to_bits()).nearest_whole_magnitude(), 2);
    assert_eq!(Single::from_bits((-3.5f32).to_bits()).nearest_whole_magnitude(), 4);
}
