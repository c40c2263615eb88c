use ferrex::similarity::{f32_bits_ge, f32_bits_gt, f32_bits_lt, f64_bits_gt, narrow_unit_bits};

#[test]
fn narrowing_matches_the_as_cast_on_the_unit_interval() {
    let mut samples: Vec<f64> = vec![
        0.0, 1.0, 0.5, 0.85, 0.95, 0.1, 1e-10, 1e-39, 1e-45, 7e-46, 1e-300, 5e-324,
        0.9999999999999999, 0.3333333333333333, 0.6666666666666666,
    ];
    let mut x: u64 = 0x9e37_79b9_7f4a_7c15;
    for _ in 0..20000 {
        x ^= x << 13;
        x ^= x >> 7;
        x ^= x << 17;
        let v = (x >> 11) as f64 / (1u64 << 53) as f64;
        samples.push(v);
        samples.push(v * 1e-38);
        samples.push(v * 1e-44);
    }
    for v in samples {
        assert_eq!(narrow_unit_bits(v.to_bits()), (v as f32).to_bits(), "value {v:e}");
    }
}

#[test]
fn float_bit_comparisons_follow_ieee() {
    let vals32 = [-1.0f32, -0.0, 0.0, 0.25, 0.5, 1.0, f32::INFINITY, f32::NEG_INFINITY, f32::NAN];
    for a in vals32 {
        for b in vals32 {
            assert_eq!(f32_bits_ge(a.to_bits(), b.to_bits()), a >= b, "{a} >= {b}");
            assert_eq!(f32_bits_gt(a.to_bits(), b.to_bits()), a > b, "{a} > {b}");
            assert_eq!(f32_bits_lt(a.to_bits(), b.to_bits()), a < b, "{a} < {b}");
        }
    }
    let vals64 = [-2.0f64, -0.0, 0.0, 0.85, 0.86, 1.0, f64::INFINITY, f64::NAN];
    for a in vals64 {
        for b in vals64 {
            assert_eq!(f64_bits_gt(a.to_bits(), b.to_bits()), a > b, "{a} > {b}");
        }
    }
}
