use flatbin::ieee::{bits_from_i64, bits_from_u64};

#[test]
fn unsigned_bits_match_hardware() {
    let samples: [u64; 20] = [
        0,
        1,
        2,
        27,
        56,
        1023,
        4096,
        (1 << 52) - 1,
        1 << 52,
        (1 << 53) - 1,
        1 << 53,
        (1 << 53) + 1,
        (1 << 53) + 2,
        (1 << 53) + 3,
        (1 << 60) + 12345,
        u64::MAX,
        u64::MAX - 1,
        u64::MAX / 3,
        0x8000_0000_0000_0000,
        0xFFFF_FFFF_FFFF_FC00,
    ];
    for n in samples {
        assert_eq!(bits_from_u64(n), (n as f64).to_bits(), "value {}", n);
    }
    for n in 0..10_000u64 {
        let v = n.wrapping_mul(0x9E37_79B9_7F4A_7C15);
        assert_eq!(bits_from_u64(v), (v as f64).to_bits(), "value {}", v);
    }
}

#[test]
fn signed_bits_match_hardware() {
    let samples: [i64; 12] = [
        0,
        1,
        -1,
        -27,
        -56,
        -(1 << 52),
        -(1 << 53) - 1,
        (1 << 53) + 1,
        i64::MAX,
        i64::MIN,
        i64::MIN + 1,
        -123_456_789_012_345,
    ];
    for v in samples {
        assert_eq!(bits_from_i64(v), (v as f64).to_bits(), "value {}", v);
    }
}
