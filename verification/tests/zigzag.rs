use varint::{zigzag_decode_32, zigzag_decode_64, zigzag_encode_32, zigzag_encode_64};

#[test]
fn zigzag_32_orders_by_magnitude() {
    assert_eq!(zigzag_encode_32(0), 0);
    assert_eq!(zigzag_encode_32(-1), 1);
    assert_eq!(zigzag_encode_32(1), 2);
    assert_eq!(zigzag_encode_32(-2), 3);
    assert_eq!(zigzag_encode_32(2), 4);
}

#[test]
fn zigzag_64_orders_by_magnitude() {
    assert_eq!(zigzag_encode_64(0), 0);
    assert_eq!(zigzag_encode_64(-1), 1);
    assert_eq!(zigzag_encode_64(1), 2);
    assert_eq!(zigzag_encode_64(-2), 3);
    assert_eq!(zigzag_encode_64(2), 4);
}

#[test]
fn zigzag_32_extremes() {
    assert_eq!(zigzag_encode_32(i32::MAX), u32::MAX - 1);
    assert_eq!(zigzag_encode_32(i32::MIN), u32::MAX);
    assert_eq!(zigzag_decode_32(u32::MAX - 1), i32::MAX);
    assert_eq!(zigzag_decode_32(u32::MAX), i32::MIN);
}

#[test]
fn zigzag_64_extremes() {
    assert_eq!(zigzag_encode_64(i64::MAX), u64::MAX - 1);
    assert_eq!(zigzag_encode_64(i64::MIN), u64::MAX);
    assert_eq!(zigzag_decode_64(u64::MAX - 1), i64::MAX);
    assert_eq!(zigzag_decode_64(u64::MAX), i64::MIN);
}

#[test]
fn zigzag_decode_small_values() {
    assert_eq!(zigzag_decode_32(0), 0);
    assert_eq!(zigzag_decode_32(1), -1);
    assert_eq!(zigzag_decode_32(2), 1);
    assert_eq!(zigzag_decode_32(3), -2);
    assert_eq!(zigzag_decode_32(4), 2);
    assert_eq!(zigzag_decode_64(0), 0);
    assert_eq!(zigzag_decode_64(1), -1);
    assert_eq!(zigzag_decode_64(2), 1);
    assert_eq!(zigzag_decode_64(3), -2);
    assert_eq!(zigzag_decode_64(4), 2);
}

#[test]
fn zigzag_32_round_trips() {
    let samples = [
        0, 1, -1, 2, -2, 63, -64, 64, -65, 8191, -8192, 1 << 20, -(1 << 20), i32::MAX - 1,
        i32::MIN + 1, i32::MAX, i32::MIN,
    ];
    for v in samples {
        assert_eq!(zigzag_decode_32(zigzag_encode_32(v)), v);
    }
    for u in [0u32, 1, 2, 3, 4, 127, 128, 1 << 31, u32::MAX - 1, u32::MAX] {
        assert_eq!(zigzag_encode_32(zigzag_decode_32(u)), u);
    }
}

#[test]
fn zigzag_64_round_trips() {
    let samples = [
        0, 1, -1, 2, -2, 63, -64, 64, -65, 1 << 40, -(1 << 40), i64::MAX - 1, i64::MIN + 1,
        i64::MAX, i64::MIN,
    ];
    for v in samples {
        assert_eq!(zigzag_decode_64(zigzag_encode_64(v)), v);
    }
    for u in [0u64, 1, 2, 3, 4, 127, 128, 1 << 63, u64::MAX - 1, u64::MAX] {
        assert_eq!(zigzag_encode_64(zigzag_decode_64(u)), u);
    }
}

#[test]
fn zigzag_32_is_injective_on_a_window() {
    let mut seen = Vec::new();
    for v in -500..500 {
        let u = zigzag_encode_32(v);
        assert!(!seen.contains(&u));
        seen.push(u);
    }
    assert_eq!(seen.len(), 1000);
    assert!(seen.iter().all(|u| *u < 1000));
}
