use varint::{VarIntRead, VarIntWrite};

fn frame_i32(value: i32) -> Vec<u8> {
    let mut out = Vec::new();
    let n = out.write_var_i32(value).unwrap();
    assert_eq!(n, out.len());
    out
}

fn frame_i64(value: i64) -> Vec<u8> {
    let mut out = Vec::new();
    let n = out.write_var_i64(value).unwrap();
    assert_eq!(n, out.len());
    out
}

#[test]
fn small_magnitudes_take_one_byte() {
    assert_eq!(frame_i32(0), vec![0x00]);
    assert_eq!(frame_i32(-1), vec![0x01]);
    assert_eq!(frame_i32(1), vec![0x02]);
    assert_eq!(frame_i32(-2), vec![0x03]);
    assert_eq!(frame_i32(2), vec![0x04]);
    assert_eq!(frame_i32(63), vec![0x7E]);
    assert_eq!(frame_i32(-64), vec![0x7F]);
    assert_eq!(frame_i64(-64), vec![0x7F]);
}

#[test]
fn signed_frames_go_to_two_bytes_at_64() {
    assert_eq!(frame_i32(64), vec![0x80, 0x01]);
    assert_eq!(frame_i32(-65), vec![0x81, 0x01]);
    assert_eq!(frame_i64(64), vec![0x80, 0x01]);
    assert_eq!(frame_i64(-65), vec![0x81, 0x01]);
}

#[test]
fn i32_extremes_are_five_bytes() {
    assert_eq!(frame_i32(i32::MAX), vec![0xFE, 0xFF, 0xFF, 0xFF, 0x0F]);
    assert_eq!(frame_i32(i32::MIN), vec![0xFF, 0xFF, 0xFF, 0xFF, 0x0F]);
}

#[test]
fn i64_extremes_are_nine_bytes() {
    assert_eq!(frame_i64(i64::MAX), vec![0xFE, 0xFF, 0xFF, 0xFF, 0xFF, 0xFF, 0xFF, 0xFF, 0xFF]);
    assert_eq!(frame_i64(i64::MIN), vec![0xFF; 9]);
}

#[test]
fn i32_round_trips() {
    let samples = [
        0, 1, -1, 2, -2, 63, -64, 64, -65, 8191, -8192, 8192, -8193, 1 << 27, -(1 << 27),
        i32::MAX - 1, i32::MIN + 1, i32::MAX, i32::MIN,
    ];
    for v in samples {
        let frame = frame_i32(v);
        let mut src: &[u8] = &frame;
        assert_eq!(src.read_var_i32(), Ok(v));
        assert!(src.is_empty());
    }
}

#[test]
fn i64_round_trips_within_62_bits() {
    let top: i64 = 1 << 62;
    let samples = [
        0, 1, -1, 2, -2, 63, -64, 64, -65, i32::MAX as i64, i32::MIN as i64, 1 << 40,
        -(1 << 40), top - 1, -top,
    ];
    for v in samples {
        let frame = frame_i64(v);
        let mut src: &[u8] = &frame;
        assert_eq!(src.read_var_i64(), Ok(v));
        assert!(src.is_empty());
    }
}

#[test]
fn i64_beyond_62_bits_loses_the_top_bit_of_its_image() {
    let top: i64 = 1 << 62;
    let cases = [
        (i64::MAX, top - 1),
        (i64::MIN, -top),
        (top, 0),
        (-top - 1, -1),
    ];
    for (written, read) in cases {
        let frame = frame_i64(written);
        assert_eq!(frame.len(), 9);
        let mut src: &[u8] = &frame;
        assert_eq!(src.read_var_i64(), Ok(read));
        assert!(src.is_empty());
    }
}

#[test]
fn signed_read_of_raw_bytes() {
    let mut src: &[u8] = &[0x03];
    assert_eq!(src.read_var_i32(), Ok(-2));
    let mut src: &[u8] = &[0xAC, 0x02];
    assert_eq!(src.read_var_i32(), Ok(150));
    let mut src: &[u8] = &[0xAD, 0x02];
    assert_eq!(src.read_var_i64(), Ok(-151));
}
