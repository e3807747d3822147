use varint::{VarIntRead, VarIntWrite, MAX_LEN_32, MAX_LEN_64};

fn frame_u32(value: u32) -> Vec<u8> {
    let mut out = Vec::new();
    let n = out.write_var_u32(value).unwrap();
    assert_eq!(n, out.len());
    out
}

fn frame_u64(value: u64) -> Vec<u8> {
    let mut out = Vec::new();
    let n = out.write_var_u64(value).unwrap();
    assert_eq!(n, out.len());
    out
}

#[test]
fn zero_is_one_zero_byte() {
    assert_eq!(frame_u32(0), vec![0x00]);
    assert_eq!(frame_u64(0), vec![0x00]);
}

#[test]
fn one_byte_up_to_127() {
    assert_eq!(frame_u32(1), vec![0x01]);
    assert_eq!(frame_u32(127), vec![0x7F]);
    assert_eq!(frame_u64(127), vec![0x7F]);
}

#[test]
fn two_bytes_from_128() {
    assert_eq!(frame_u32(128), vec![0x80, 0x01]);
    assert_eq!(frame_u64(128), vec![0x80, 0x01]);
    assert_eq!(frame_u32(300), vec![0xAC, 0x02]);
    assert_eq!(frame_u32(16383), vec![0xFF, 0x7F]);
    assert_eq!(frame_u32(16384), vec![0x80, 0x80, 0x01]);
}

#[test]
fn u32_max_is_five_bytes() {
    assert_eq!(frame_u32(u32::MAX), vec![0xFF, 0xFF, 0xFF, 0xFF, 0x0F]);
    assert_eq!(frame_u32(u32::MAX).len(), MAX_LEN_32);
}

#[test]
fn u64_max_is_nine_bytes() {
    assert_eq!(frame_u64(u64::MAX), vec![0xFF; 9]);
    assert_eq!(frame_u64(u64::MAX).len(), MAX_LEN_64);
}

#[test]
fn u64_frames_at_the_boundaries() {
    assert_eq!(frame_u64(u32::MAX as u64), vec![0xFF, 0xFF, 0xFF, 0xFF, 0x0F]);
    assert_eq!(frame_u64(1 << 35), vec![0x80, 0x80, 0x80, 0x80, 0x80, 0x01]);
    assert_eq!(frame_u64((1 << 56) - 1), vec![0xFF, 0xFF, 0xFF, 0xFF, 0xFF, 0xFF, 0xFF, 0x7F]);
    assert_eq!(
        frame_u64(1 << 56),
        vec![0x80, 0x80, 0x80, 0x80, 0x80, 0x80, 0x80, 0x80, 0x01]
    );
    assert_eq!(
        frame_u64((1 << 63) - 1),
        vec![0xFF, 0xFF, 0xFF, 0xFF, 0xFF, 0xFF, 0xFF, 0xFF, 0x7F]
    );
    assert_eq!(
        frame_u64(1 << 63),
        vec![0x80, 0x80, 0x80, 0x80, 0x80, 0x80, 0x80, 0x80, 0x80]
    );
}

#[test]
fn frame_length_grows_every_seven_bits() {
    for bits in 0..32u32 {
        let v = 1u32 << bits;
        assert_eq!(frame_u32(v).len(), (bits / 7 + 1) as usize);
        assert_eq!(frame_u32(v - 1).len(), (bits.max(1) - 1) as usize / 7 + 1);
    }
    for bits in 0..63u32 {
        let v = 1u64 << bits;
        assert_eq!(frame_u64(v).len(), (bits / 7 + 1) as usize);
    }
}

#[test]
fn continuation_flag_marks_all_but_the_last_byte() {
    for v in [0u32, 5, 127, 128, 300, 70000, 1 << 28, u32::MAX] {
        let frame = frame_u32(v);
        let (last, head) = frame.split_last().unwrap();
        assert!(head.iter().all(|b| b & 0x80 != 0));
        assert_eq!(last & 0x80, 0);
    }
}

#[test]
fn u32_round_trips() {
    let samples = [
        0u32, 1, 2, 126, 127, 128, 129, 255, 256, 300, 16383, 16384, 2097151, 2097152,
        268435455, 268435456, 0x7FFF_FFFF, 0x8000_0000, u32::MAX - 1, u32::MAX,
    ];
    for v in samples {
        let frame = frame_u32(v);
        let mut src: &[u8] = &frame;
        assert_eq!(src.read_var_u32(), Ok(v));
        assert!(src.is_empty());
    }
}

#[test]
fn u64_round_trips_below_two_to_the_63() {
    let samples = [
        0u64, 1, 127, 128, 300, 16384, u32::MAX as u64, 1 << 32, 1 << 35, (1 << 56) - 1, 1 << 56,
        1 << 62, (1 << 63) - 2, (1 << 63) - 1,
    ];
    for v in samples {
        let frame = frame_u64(v);
        let mut src: &[u8] = &frame;
        assert_eq!(src.read_var_u64(), Ok(v));
        assert!(src.is_empty());
    }
}

#[test]
fn u64_top_bit_is_not_read_back() {
    for v in [1u64 << 63, (1 << 63) + 5, u64::MAX - 1, u64::MAX] {
        let frame = frame_u64(v);
        assert_eq!(frame.len(), 9);
        let mut src: &[u8] = &frame;
        assert_eq!(src.read_var_u64(), Ok(v & !(1 << 63)));
        assert!(src.is_empty());
    }
}

#[test]
fn non_minimal_frames_are_read() {
    let mut src: &[u8] = &[0x80, 0x00];
    assert_eq!(src.read_var_u32(), Ok(0));
    assert!(src.is_empty());
    let mut src: &[u8] = &[0x81, 0x80, 0x80, 0x00, 0x55];
    assert_eq!(src.read_var_u64(), Ok(1));
    assert_eq!(src, &[0x55u8][..]);
}

#[test]
fn u32_read_stops_at_the_fifth_byte() {
    let mut src: &[u8] = &[0xFF, 0xFF, 0xFF, 0xFF, 0xFF, 0xFF, 0x01];
    assert_eq!(src.read_var_u32(), Ok(u32::MAX));
    assert_eq!(src, &[0xFFu8, 0x01][..]);
}

#[test]
fn u32_read_drops_bits_above_bit_31() {
    let mut src: &[u8] = &[0x80, 0x80, 0x80, 0x80, 0x70];
    assert_eq!(src.read_var_u32(), Ok(0));
    let mut src: &[u8] = &[0x81, 0x80, 0x80, 0x80, 0x7F];
    assert_eq!(src.read_var_u32(), Ok(0xF000_0001));
}

#[test]
fn u64_read_stops_at_the_ninth_byte() {
    let mut src: &[u8] = &[0xFF; 12];
    assert_eq!(src.read_var_u64(), Ok((1 << 63) - 1));
    assert_eq!(src.len(), 3);
    let mut src: &[u8] = &[0x80, 0x80, 0x80, 0x80, 0x80, 0x80, 0x80, 0x80, 0x81, 0x07];
    assert_eq!(src.read_var_u64(), Ok(1 << 56));
    assert_eq!(src, &[0x07u8][..]);
}

#[test]
fn read_combines_groups_least_significant_first() {
    let mut src: &[u8] = &[0xE5, 0x8E, 0x26];
    assert_eq!(src.read_var_u32(), Ok(624485));
    let mut src: &[u8] = &[0xE5, 0x8E, 0x26];
    assert_eq!(src.read_var_u64(), Ok(624485));
    assert_eq!(frame_u32(624485), vec![0xE5, 0x8E, 0x26]);
}
