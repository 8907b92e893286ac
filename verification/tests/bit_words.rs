use voicecall::bits::{bits_to_le_bytes, u32_to_binary};

#[test]
fn u32_to_binary_small() {
    let b = u32_to_binary(5);
    let mut want = [0u8; 32];
    want[29] = 1;
    want[31] = 1;
    assert_eq!(b, want);
    assert_eq!(u32_to_binary(0), [0u8; 32]);
    assert_eq!(u32_to_binary(u32::MAX), [1u8; 32]);
    let top = u32_to_binary(0x8000_0000);
    assert_eq!(top[0], 1);
    assert!(top[1..].iter().all(|&x| x == 0));
}

#[test]
fn float_bits_pack_to_le_bytes() {
    let f = 12.5f32;
    let y = u32_to_binary(f.to_bits());
    assert_eq!(bits_to_le_bytes(y), f.to_bits().to_le_bytes());
}

#[test]
fn binary_then_bytes_is_le_bytes() {
    for n in [0u32, 1, 255, 256, 0x1234_5678, 0xdead_beef, u32::MAX] {
        assert_eq!(bits_to_le_bytes(u32_to_binary(n)), n.to_le_bytes());
    }
}

#[test]
fn bits_to_le_bytes_counts_only_ones() {
    let mut y = [2u8; 32];
    y[31] = 1;
    y[24] = 1;
    y[0] = 1;
    assert_eq!(bits_to_le_bytes(y), [0x81, 0, 0, 0x80]);
}
