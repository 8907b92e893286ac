use voicecall::sample::{type_size, ConvertBytes, F32Bits, SampleKind, QueuedSample};
use voicecall::packet::{decode_packet_header, AudioPacket, HEADER_SIZE, MAX_BYTES};

#[test]
fn type_size_per_format() {
    assert_eq!(type_size(SampleKind::F32), 4);
    assert_eq!(type_size(SampleKind::I16), 2);
    assert_eq!(type_size(SampleKind::U16), 2);
}

#[test]
fn sample_bytes_are_native_order() {
    let a: i16 = -2;
    assert_eq!(ConvertBytes::to_ne_bytes(&a), (-2i16).to_ne_bytes().to_vec());
    assert_eq!(a.size_of(), 2);
    let b: u16 = 0x1234;
    assert_eq!(ConvertBytes::to_ne_bytes(&b), 0x1234u16.to_ne_bytes().to_vec());
    assert_eq!(b.size_of(), 2);
    let f = F32Bits(12.5f32.to_bits());
    assert_eq!(f.to_ne_bytes(), 12.5f32.to_ne_bytes().to_vec());
    assert_eq!(f.size_of(), 4);
    assert_eq!(<F32Bits as ConvertBytes>::byte_size(), 4);
    assert_eq!(<i16 as ConvertBytes>::byte_size(), 2);
}

#[test]
fn queued_sample_compares_by_value() {
    assert_eq!(QueuedSample::I16(3), QueuedSample::I16(3));
    assert_ne!(QueuedSample::I16(3), QueuedSample::U16(3));
}

#[test]
fn audio_packet_layout_i16() {
    let samps: Vec<i16> = (0..80).map(|x| x as i16 - 40).collect();
    let p = AudioPacket::new(1234567u128, 9u32, samps.clone());
    assert_eq!(p.maxbytes, MAX_BYTES);
    assert_eq!(p.timestamp, 1234567);
    assert_eq!(p.sequencenumber, 9);
    assert_eq!(p.samples, samps);
    let b = p.get_bytes();
    // header, 80 samples of 2 bytes, then 640 - 80 zero bytes
    assert_eq!(b.len(), 20 + 160 + 560);
    assert_eq!(&b[0..16], &1234567u128.to_ne_bytes());
    assert_eq!(&b[16..20], &9u32.to_ne_bytes());
    for (k, s) in samps.iter().enumerate() {
        assert_eq!(&b[20 + 2 * k..22 + 2 * k], &s.to_ne_bytes());
    }
    assert!(b[180..].iter().all(|&x| x == 0));
}

#[test]
fn audio_packet_layout_f32_uses_first_forty_samples() {
    let samps: Vec<F32Bits> = (0..700).map(|x| F32Bits((x as f32 * 0.5).to_bits())).collect();
    let p = AudioPacket::new(5, 6, samps.clone());
    let b = p.get_bytes();
    // 40 float samples fill the 160 data bytes; with 700 samples there is no padding
    assert_eq!(b.len(), 20 + 160);
    assert_eq!(&b[20..24], &0.0f32.to_ne_bytes());
    assert_eq!(&b[176..180], &19.5f32.to_ne_bytes());
}

#[test]
fn packet_header_roundtrip() {
    let samps: Vec<u16> = vec![7; 80];
    let p = AudioPacket::new(u128::MAX - 3, 0xdead_beef, samps);
    assert_eq!(decode_packet_header(&p.bytes), (u128::MAX - 3, 0xdead_beef));
}

#[test]
fn decode_header_of_raw_bytes() {
    let mut v = Vec::new();
    v.extend_from_slice(&42u128.to_ne_bytes());
    v.extend_from_slice(&7u32.to_ne_bytes());
    assert_eq!(v.len(), HEADER_SIZE);
    assert_eq!(decode_packet_header(&v), (42, 7));
}
