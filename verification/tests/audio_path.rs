use queues::IsQueue;
use voicecall::capture::{packet_count, write_input_data, InputState};
use voicecall::playback::{add_samples_to_queue, is_packet_readable, write_output_data, PlaybackQueues};
use voicecall::sample::{F32Bits, QueuedSample, SampleKind};

fn i16_packet(seq: u32, time: u128, samples: &[i16]) -> Vec<u8> {
    let mut v = Vec::new();
    v.extend_from_slice(&seq.to_ne_bytes());
    v.extend_from_slice(&time.to_ne_bytes());
    for s in samples {
        v.extend_from_slice(&s.to_ne_bytes());
    }
    v
}

#[test]
fn capture_makes_one_packet_per_160_bytes() {
    let mut st = InputState::new();
    let input: Vec<i16> = (0..80).map(|x| x as i16 * 3).collect();
    assert_eq!(packet_count(&st, &input, 1), 1);
    let packets = write_input_data(&input, 1, &mut st, || 777u128);
    assert_eq!(packets.len(), 1);
    assert_eq!(packets[0], i16_packet(0, 777, &input));
    assert_eq!(packets[0].len(), 180);
    assert_eq!(st.seq_num, 1);
    assert!(st.buf.is_empty());
}

#[test]
fn capture_takes_first_sample_of_each_frame() {
    let mut st = InputState::new();
    // two channels: only the left samples (even positions) are kept
    let input: Vec<u16> = (0..10).map(|x| x as u16).collect();
    let packets = write_input_data(&input, 2, &mut st, || 1u128);
    assert!(packets.is_empty());
    let mut want = Vec::new();
    for x in [0u16, 2, 4, 6, 8] {
        want.extend_from_slice(&x.to_ne_bytes());
    }
    assert_eq!(st.buf, want);
    assert_eq!(st.seq_num, 0);
    // an odd number of samples: the last, shorter frame still counts
    let mut st2 = InputState::new();
    let input2: Vec<u16> = vec![1, 2, 3];
    write_input_data(&input2, 2, &mut st2, || 1u128);
    assert_eq!(st2.buf.len(), 4);
}

#[test]
fn capture_across_callbacks_numbers_packets() {
    let mut st = InputState::new();
    let a: Vec<F32Bits> = (0..30).map(|x| F32Bits(x)).collect();
    let b: Vec<F32Bits> = (30..100).map(|x| F32Bits(x)).collect();
    let p1 = write_input_data(&a, 1, &mut st, || 5u128);
    assert!(p1.is_empty());
    assert_eq!(st.buf.len(), 120);
    assert_eq!(packet_count(&st, &b, 1), 2);
    let p2 = write_input_data(&b, 1, &mut st, || 6u128);
    assert_eq!(p2.len(), 2);
    assert_eq!(&p2[0][0..4], &0u32.to_ne_bytes());
    assert_eq!(&p2[1][0..4], &1u32.to_ne_bytes());
    assert_eq!(&p2[1][4..20], &6u128.to_ne_bytes());
    assert_eq!(&p2[0][20..24], &0u32.to_ne_bytes());
    assert_eq!(&p2[1][20..24], &40u32.to_ne_bytes());
    assert_eq!(st.seq_num, 2);
    assert_eq!(st.buf.len(), 80);
    // the same samples in one callback give the same packets
    let mut one = InputState::new();
    let all: Vec<F32Bits> = (0..100).map(|x| F32Bits(x)).collect();
    let q = write_input_data(&all, 1, &mut one, || 6u128);
    assert_eq!(q, p2);
    assert_eq!(one.buf, st.buf);
}

#[test]
fn capture_buffer_that_overshoots_never_sends() {
    let mut st = InputState { seq_num: 0, buf: vec![0u8; 159] };
    let input: Vec<i16> = vec![1; 200];
    assert_eq!(packet_count(&st, &input, 1), 0);
    let p = write_input_data(&input, 1, &mut st, || 0u128);
    assert!(p.is_empty());
    assert_eq!(st.buf.len(), 159 + 400);
}

#[test]
fn capture_at_last_sequence_number() {
    let mut st = InputState { seq_num: u32::MAX - 1, buf: Vec::new() };
    let input: Vec<i16> = vec![4; 80];
    let p = write_input_data(&input, 1, &mut st, || 0u128);
    assert_eq!(p.len(), 1);
    assert_eq!(st.seq_num, u32::MAX);
}

#[test]
fn received_samples_are_shifted_by_one() {
    let sent: Vec<i16> = (1..=80).map(|x| x as i16 * 100).collect();
    let bytes = i16_packet(3, 99, &sent);
    let mut q = PlaybackQueues::new();
    add_samples_to_queue(&bytes, SampleKind::I16, &mut q);
    assert_eq!(q.que_i.size(), 80);
    assert_eq!(q.que_f.size(), 0);
    assert_eq!(q.que_u.size(), 0);
    // the first sample read is the last two bytes of the header
    let first = q.que_i.remove().unwrap();
    let tb = 99u128.to_ne_bytes();
    assert_eq!(first, i16::from_ne_bytes([tb[14], tb[15]]));
    for k in 0..79 {
        assert_eq!(q.que_i.remove().unwrap(), sent[k]);
    }
    assert!(q.que_i.remove().is_err());
}

#[test]
fn received_float_and_u16_samples() {
    let mut bytes = vec![0u8; 20];
    bytes.extend_from_slice(&1.5f32.to_bits().to_ne_bytes());
    bytes.extend_from_slice(&2.5f32.to_bits().to_ne_bytes());
    let mut q = PlaybackQueues::new();
    add_samples_to_queue(&bytes, SampleKind::F32, &mut q);
    assert_eq!(q.que_f.size(), 2);
    assert_eq!(q.que_f.remove().unwrap(), 0);
    assert_eq!(q.que_f.remove().unwrap(), 1.5f32.to_bits());
    let mut q2 = PlaybackQueues::new();
    let mut b2 = vec![0u8; 20];
    b2.extend_from_slice(&[1, 2, 3]);
    add_samples_to_queue(&b2, SampleKind::U16, &mut q2);
    // offsets 20 and 22 lie inside the 23-byte packet
    assert_eq!(q2.que_u.size(), 2);
    assert_eq!(q2.que_u.remove().unwrap(), 0);
    assert_eq!(q2.que_u.remove().unwrap(), u16::from_ne_bytes([1, 2]));
}

#[test]
fn header_only_packet_adds_nothing() {
    let mut q = PlaybackQueues::new();
    add_samples_to_queue(&vec![9u8; 20], SampleKind::I16, &mut q);
    assert!(q.all_empty());
}

#[test]
fn output_takes_float_then_i16_then_u16() {
    let mut q = PlaybackQueues::new();
    q.que_f.add(10).unwrap();
    q.que_i.add(-1).unwrap();
    q.que_i.add(-2).unwrap();
    q.que_u.add(7).unwrap();
    let plan = write_output_data(6, 2, None, SampleKind::I16, &mut q);
    assert_eq!(
        plan,
        vec![
            Some(QueuedSample::F32(F32Bits(10))),
            Some(QueuedSample::I16(-1)),
            Some(QueuedSample::I16(-2)),
            Some(QueuedSample::U16(7)),
            None,
            None
        ]
    );
    assert!(q.all_empty());
}

#[test]
fn output_stops_when_buffer_full() {
    let mut q = PlaybackQueues::new();
    for v in 0..5 {
        q.que_u.add(v).unwrap();
    }
    let plan = write_output_data(3, 2, None, SampleKind::U16, &mut q);
    assert_eq!(
        plan,
        vec![Some(QueuedSample::U16(0)), Some(QueuedSample::U16(1)), Some(QueuedSample::U16(2))]
    );
    assert_eq!(q.que_u.size(), 2);
    let rest = write_output_data(4, 1, None, SampleKind::U16, &mut q);
    assert_eq!(rest, vec![Some(QueuedSample::U16(3)), Some(QueuedSample::U16(4)), None, None]);
    assert!(q.all_empty());
}

#[test]
fn output_adds_the_received_packet_first() {
    let sent: Vec<i16> = vec![5, 6, 7];
    let bytes = i16_packet(0, 0, &sent);
    let mut q = PlaybackQueues::new();
    let plan = write_output_data(2, 1, Some(&bytes), SampleKind::I16, &mut q);
    assert_eq!(plan, vec![Some(QueuedSample::I16(0)), Some(QueuedSample::I16(5))]);
    assert_eq!(q.que_i.size(), 1);
    assert_eq!(q.que_i.peek().unwrap(), 6);
    let empty = write_output_data(0, 1, None, SampleKind::I16, &mut q);
    assert!(empty.is_empty());
    assert_eq!(q.que_i.size(), 1);
}

#[test]
fn mic_to_speaker() {
    // what one side captures, the other side plays one sample later
    let mut st = InputState::new();
    let mic: Vec<i16> = (0..80).map(|x| (x * 7 - 200) as i16).collect();
    let packets = write_input_data(&mic, 1, &mut st, || 31u128);
    let mut q = PlaybackQueues::new();
    let plan = write_output_data(80, 1, Some(&packets[0]), SampleKind::I16, &mut q);
    for k in 1..80 {
        assert_eq!(plan[k], Some(QueuedSample::I16(mic[k - 1])));
    }
}

#[test]
fn readable_packet_lengths() {
    assert!(!is_packet_readable(19, SampleKind::I16));
    assert!(is_packet_readable(20, SampleKind::I16));
    assert!(is_packet_readable(180, SampleKind::F32));
    assert!(is_packet_readable(u32::MAX as usize - 1, SampleKind::I16));
    // the offset past the last sample read would not fit in a u32
    assert!(!is_packet_readable(u32::MAX as usize, SampleKind::I16));
    assert!(!is_packet_readable(u32::MAX as usize - 2, SampleKind::F32));
    assert!(!is_packet_readable(u32::MAX as usize + 1, SampleKind::U16));
}
