use framelink::decoder::{decode_frame, decode_frame_checked, vec_to_frame, FrameDecoder};
use framelink::encoder::{code_frame, divide_round_up, predict_rs_size, FrameEncoder};
use framelink::FRAME_LEN;

#[test]
fn test_frame() {
    let packets = vec![vec![1, 2, 3], vec![4, 5, 6]];
    let mut enc = FrameEncoder::new();
    enc.add_packet(packets[0].clone());
    enc.add_packet(packets[1].clone());
    let f = enc.get_next_frame();
    let (seqno, decoded_packets) = decode_frame(f).unwrap();
    assert_eq!(seqno, 0);
    assert_eq!(packets, decoded_packets);
}

#[test]
fn frame_has_fixed_length() {
    let mut enc = FrameEncoder::new();
    enc.add_packet(vec![9; 100]);
    assert_eq!(enc.get_next_frame().len(), FRAME_LEN);
}

#[test]
fn sequence_numbers_count_up_from_zero() {
    let mut enc = FrameEncoder::new();
    for expected in 0u64..4 {
        enc.add_packet(vec![7, 8]);
        let (seqno, packets) = decode_frame(enc.get_next_frame()).unwrap();
        assert_eq!(seqno, expected);
        assert_eq!(packets, vec![vec![7u8, 8]]);
    }
}

#[test]
fn empty_queue_gives_heartbeat_frame() {
    let mut enc = FrameEncoder::new();
    let _ = enc.get_next_frame();
    let (seqno, packets) = decode_frame(enc.get_next_frame()).unwrap();
    assert_eq!(seqno, 1);
    assert!(packets.is_empty());
}

#[test]
fn checksum_matches_on_clean_frame() {
    let mut enc = FrameEncoder::new();
    enc.add_packet(vec![1, 2, 3, 4, 5]);
    let (seqno, packets, crc_ok) = decode_frame_checked(&enc.get_next_frame()).unwrap();
    assert_eq!(seqno, 0);
    assert_eq!(packets, vec![vec![1u8, 2, 3, 4, 5]]);
    assert!(crc_ok);
}

#[test]
fn oversized_batch_spills_into_next_frame() {
    let mut enc = FrameEncoder::new();
    for i in 0..10u8 {
        enc.add_packet(vec![i + 1; 1000]);
    }
    let (s0, first) = decode_frame(enc.get_next_frame()).unwrap();
    let (s1, second) = decode_frame(enc.get_next_frame()).unwrap();
    let (s2, third) = decode_frame(enc.get_next_frame()).unwrap();
    assert_eq!((s0, s1, s2), (0, 1, 2));
    assert_eq!(first.len(), 5);
    assert_eq!(second.len(), 5);
    assert!(third.is_empty());
    for (i, p) in first.iter().chain(second.iter()).enumerate() {
        assert_eq!(p, &vec![i as u8 + 1; 1000]);
    }
}

#[test]
fn round_trip_over_many_frames() {
    let mut enc = FrameEncoder::new();
    let mut dec = FrameDecoder::new();
    let mut sent = Vec::new();
    for i in 0..40usize {
        let p: Vec<u8> = (0..(i * 97 % 1500 + 1)).map(|j| (j % 251 + 1) as u8).collect();
        sent.push(p.clone());
        enc.add_packet(p);
    }
    let mut received = Vec::new();
    for expected in 0u64..20 {
        let f = enc.get_next_frame();
        let (seqno, _) = decode_frame(f.clone()).unwrap();
        assert_eq!(seqno, expected);
        received.extend(dec.read_frame(f).unwrap());
        assert_eq!(dec.next_seqno(), expected + 1);
    }
    assert_eq!(received, sent);
}

#[test]
fn largest_packet_that_fits_alone() {
    let mut enc = FrameEncoder::new();
    let big: Vec<u8> = (0..5664usize).map(|j| (j % 200 + 1) as u8).collect();
    enc.add_packet(big.clone());
    let (_, packets) = decode_frame(enc.get_next_frame()).unwrap();
    assert_eq!(packets, vec![big]);
}

#[test]
fn corrected_errors_leave_packets_unchanged() {
    let mut enc = FrameEncoder::new();
    enc.add_packet(vec![10, 20, 30, 40, 50, 60, 70, 80]);
    let mut f = enc.get_next_frame();
    // four corrupted bytes in the first coded block, four in the second
    f[0] ^= 0x55;
    f[3] ^= 0x01;
    f[11] ^= 0xff;
    f[17] ^= 0x80;
    f[18] ^= 0x10;
    f[22] ^= 0x22;
    f[25] ^= 0x33;
    f[30] ^= 0x44;
    let (seqno, packets) = decode_frame(f).unwrap();
    assert_eq!(seqno, 0);
    assert_eq!(packets, vec![vec![10u8, 20, 30, 40, 50, 60, 70, 80]]);
}

#[test]
fn stale_frame_is_dropped() {
    let mut enc = FrameEncoder::new();
    let mut frames = Vec::new();
    for i in 0..6u8 {
        enc.add_packet(vec![i + 1]);
        frames.push(enc.get_next_frame());
    }
    let mut dec = FrameDecoder::new();
    assert_eq!(dec.read_frame(frames[5].clone()), Some(vec![vec![6u8]]));
    assert_eq!(dec.next_seqno(), 6);
    assert_eq!(dec.read_frame(frames[5].clone()), None);
    assert_eq!(dec.next_seqno(), 6);
    assert_eq!(dec.read_frame(frames[2].clone()), None);
    assert_eq!(dec.next_seqno(), 6);
}

#[test]
fn frames_arriving_in_reverse_after_the_newest() {
    let mut enc = FrameEncoder::new();
    let frames: Vec<Vec<u8>> = (0..4u8)
        .map(|i| {
            enc.add_packet(vec![i + 1, i + 2]);
            enc.get_next_frame()
        })
        .collect();
    let mut dec = FrameDecoder::new();
    assert!(dec.read_frame(frames[3].clone()).is_some());
    for i in (0..3).rev() {
        assert_eq!(dec.read_frame(frames[i].clone()), None);
    }
    assert_eq!(dec.next_seqno(), 4);
}

#[test]
fn all_zero_frame_does_not_decode() {
    assert_eq!(decode_frame(vec![0u8; FRAME_LEN]), None);
}

#[test]
fn record_running_past_data_is_rejected() {
    let data = vec![0u8, 0, 0, 0, 0, 0, 0, 1, 0, 80, 1, 1, 1, 1, 1, 1, 1, 1, 1, 1];
    let f = code_frame(&data);
    assert_eq!(decode_frame(f), None);
}

#[test]
fn vec_to_frame_pads_with_zeros() {
    let f = vec_to_frame(vec![1, 2, 3]);
    assert_eq!(f.len(), FRAME_LEN);
    assert_eq!(&f[..3], &[1, 2, 3]);
    assert!(f[3..].iter().all(|&b| b == 0));
}

#[test]
fn round_up_and_predicted_sizes() {
    assert_eq!(divide_round_up(0, 10), 0);
    assert_eq!(divide_round_up(10, 10), 1);
    assert_eq!(divide_round_up(11, 10), 2);
    assert_eq!(predict_rs_size(0), 0);
    assert_eq!(predict_rs_size(10), 18);
    assert_eq!(predict_rs_size(11), 36);
    assert_eq!(predict_rs_size(5680), 10224);
}

#[test]
fn accept_decoded_keeps_floor_on_stale_numbers() {
    let mut dec = FrameDecoder::new();
    assert_eq!(dec.accept_decoded(3, vec![vec![1]]), Some(vec![vec![1u8]]));
    assert_eq!(dec.next_seqno(), 4);
    assert_eq!(dec.accept_decoded(3, vec![vec![2]]), None);
    assert_eq!(dec.accept_decoded(0, vec![]), None);
    assert_eq!(dec.next_seqno(), 4);
    assert_eq!(dec.accept_decoded(9, vec![]), Some(vec![]));
    assert_eq!(dec.next_seqno(), 10);
    assert_eq!(dec.accept_decoded(u64::MAX, vec![]), Some(vec![]));
    assert_eq!(dec.next_seqno(), u64::MAX);
}

#[test]
fn add_and_frame_queues_then_frames() {
    let mut enc = FrameEncoder::new();
    let (s0, p0) = decode_frame(enc.add_and_frame(Some(vec![1, 2, 3]))).unwrap();
    assert_eq!((s0, p0), (0, vec![vec![1u8, 2, 3]]));
    let (s1, p1) = decode_frame(enc.add_and_frame(None)).unwrap();
    assert_eq!((s1, p1), (1, Vec::<Vec<u8>>::new()));
    assert_eq!(enc.seqno(), 2);
}

#[test]
fn predicted_size_near_the_overflow_limit() {
    let n = 10 * (usize::MAX / 18);
    assert_eq!(predict_rs_size(n), (usize::MAX / 18) * 18);
    assert_eq!(predict_rs_size(usize::MAX / 2 + 1), (usize::MAX / 2 / 10 + 1) * 18);
}

#[test]
fn stale_frames_then_fresh_frame() {
    let mut enc = FrameEncoder::new();
    let frames: Vec<Vec<u8>> = (0..5u8).map(|i| enc.add_and_frame(Some(vec![i + 1]))).collect();
    let mut dec = FrameDecoder::new();
    assert!(dec.read_frame(frames[2].clone()).is_some());
    assert_eq!(dec.read_frame(frames[2].clone()), None);
    assert_eq!(dec.read_frame(frames[1].clone()), None);
    assert_eq!(dec.next_seqno(), 3);
    assert_eq!(dec.read_frame(frames[4].clone()), Some(vec![vec![5u8]]));
    assert_eq!(dec.next_seqno(), 5);
}
