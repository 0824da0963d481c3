use rxtx::{
    bits_to_bytes, build_frame_bytes, burst_chips, bytes_to_bits, crc16, frame_to_chips,
    manchester_decode, manchester_encode, modulate, sync_chip_pattern, Boxcar, Rng, MAX_PAYLOAD,
    PREAMBLE, SYNC,
};

#[test]
fn crc_known_vector() {
    // CRC-16/CCITT-FALSE of "123456789" is 0x29B1.
    assert_eq!(crc16(b"123456789"), 0x29B1);
}

#[test]
fn manchester_roundtrip() {
    let bytes = [0x00u8, 0xFF, 0xA5, 0x2D, 0xD4];
    let bits = bytes_to_bits(&bytes);
    let chips = manchester_encode(&bits);
    let (back_bits, errors) = manchester_decode(&chips);
    assert_eq!(errors, 0);
    assert_eq!(bits_to_bytes(&back_bits), bytes);
}

#[test]
fn crc_of_nothing_is_the_initial_register() {
    assert_eq!(crc16(b""), 0xFFFF);
    assert_eq!(crc16(&[0]), 0xE1F0);
}

#[test]
fn crc_residue_is_zero() {
    let data = b"123456789";
    let crc = crc16(data);
    let mut framed = data.to_vec();
    framed.push((crc >> 8) as u8);
    framed.push((crc & 0xFF) as u8);
    assert_eq!(crc16(&framed), 0);
    framed[3] ^= 1;
    assert_ne!(crc16(&framed), 0);
}

#[test]
fn crc_detects_every_two_byte_burst() {
    let sent = *b"abcdef";
    for pattern in 1..=0xFFFFu32 {
        let mut received = sent;
        received[2] ^= (pattern >> 8) as u8;
        received[3] ^= (pattern & 0xFF) as u8;
        assert_ne!(crc16(&received), crc16(&sent));
    }
}

#[test]
fn bits_are_msb_first() {
    assert_eq!(bytes_to_bits(&[0xA1]), vec![1, 0, 1, 0, 0, 0, 0, 1]);
    assert_eq!(bytes_to_bits(&[]), Vec::<u8>::new());
    assert_eq!(bits_to_bytes(&[1, 0, 1, 0, 0, 0, 0, 1]), vec![0xA1]);
}

#[test]
fn partial_byte_is_dropped() {
    assert_eq!(bits_to_bytes(&[1, 1, 1, 1, 1, 1, 1]), Vec::<u8>::new());
    assert_eq!(bits_to_bytes(&[0, 0, 0, 0, 0, 0, 1, 1, 1, 1]), vec![3]);
    // Only the lowest bit of an entry counts.
    assert_eq!(bits_to_bytes(&[2, 2, 2, 2, 2, 2, 2, 3]), vec![1]);
}

#[test]
fn manchester_words() {
    assert_eq!(manchester_encode(&[1, 0]), vec![1, 0, 0, 1]);
    assert_eq!(manchester_encode(&[3, 2]), vec![1, 0, 0, 1]);
    let (bits, errors) = manchester_decode(&[1, 0, 0, 1, 1, 1, 0, 0, 1]);
    assert_eq!(bits, vec![1, 0, 1, 0]);
    assert_eq!(errors, 2);
    // A chip that is neither on nor off makes its pair bad.
    assert_eq!(manchester_decode(&[2, 0, 1, 2]), (vec![0, 0], 2));
}

#[test]
fn manchester_keeps_changing_at_half_power() {
    let chips = manchester_encode(&bytes_to_bits(&[0x00, 0xFF, 0x5A, 0xC3]));
    for three in chips.windows(3) {
        assert!(!(three[0] == three[1] && three[1] == three[2]));
    }
    assert_eq!(chips.iter().filter(|c| **c == 1).count(), chips.len() / 2);
}

#[test]
fn frame_bytes_layout() {
    assert_eq!(build_frame_bytes(b""), vec![0x00, 0xE1, 0xF0]);
    let frame = build_frame_bytes(b"hi");
    let crc = crc16(&[2, b'h', b'i']);
    assert_eq!(frame, vec![2, b'h', b'i', (crc >> 8) as u8, (crc & 0xFF) as u8]);
    assert_eq!(crc16(&frame), 0);
    let long = vec![7u8; MAX_PAYLOAD];
    assert_eq!(build_frame_bytes(&long).len(), 258);
    assert_eq!(build_frame_bytes(&long)[0], 255);
}

#[test]
fn frame_chips_layout() {
    let chips = frame_to_chips(b"hi");
    assert_eq!(chips.len(), 16 * 15);
    let (bits, errors) = manchester_decode(&chips);
    assert_eq!(errors, 0);
    let mut bytes = PREAMBLE.to_vec();
    bytes.extend_from_slice(&SYNC);
    bytes.extend_from_slice(&build_frame_bytes(b"hi"));
    assert_eq!(bits_to_bytes(&bits), bytes);
    assert_eq!(&chips[..8], &[1, 0, 0, 1, 1, 0, 0, 1]);
}

#[test]
fn pattern_sits_before_the_length_byte() {
    let pattern = sync_chip_pattern();
    assert_eq!(pattern.len(), 96);
    assert_eq!(&frame_to_chips(b"anything")[64..160], &pattern[..]);
}

#[test]
fn burst_is_framed_by_silence() {
    let frame = frame_to_chips(b"x");
    let burst = burst_chips(b"x", 3, 2);
    assert_eq!(burst.len(), frame.len() + 5);
    assert_eq!(&burst[..3], &[0, 0, 0]);
    assert_eq!(&burst[3..3 + frame.len()], &frame[..]);
    assert_eq!(&burst[3 + frame.len()..], &[0, 0]);
}

#[test]
fn samples_have_the_level_of_their_chip() {
    let burst = burst_chips(b"x", 1, 1);
    let counts: Vec<usize> = (0..burst.len()).map(|i| 2 + i % 3).collect();
    let on = modulate(&counts, b"x", 1, 1);
    let mut expected = Vec::new();
    for (chip, n) in burst.iter().zip(&counts) {
        for _ in 0..*n {
            expected.push(*chip == 1);
        }
    }
    assert_eq!(on, expected);
}

#[test]
fn longer_tail_only_adds_silence() {
    let n = burst_chips(b"tail", 7, 30).len();
    let counts: Vec<usize> = (0..n).map(|c| 1 + c % 4).collect();
    let long = modulate(&counts, b"tail", 7, 30);
    for tail in [0usize, 1, 12, 30] {
        let short = modulate(&counts[..n - (30 - tail)], b"tail", 7, tail);
        assert_eq!(long[..short.len()], short[..]);
        assert!(long[short.len()..].iter().all(|on| !on));
        let rest: usize = counts[n - (30 - tail)..].iter().sum();
        assert_eq!(long.len() - short.len(), rest);
    }
}

#[test]
fn boxcar_holds_the_latest_items() {
    let mut window = Boxcar::new(3);
    assert_eq!(window.len(), 0);
    assert_eq!(window.push(10), None);
    assert_eq!(window.push(20), None);
    assert_eq!(window.push(30), None);
    assert_eq!(window.len(), 3);
    assert_eq!(window.push(40), Some(10));
    assert_eq!(window.push(50), Some(20));
    assert_eq!(window.len(), 3);
}

#[test]
fn boxcar_has_room_for_one_item() {
    let mut window = Boxcar::new(0);
    assert_eq!(window.push('a'), None);
    assert_eq!(window.push('b'), Some('a'));
    assert_eq!(window.len(), 1);
}

#[test]
fn rng_is_fixed_by_its_seed() {
    let mut rng = Rng::new(42);
    assert_eq!(rng.next_u64(), 46537075435);
    assert_eq!(rng.unit(), 6193950570217570);
    assert_eq!(rng.next_u64(), 1156789259011059539);
    // The lowest bit of the seed does not matter.
    assert_eq!(Rng::new(43).next_u64(), 46537075435);
}

#[test]
fn rng_never_yields_zero() {
    let mut rng = Rng::new(0);
    for _ in 0..10_000 {
        assert_ne!(rng.next_u64(), 0);
        assert!(rng.unit() < 1 << 53);
    }
}
