use rxtx::{
    build_frame_bytes, burst_chips, bytes_to_bits, frame_to_chips, manchester_encode,
    modulate, sync_chip_pattern, ClockStep, Decoded, Decoder, Reading, Rng,
};

/// Feed chips to a decoder and collect what it reports, with the chip's index.
fn feed(decoder: &mut Decoder, chips: &[u8]) -> Vec<(usize, Decoded)> {
    let mut frames = Vec::new();
    for (i, chip) in chips.iter().enumerate() {
        if let Some(decoded) = decoder.on_chip(*chip) {
            frames.push((i, decoded));
        }
    }
    frames
}

/// What a decoder makes of samples: those it takes as chips, and what it reports
/// at which sample.
struct Heard {
    taken: Vec<usize>,
    frames: Vec<(usize, Decoded)>,
}

/// Feed readings to a decoder, with an exact chip clock at `samples / chips`
/// samples per chip.
fn receive(readings: &[Reading], samples: i64, chips: i64) -> Heard {
    let mut decoder = Decoder::new();
    let mut clock: i64 = 0;
    let mut heard = Heard { taken: Vec::new(), frames: Vec::new() };
    for (i, reading) in readings.iter().enumerate() {
        let restarted = samples - 2 * chips;
        let advanced = clock - 2 * chips;
        let (step, decoded) = decoder.push(*reading, restarted <= 0, advanced <= 0);
        match step {
            ClockStep::Hold => {}
            ClockStep::Restart => clock = restarted,
            ClockStep::Advance => clock = advanced,
        }
        if step != ClockStep::Hold && clock <= 0 {
            clock += 2 * samples;
            heard.taken.push(i);
        }
        if let Some(decoded) = decoded {
            heard.frames.push((i, decoded));
        }
    }
    heard
}

/// What a clean channel makes of keyed samples.
fn clean(on: &[bool]) -> Vec<Reading> {
    on.iter().map(|on| if *on { Reading::Above } else { Reading::Below }).collect()
}

/// Feed keyed samples over a clean channel, at `samples / chips` samples per chip,
/// with an exact chip clock.
fn listen(on: &[bool], samples: i64, chips: i64) -> Vec<Decoded> {
    receive(&clean(on), samples, chips).frames.into_iter().map(|(_, d)| d).collect()
}

/// Numbers from `low` up to but not including `high`.
fn spread(n: usize, low: u64, high: u64, seed: u64) -> Vec<usize> {
    let mut rng = Rng::new(seed);
    (0..n).map(|_| (low + (rng.next_u64() >> 20) % (high - low)) as usize).collect()
}

/// The samples of the first `n` chips at `samples / chips` samples per chip.
fn samples_per_chip(n: usize, samples: usize, chips: usize) -> Vec<usize> {
    (0..n).map(|c| (c + 1) * samples / chips - c * samples / chips).collect()
}

#[test]
fn frame_comes_back() {
    let chips = frame_to_chips(b"HELLO WORLD!");
    let frames = feed(&mut Decoder::new(), &chips);
    assert_eq!(frames.len(), 1);
    let (at, decoded) = &frames[0];
    assert_eq!(*at, chips.len() - 1);
    assert_eq!(decoded.payload, b"HELLO WORLD!");
    assert!(decoded.crc_ok);
    assert_eq!(decoded.manchester_errors, 0);
}

#[test]
fn shortest_and_longest_payloads_come_back() {
    let longest: Vec<u8> = (0..255).collect();
    for payload in [vec![], vec![0], vec![0xFF; 9], longest] {
        let frames = feed(&mut Decoder::new(), &frame_to_chips(&payload));
        assert_eq!(frames.len(), 1);
        assert!(frames[0].1.crc_ok);
        assert_eq!(frames[0].1.payload, payload);
    }
}

#[test]
fn frames_come_back_in_order_after_any_silence() {
    let mut chips = Vec::new();
    let payloads: [&[u8]; 4] = [b"one", b"", b"three", b"three"];
    for (gap, payload) in [0usize, 1, 94, 401].iter().zip(payloads) {
        chips.extend(vec![0u8; *gap]);
        chips.extend(frame_to_chips(payload));
    }
    chips.extend(vec![0u8; 500]);
    let frames = feed(&mut Decoder::new(), &chips);
    let received: Vec<&[u8]> = frames.iter().map(|(_, d)| &d.payload[..]).collect();
    assert_eq!(received, payloads);
    assert!(frames.iter().all(|(_, d)| d.crc_ok && d.manchester_errors == 0));
}

#[test]
fn silence_reports_nothing() {
    assert!(feed(&mut Decoder::new(), &[0; 5000]).is_empty());
}

#[test]
fn sync_tolerates_six_wrong_chips() {
    let mut chips = sync_chip_pattern();
    chips.extend(manchester_encode(&bytes_to_bits(&build_frame_bytes(b"ok"))));
    for i in 0..6 {
        chips[16 * i] ^= 1;
    }
    let frames = feed(&mut Decoder::new(), &chips);
    assert_eq!(frames.len(), 1);
    assert_eq!(frames[0].1.payload, b"ok");
    assert!(frames[0].1.crc_ok);
    assert_eq!(frames[0].1.manchester_errors, 0);
}

#[test]
fn sync_refuses_seven_wrong_chips() {
    let mut chips = sync_chip_pattern();
    for i in 0..7 {
        chips[8 * i] ^= 1;
    }
    chips.extend(vec![0u8; 16 * 400]);
    assert!(feed(&mut Decoder::new(), &chips).is_empty());
}

#[test]
fn bad_checksum_is_reported() {
    let mut chips = frame_to_chips(b"payload");
    // Both chips of one payload bit.
    let at = 160 + 16 + 6;
    chips[at] ^= 1;
    chips[at + 1] ^= 1;
    let frames = feed(&mut Decoder::new(), &chips);
    assert_eq!(frames.len(), 1);
    assert!(!frames[0].1.crc_ok);
    assert_eq!(frames[0].1.manchester_errors, 0);
    assert_ne!(frames[0].1.payload, b"payload");
}

#[test]
fn wrong_chips_are_counted_in_length_and_payload() {
    let mut chips = frame_to_chips(b"abc");
    // The second chip of a one turned on: read as a one all the same. The last
    // bit of the length and the second bit of `a` are ones.
    chips[160 + 15] = 1;
    chips[160 + 16 + 3] = 1;
    let frames = feed(&mut Decoder::new(), &chips);
    assert_eq!(frames.len(), 1);
    assert_eq!(frames[0].1.payload, b"abc");
    assert!(frames[0].1.crc_ok);
    assert_eq!(frames[0].1.manchester_errors, 2);
}

#[test]
fn hysteresis_keeps_the_level() {
    let mut decoder = Decoder::new();
    assert_eq!(decoder.slice(Reading::Within), 0);
    assert_eq!(decoder.slice(Reading::Above), 1);
    assert_eq!(decoder.slice(Reading::Within), 1);
    assert_eq!(decoder.slice(Reading::Below), 0);
    assert_eq!(decoder.slice(Reading::Within), 0);
    assert_eq!(decoder.slice(Reading::Above), 1);
    assert_eq!(decoder.slice(Reading::NoContrast), 0);
}

#[test]
fn clock_runs_from_the_first_edge() {
    let mut decoder = Decoder::new();
    assert_eq!(decoder.push(Reading::Below, true, true).0, ClockStep::Hold);
    assert_eq!(decoder.push(Reading::NoContrast, true, true).0, ClockStep::Hold);
    assert_eq!(decoder.push(Reading::Above, false, false).0, ClockStep::Restart);
    assert_eq!(decoder.push(Reading::Above, false, false).0, ClockStep::Advance);
    assert_eq!(decoder.push(Reading::Within, false, false).0, ClockStep::Advance);
    assert_eq!(decoder.push(Reading::NoContrast, false, false).0, ClockStep::Restart);
    assert_eq!(decoder.push(Reading::Below, false, false).0, ClockStep::Advance);
}

#[test]
fn keyed_samples_come_back() {
    let rates = [(1usize, 1usize), (2, 1), (3, 1), (25, 1), (3, 2), (7, 2), (12, 5), (512, 5)];
    for (samples, chips) in rates {
        let n = burst_chips(b"sample", 16, 16).len();
        let on = modulate(&samples_per_chip(n, samples, chips), b"sample", 16, 16);
        let frames = listen(&on, samples as i64, chips as i64);
        assert_eq!(frames.len(), 1);
        assert_eq!(frames[0].payload, b"sample");
        assert!(frames[0].crc_ok);
        assert_eq!(frames[0].manchester_errors, 0);
    }
}

#[test]
fn repeated_bursts_come_back() {
    let n = burst_chips(b"again", 20, 40).len();
    let one = modulate(&samples_per_chip(n, 4, 1), b"again", 20, 40);
    let mut on = Vec::new();
    for _ in 0..5 {
        on.extend_from_slice(&one);
    }
    let frames = listen(&on, 4, 1);
    assert_eq!(frames.len(), 5);
    assert!(frames.iter().all(|d| d.crc_ok && d.payload == b"again"));
}

#[test]
fn header_is_found_despite_six_wrong_chips() {
    let chips = frame_to_chips(b"despite");
    for gap in [0usize, 1, 30, 200] {
        for step in 1..=26 {
            let mut received = vec![0u8; gap];
            received.extend_from_slice(&chips);
            for i in 0..6 {
                received[gap + 159 - step * i] ^= 1;
            }
            let frames = feed(&mut Decoder::new(), &received);
            assert_eq!(frames.len(), 1);
            assert_eq!(frames[0].0, received.len() - 1);
            assert_eq!(frames[0].1.payload, b"despite");
            assert!(frames[0].1.crc_ok);
        }
    }
}

#[test]
fn silent_samples_are_ignored() {
    assert!(listen(&[false; 3000], 4, 1).is_empty());
}

#[test]
fn repeated_bursts_come_back_at_fractional_rates() {
    for (samples, chips) in [(9usize, 2usize), (17, 4), (50, 3), (203, 7)] {
        let n = burst_chips(b"again", 3, 5).len();
        let one = clean(&modulate(&samples_per_chip(n, samples, chips), b"again", 3, 5));
        let mut readings = vec![Reading::NoContrast; 11];
        for _ in 0..4 {
            readings.extend_from_slice(&one);
        }
        let heard = receive(&readings, samples as i64, chips as i64);
        assert_eq!(heard.frames.len(), 4);
        for (_, decoded) in &heard.frames {
            assert_eq!(decoded.payload, b"again");
            assert!(decoded.crc_ok);
            assert_eq!(decoded.manchester_errors, 0);
        }
    }
}

#[test]
fn frame_comes_back_despite_clock_error() {
    let n = frame_to_chips(b"drift").len();
    // From three quarters of a chip up to just under five quarters.
    for (samples, low, high) in [(100i64, 75u64, 125u64), (16, 12, 20), (4, 3, 5)] {
        let mut streams = vec![vec![low as usize; n], vec![high as usize - 1; n]];
        for seed in 1..=8 {
            streams.push(spread(n, low, high, seed));
        }
        for counts in streams {
            let frames = listen(&modulate(&counts, b"drift", 0, 0), samples, 1);
            assert_eq!(frames.len(), 1);
            assert_eq!(frames[0].payload, b"drift");
            assert!(frames[0].crc_ok);
            assert_eq!(frames[0].manchester_errors, 0);
        }
    }
}

#[test]
fn frames_come_back_each_by_its_own_clock() {
    let payloads: [&[u8]; 4] = [b"slow", b"", b"fast", b"jitter"];
    let bounds = [(110u64, 111u64), (100, 101), (80, 81), (75, 125)];
    let gaps = [0usize, 1, 0, 333];
    let mut readings = Vec::new();
    for ((payload, (low, high)), gap) in payloads.iter().zip(bounds).zip(gaps) {
        let counts = spread(frame_to_chips(payload).len(), low, high, 5);
        readings.extend(vec![Reading::Below; gap]);
        readings.extend(clean(&modulate(&counts, payload, 0, 0)));
    }
    readings.extend(vec![Reading::NoContrast; 2000]);
    let heard = receive(&readings, 100, 1);
    let received: Vec<&[u8]> = heard.frames.iter().map(|(_, d)| &d.payload[..]).collect();
    assert_eq!(received, payloads);
    assert!(heard.frames.iter().all(|(_, d)| d.crc_ok && d.manchester_errors == 0));
}

#[test]
fn frame_comes_during_its_last_chip_after_any_quiet() {
    let n = frame_to_chips(b"when").len();
    for (samples, chips) in [(100usize, 1usize), (2, 1), (5, 2)] {
        let counts = samples_per_chip(n, samples, chips);
        let sent = clean(&modulate(&counts, b"when", 0, 0));
        let last = counts[n - 1];
        for quiet in [0usize, 1, 49, 50, 99, 777] {
            let mut readings = vec![Reading::NoContrast; quiet / 2];
            readings.extend(vec![Reading::Below; quiet - quiet / 2]);
            readings.extend_from_slice(&sent);
            let end = readings.len();
            readings.extend(vec![Reading::Below; 3 * quiet]);
            let heard = receive(&readings, samples as i64, chips as i64);
            assert_eq!(heard.frames.len(), 1);
            assert!(end - last <= heard.frames[0].0 && heard.frames[0].0 < end);
            assert_eq!(heard.frames[0].1.payload, b"when");
        }
    }
}

#[test]
fn earliest_frame_takes_144_chips() {
    // What follows the first part of the preamble, of the shortest frame.
    let chips = frame_to_chips(b"");
    let chips = &chips[chips.len() - 144..];
    let frames = feed(&mut Decoder::new(), chips);
    assert_eq!(frames.len(), 1);
    assert_eq!(frames[0].0, 143);
    assert!(frames[0].1.crc_ok);
    assert!(feed(&mut Decoder::new(), &chips[..143]).is_empty());
}

#[test]
fn chips_are_at_least_half_a_chip_apart() {
    let all = [Reading::NoContrast, Reading::Above, Reading::Below, Reading::Within];
    for seed in 1..=6 {
        let mut readings = Vec::new();
        for (i, run) in spread(2000, 1, 40 * seed, seed).into_iter().enumerate() {
            readings.extend(vec![all[(i + run) % 4]; run]);
        }
        for samples in [100i64, 7, 2] {
            let heard = receive(&readings, samples, 1);
            assert!(heard.taken.windows(2).all(|w| 2 * (w[1] - w[0]) as i64 >= samples));
            assert!(heard.taken.len() as i64 * samples <= 2 * readings.len() as i64);
            assert!(heard.frames.iter().all(|(i, _)| *i as i64 >= 72 * samples - 1));
        }
    }
}

#[test]
fn nothing_comes_back_within_the_time_of_72_chips() {
    // Twice as fast as the receiver's clock has it: an edge every half chip.
    let chips = frame_to_chips(b"");
    let counts = vec![50usize; chips.len()];
    let heard = receive(&clean(&modulate(&counts, b"", 0, 0)), 100, 1);
    assert!(heard.frames.iter().all(|(i, _)| *i >= 7199));
    // At the receiver's own rate.
    let counts = vec![100usize; chips.len()];
    let heard = receive(&clean(&modulate(&counts, b"", 0, 0)), 100, 1);
    assert_eq!(heard.frames.len(), 1);
    assert!(heard.frames[0].0 >= 7199);
}

#[test]
fn slicing_changes_nothing_but_the_level() {
    // Slicing in between leaves the search window and the frame so far as they are.
    let chips = frame_to_chips(b"between");
    let mut decoder = Decoder::new();
    let mut frames = Vec::new();
    for chip in &chips {
        decoder.slice(Reading::Above);
        frames.extend(decoder.on_chip(*chip));
        decoder.slice(Reading::NoContrast);
    }
    assert_eq!(frames.len(), 1);
    assert_eq!(frames[0].payload, b"between");
    assert!(frames[0].crc_ok);
    // Nor does it start the clock.
    let mut decoder = Decoder::new();
    decoder.slice(Reading::Above);
    assert_eq!(decoder.push(Reading::Within, true, true).0, ClockStep::Hold);
}

/// Readings that slice to the same as clean ones, with every sample that keeps the
/// level anywhere it may lie.
fn blurred(on: &[bool], seed: u64) -> Vec<Reading> {
    let mut rng = Rng::new(seed);
    let mut level = false;
    let mut readings = Vec::new();
    for on in on {
        let pick = (rng.next_u64() >> 20) % 3;
        readings.push(if *on == level && pick > 0 {
            Reading::Within
        } else if *on {
            Reading::Above
        } else if pick == 1 {
            Reading::NoContrast
        } else {
            Reading::Below
        });
        level = *on;
    }
    readings
}

#[test]
fn only_the_sliced_levels_matter() {
    let n = burst_chips(b"blur", 9, 9).len();
    let counts = spread(n, 75, 125, 3);
    let mut on = vec![false; 500];
    on.extend(modulate(&counts, b"blur", 9, 9));
    on.extend(vec![false; 500]);
    let sharp = receive(&clean(&on), 100, 1);
    assert_eq!(sharp.frames.len(), 1);
    for seed in 1..=10 {
        let readings = blurred(&on, seed);
        assert!(readings.contains(&Reading::Within));
        let heard = receive(&readings, 100, 1);
        assert_eq!(heard.taken, sharp.taken);
        assert_eq!(heard.frames.len(), 1);
        assert_eq!(heard.frames[0].0, sharp.frames[0].0);
        assert_eq!(heard.frames[0].1.payload, b"blur");
        assert!(heard.frames[0].1.crc_ok);
    }
}

#[test]
fn samples_within_the_band_come_back() {
    // A quarter of every chip is still within the band after each edge, so that
    // the level changes late.
    let n = frame_to_chips(b"band").len();
    for (samples, chips) in [(100usize, 1usize), (8, 1), (25, 3)] {
        let on = modulate(&samples_per_chip(n, samples, chips), b"band", 0, 0);
        let late = samples / chips / 4;
        let mut readings = vec![Reading::Within; 60];
        for i in 0..on.len() + late {
            let at = |k: usize| k < on.len() && on[k];
            let now = at(i);
            let then = i >= late && at(i - late);
            readings.push(match (now, then) {
                (true, true) => Reading::Above,
                (false, false) => Reading::Below,
                _ => Reading::Within,
            });
        }
        readings.extend(vec![Reading::NoContrast; 60]);
        let heard = receive(&readings, samples as i64, chips as i64);
        assert_eq!(heard.frames.len(), 1);
        assert_eq!(heard.frames[0].1.payload, b"band");
        assert!(heard.frames[0].1.crc_ok);
        assert_eq!(heard.frames[0].1.manchester_errors, 0);
    }
}
