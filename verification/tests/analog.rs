//! The decoder behind a floating-point front end: tone, channel, detector, level
//! tracking and chip clock.

use rxtx::{
    burst_chips, frame_to_chips, modulate, Boxcar, ClockStep, Decoded, Decoder, Reading, Rng,
};

const SAMPLE_RATE: f64 = 2_000_000.0;
const CHIP_RATE: f64 = 20_000.0;
const TONE_OFFSET: f64 = 250_000.0;
const AMPLITUDE: f32 = 0.7;

/// A complex sample.
#[derive(Clone, Copy)]
struct Sample {
    re: f32,
    im: f32,
}

fn times(a: Sample, b: Sample) -> Sample {
    Sample { re: a.re * b.re - a.im * b.im, im: a.re * b.im + a.im * b.re }
}

fn keyed_tone(text: &str) -> Vec<Sample> {
    let sps = SAMPLE_RATE / CHIP_RATE;
    let mut acc = 0.0f64;
    let mut counts = Vec::new();
    for _ in burst_chips(text.as_bytes(), 16, 16) {
        acc += sps;
        let n = acc.floor() as usize;
        acc -= n as f64;
        counts.push(n);
    }
    let w = 2.0 * std::f64::consts::PI * TONE_OFFSET / SAMPLE_RATE;
    let mut phase = 0.0f64;
    let mut out = Vec::new();
    for on in modulate(&counts, text.as_bytes(), 16, 16) {
        let amplitude = if on { AMPLITUDE as f64 } else { 0.0 };
        out.push(Sample {
            re: (amplitude * phase.cos()) as f32,
            im: (amplitude * phase.sin()) as f32,
        });
        phase += w;
    }
    out
}

fn unit(rng: &mut Rng) -> f64 {
    rng.unit() as f64 / (1u64 << 53) as f64
}

fn normal(rng: &mut Rng) -> f64 {
    let u1 = unit(rng).max(1e-12);
    let u2 = unit(rng);
    (-2.0 * u1.ln()).sqrt() * (2.0 * std::f64::consts::PI * u2).cos()
}

fn channel(samples: &[Sample], cfo_hz: f64, noise_std: f32, lead: usize, rng: &mut Rng) -> Vec<Sample> {
    let w = 2.0 * std::f64::consts::PI * cfo_hz / SAMPLE_RATE;
    let mut n = 0.0f64;
    let mut out = Vec::new();
    let silence = vec![Sample { re: 0.0, im: 0.0 }; lead];
    for s in silence.iter().chain(samples) {
        let turned = times(*s, Sample { re: n.cos() as f32, im: n.sin() as f32 });
        let noise_re = (normal(rng) as f32) * noise_std;
        let noise_im = (normal(rng) as f32) * noise_std;
        out.push(Sample { re: turned.re + noise_re, im: turned.im + noise_im });
        n += w;
    }
    out
}

fn envelope(samples: &[Sample]) -> Vec<f32> {
    let w = 2.0 * std::f64::consts::PI * TONE_OFFSET / SAMPLE_RATE;
    let mut phase = 0.0f64;
    let mut window = Boxcar::new((SAMPLE_RATE / CHIP_RATE / 4.0).round() as usize);
    let mut sum = Sample { re: 0.0, im: 0.0 };
    let mut out = Vec::new();
    for s in samples {
        let mixed = times(*s, Sample { re: phase.cos() as f32, im: -(phase.sin() as f32) });
        phase += w;
        if phase > std::f64::consts::TAU {
            phase -= std::f64::consts::TAU;
        }
        sum.re += mixed.re;
        sum.im += mixed.im;
        if let Some(left) = window.push(mixed) {
            sum.re -= left.re;
            sum.im -= left.im;
        }
        let n = window.len() as f32;
        out.push((sum.re / n).hypot(sum.im / n));
    }
    out
}

/// The frames that an envelope gives, with the samples that complete them.
fn frames(envelope: &[f32]) -> Vec<(usize, Decoded)> {
    let mut found = Vec::new();
    let sps = SAMPLE_RATE / CHIP_RATE;
    let mut decoder = Decoder::new();
    let mut smooth = Boxcar::new((sps / 4.0).round() as usize);
    let mut smooth_sum = 0.0f32;
    let (mut hi, mut lo) = (0.0f32, 0.0f32);
    let mut to_sample = 0.0f64;
    for (i, raw) in envelope.iter().enumerate() {
        smooth_sum += raw;
        if let Some(left) = smooth.push(*raw) {
            smooth_sum -= left;
        }
        let env = smooth_sum / smooth.len() as f32;
        let release = (1.0 / (sps as f32 * 4.0)).min(0.5);
        hi += (env - hi) * if env > hi { 0.5 } else { release };
        lo += (env - lo) * if env < lo { 0.5 } else { release };
        let span = hi - lo;
        let mid = (hi + lo) * 0.5;
        let band = span * 0.20;
        let reading = if span < 1e-4 {
            Reading::NoContrast
        } else if env > mid + band {
            Reading::Above
        } else if env < mid - band {
            Reading::Below
        } else {
            Reading::Within
        };
        let restarted = sps * 0.5 - 1.0;
        let advanced = to_sample - 1.0;
        let (step, decoded) = decoder.push(reading, restarted <= 0.0, advanced <= 0.0);
        match step {
            ClockStep::Hold => {}
            ClockStep::Restart => to_sample = restarted,
            ClockStep::Advance => to_sample = advanced,
        }
        if step != ClockStep::Hold && to_sample <= 0.0 {
            to_sample += sps;
        }
        if let Some(decoded) = decoded {
            found.push((i, decoded));
        }
    }
    found
}

fn run_loopback(text: &str, cfo_hz: f64, noise_std: f32, lead: usize, seed: u64) -> Option<Decoded> {
    let mut rng = Rng::new(seed);
    let received = channel(&keyed_tone(text), cfo_hz, noise_std, lead, &mut rng);
    frames(&envelope(&received)).into_iter().next().map(|(_, d)| d)
}

#[test]
fn loopback_clean() {
    let d = run_loopback("HELLO WORLD!", 0.0, 0.0, 5000, 1).expect("decoded");
    assert!(d.crc_ok);
    assert_eq!(d.payload, b"HELLO WORLD!");
}

#[test]
fn loopback_cfo_noise_offset() {
    // 18 kHz CFO (RTL-SDR-ish), moderate noise, odd start offset.
    let d = run_loopback("the quick brown fox", 18_000.0, 0.05, 7333, 42).expect("decoded");
    assert!(d.crc_ok, "crc failed, manchester_errors={}", d.manchester_errors);
    assert_eq!(d.payload, b"the quick brown fox");
}

#[test]
fn loopback_empty_and_max_ish() {
    let d = run_loopback("", 5000.0, 0.02, 1234, 9).expect("decoded");
    assert!(d.crc_ok);
    assert_eq!(d.payload, b"");
}

#[test]
fn flat_chips_come_back_during_the_last_one() {
    let longest: Vec<u8> = (0..255).collect();
    for payload in [&b""[..], b"flat", &longest] {
        let chips = frame_to_chips(payload);
        for amplitude in [0.25f32, 0.5, 1.0] {
            for (before, after) in [(0usize, 0usize), (1, 5000), (777, 30), (20_000, 20_000)] {
                let mut levels = vec![0.0f32; before];
                for chip in &chips {
                    levels.extend(vec![amplitude * *chip as f32; 100]);
                }
                let end = levels.len();
                levels.extend(vec![0.0f32; after]);
                let found = frames(&levels);
                assert_eq!(found.len(), 1);
                let (at, decoded) = &found[0];
                assert!(end - 100 <= *at && *at < end);
                assert_eq!(decoded.payload, payload);
                assert!(decoded.crc_ok);
                assert_eq!(decoded.manchester_errors, 0);
            }
        }
    }
}
