//! Streaming decoder: sliced envelope samples in, frames out.

use std::collections::VecDeque;

use vstd::prelude::*;

use crate::bits::bits_to_bytes;
use crate::boxcar;
use crate::counting;
use crate::crc;
use crate::crc::crc16;
use crate::frame;
use crate::frame::sync_chip_pattern;
use crate::manchester;
use crate::manchester::manchester_decode;
use crate::receiver;
use crate::receiver::{Frame, Phase, CHIPS_PER_BYTE, MAX_SYNC_ERRORS};

verus! {

/// Result of a successfully framed message.
#[derive(Clone, Debug)]
pub struct Decoded {
    pub payload: Vec<u8>,
    pub crc_ok: bool,
    /// Manchester chip-pair errors seen across LEN, PAYLOAD and CRC (sync-quality hint).
    pub manchester_errors: usize,
}

impl View for Decoded {
    type V = Frame;

    open spec fn view(&self) -> Frame {
        Frame {
            payload: self.payload@,
            crc_ok: self.crc_ok,
            manchester_errors: self.manchester_errors as nat,
        }
    }
}

/// The frame behind an optional result.
pub open spec fn frame_of(decoded: Option<Decoded>) -> Option<Frame> {
    match decoded {
        Some(d) => Some(d@),
        None => None,
    }
}

/// Where a smoothed envelope sample lies against the slicer's thresholds.
#[derive(Clone, Copy, Debug, PartialEq, Eq, Structural)]
pub enum Reading {
    /// The tracked on and off levels are too close to call this a signal.
    NoContrast,
    /// Above the hysteresis band.
    Above,
    /// Below the hysteresis band.
    Below,
    /// Inside the hysteresis band.
    Within,
}

/// What the chip clock does for a sample.
#[derive(Clone, Copy, Debug, PartialEq, Eq, Structural)]
pub enum ClockStep {
    /// There was no edge yet: the clock stands still.
    Hold,
    /// An edge: the clock starts over, half a chip from the next chip center,
    /// and this sample is its first tick.
    Restart,
    /// The clock ticks on.
    Advance,
}

/// The level of a sample: decided by the thresholds, kept inside the band, off
/// without contrast.
pub open spec fn level_after(level: u8, reading: Reading) -> u8 {
    match reading {
        Reading::NoContrast => 0,
        Reading::Above => 1,
        Reading::Below => 0,
        Reading::Within => level,
    }
}

/// The decoder as others see it: the level of the last sample, whether an edge
/// was seen, and what the chips so far have led to.
#[verifier::ext_equal]
pub struct Reception {
    pub level: u8,
    pub primed: bool,
    pub phase: Phase,
}

impl Reception {
    /// Before the first sample.
    pub open spec fn initial() -> Reception {
        Reception { level: 0, primed: false, phase: Phase::initial() }
    }

    /// What the chip clock does for a sample: it starts over at an edge, and
    /// runs from the first edge on.
    pub open spec fn clock_step(self, reading: Reading) -> ClockStep {
        if level_after(self.level, reading) != self.level {
            ClockStep::Restart
        } else if self.primed {
            ClockStep::Advance
        } else {
            ClockStep::Hold
        }
    }

    /// Whether a sample is a chip center, given whether it would be one for a
    /// clock that starts over and for the clock as it runs.
    pub open spec fn at_center(self, reading: Reading, restart_due: bool, advance_due: bool) -> bool {
        match self.clock_step(reading) {
            ClockStep::Hold => false,
            ClockStep::Restart => restart_due,
            ClockStep::Advance => advance_due,
        }
    }

    /// After one more sample. A chip center hands the sample's level on as a
    /// chip.
    pub open spec fn next(self, reading: Reading, restart_due: bool, advance_due: bool) -> Reception {
        let level = level_after(self.level, reading);
        Reception {
            level,
            primed: self.clock_step(reading) != ClockStep::Hold,
            phase: if self.at_center(reading, restart_due, advance_due) {
                self.phase.next(level)
            } else {
                self.phase
            },
        }
    }

    /// The frame that one more sample completes, if it completes one.
    pub open spec fn completed(
        self,
        reading: Reading,
        restart_due: bool,
        advance_due: bool,
    ) -> Option<Frame> {
        if self.at_center(reading, restart_due, advance_due) {
            self.phase.completed(level_after(self.level, reading))
        } else {
            None
        }
    }
}

#[derive(Clone, Copy, PartialEq, Eq, Structural)]
enum State {
    Search,
    ReadLen,
    ReadPayload,
}

/// Streaming on-off-keying and Manchester decoder. Feed sliced envelope samples
/// one at a time with [`Decoder::push`]; it returns a [`Decoded`] when a frame
/// completes.
pub struct Decoder {
    pattern: Vec<u8>,
    // on/off slicer
    last_bin: u8,
    // chip clock recovery
    primed: bool,
    // chip-stream sync correlation
    window: VecDeque<u8>,
    // frame assembly
    state: State,
    chip_acc: Vec<u8>,
    need_chips: usize,
    payload_len: usize,
    len_errors: usize,
}

impl View for Decoder {
    type V = Reception;

    closed spec fn view(&self) -> Reception {
        Reception {
            level: self.last_bin,
            primed: self.primed,
            phase: match self.state {
                State::Search => Phase::Search { window: self.window@ },
                State::ReadLen => Phase::ReadLen { chips: self.chip_acc@ },
                State::ReadPayload => Phase::ReadPayload {
                    len: self.payload_len as nat,
                    errors: self.len_errors as nat,
                    chips: self.chip_acc@,
                },
            },
        }
    }
}

impl Decoder {
    /// The pattern is the sync pattern, the level is on or off, and the buffers
    /// and counters fit the phase.
    pub closed spec fn wf(&self) -> bool {
        &&& self.pattern@ == frame::sync_pattern()
        &&& self.last_bin <= 1
        &&& self@.phase.wf()
        &&& match self.state {
            State::Search => self.chip_acc@.len() == 0,
            State::ReadLen => self.window@.len() == 0 && self.need_chips == CHIPS_PER_BYTE,
            State::ReadPayload => self.window@.len() == 0 && self.need_chips == CHIPS_PER_BYTE * (
            self.payload_len + 2),
        }
    }

    /// Whether two decoders differ in the level of the last sample at most: the
    /// chip clock's state, the sync window and all of the frame assembly are the
    /// same.
    pub closed spec fn same_but_level(&self, other: &Decoder) -> bool {
        &&& self.pattern == other.pattern
        &&& self.primed == other.primed
        &&& self.window == other.window
        &&& self.state == other.state
        &&& self.chip_acc == other.chip_acc
        &&& self.need_chips == other.need_chips
        &&& self.payload_len == other.payload_len
        &&& self.len_errors == other.len_errors
    }

    /// A well-formed decoder's level is on or off, and its phase is not overdue.
    pub proof fn law_state(&self)
        requires
            self.wf(),
        ensures
            self@.level <= 1,
            self@.phase.wf(),
    {
    }

    /// A decoder that has seen no sample.
    pub fn new() -> (decoder: Decoder)
        ensures
            decoder.wf(),
            decoder@ == Reception::initial(),
            decoder@.level == 0,
            !decoder@.primed,
            decoder@.phase == (Phase::Search { window: Seq::empty() }),
    {
        let pattern: Vec<u8> = sync_chip_pattern();
        proof {
            frame::lemma_pattern_length();
        }
        Decoder {
            window: VecDeque::with_capacity(pattern.len()),
            pattern,
            last_bin: 0,
            primed: false,
            state: State::Search,
            chip_acc: Vec::new(),
            need_chips: 0,
            payload_len: 0,
            len_errors: 0,
        }
    }

    /// Slice one envelope sample into a 0/1 level with hysteresis. Nothing but the
    /// level changes.
    pub fn slice(&mut self, reading: Reading) -> (level: u8)
        requires
            old(self).wf(),
        ensures
            final(self).wf(),
            level == level_after(old(self)@.level, reading),
            reading == Reading::Above ==> level == 1,
            reading == Reading::Below || reading == Reading::NoContrast ==> level == 0,
            reading == Reading::Within ==> level == old(self)@.level,
            final(self)@ == (Reception { level, ..old(self)@ }),
            final(self).same_but_level(old(self)),
    {
        match reading {
            Reading::NoContrast => {
                self.last_bin = 0;
            },
            Reading::Above => {
                self.last_bin = 1;
            },
            Reading::Below => {
                self.last_bin = 0;
            },
            Reading::Within => {},
        }
        self.last_bin
    }

    /// Feed one envelope sample.
    ///
    /// `restart_due` says whether the sample is a chip center if the chip clock
    /// starts over at it, `advance_due` whether it is one if the clock ticks on.
    /// Returns which of the two the clock does, and a [`Decoded`] when a frame
    /// completes.
    pub fn push(&mut self, reading: Reading, restart_due: bool, advance_due: bool) -> (result: (
        ClockStep,
        Option<Decoded>,
    ))
        requires
            old(self).wf(),
        ensures
            final(self).wf(),
            final(self)@ == old(self)@.next(reading, restart_due, advance_due),
            result.0 == old(self)@.clock_step(reading),
            frame_of(result.1) == old(self)@.completed(reading, restart_due, advance_due),
            (match (result.1, old(self)@.completed(reading, restart_due, advance_due)) {
                (Some(d), Some(frame)) => d.payload@ == frame.payload && d.crc_ok == frame.crc_ok
                    && d.manchester_errors == frame.manchester_errors,
                (None, None) => true,
                _ => false,
            }),
    {
        let prev: u8 = self.last_bin;
        let bin: u8 = self.slice(reading);

        // Edge: the chip clock starts over, so that chips are sampled at their centers.
        let edge: bool = bin != prev;
        if edge {
            self.primed = true;
        }
        if !self.primed {
            return (ClockStep::Hold, None);
        }
        let step: ClockStep = if edge {
            ClockStep::Restart
        } else {
            ClockStep::Advance
        };
        let due: bool = if edge {
            restart_due
        } else {
            advance_due
        };
        if !due {
            return (step, None);
        }
        // At a chip center: emit a chip.
        (step, self.on_chip(bin))
    }

    /// The number of chips in a full window that differ from the sync pattern.
    fn sync_errors(&self) -> (errors: usize)
        requires
            self.pattern@ == frame::sync_pattern(),
            self.window@.len() == self.pattern@.len(),
        ensures
            errors == receiver::mismatches(self.window@, frame::sync_pattern()),
    {
        let mut errors: usize = 0;
        let mut i: usize = 0;
        let ghost differ = |i: int| self.window@[i] != frame::sync_pattern()[i];
        while i < self.pattern.len()
            invariant
                i <= self.pattern@.len(),
                self.pattern@ == frame::sync_pattern(),
                self.window@.len() == self.pattern@.len(),
                differ == (|i: int| self.window@[i] != frame::sync_pattern()[i]),
                errors <= i,
                errors == counting::count(i as nat, differ),
            decreases self.pattern@.len() - i,
        {
            if self.window[i] != self.pattern[i] {
                errors = errors + 1;
            }
            i = i + 1;
        }
        errors
    }

    /// Read a payload and its checksum from the collected chips.
    fn read_frame(&self) -> (decoded: Decoded)
        requires
            self.payload_len <= frame::MAX_PAYLOAD,
            self.len_errors <= CHIPS_PER_BYTE / 2,
            self.chip_acc@.len() == CHIPS_PER_BYTE * (self.payload_len + 2),
        ensures
            decoded@ == receiver::frame_read(
                self.payload_len as nat,
                self.len_errors as nat,
                self.chip_acc@,
            ),
    {
        let (bits, errors) = manchester_decode(&self.chip_acc);
        let bytes: Vec<u8> = bits_to_bytes(&bits);
        proof {
            manchester::lemma_bad_pairs_bound(self.chip_acc@);
        }
        let n: usize = self.payload_len;
        assert(bytes@ == receiver::bytes_read(self.chip_acc@));
        assert(bytes@.len() == n + 2);

        // The checksum was computed over LEN | PAYLOAD.
        let mut payload: Vec<u8> = Vec::with_capacity(n);
        let mut check: Vec<u8> = Vec::with_capacity(n + 1);
        check.push(n as u8);
        let mut i: usize = 0;
        while i < n
            invariant
                i <= n,
                bytes@.len() == n + 2,
                payload@ == bytes@.take(i as int),
                check@ == seq![n as u8] + payload@,
            decreases n - i,
        {
            payload.push(bytes[i]);
            check.push(bytes[i]);
            assert(payload@ =~= bytes@.take(i + 1));
            i = i + 1;
        }
        let (hi, lo) = (bytes[n], bytes[n + 1]);
        let rx_crc: u16 = ((hi as u16) << 8) | lo as u16;
        let crc: u16 = crc16(&check);
        proof {
            assert(check@ =~= frame::checked_bytes(payload@));
            assert(rx_crc == crc <==> (hi == (crc >> 8) as u8 && lo == (crc & 0xFF) as u8))
                by (bit_vector)
                requires
                    rx_crc == ((hi as u16) << 8) | lo as u16,
            ;
            let rest = bytes@.skip(n as int);
            assert(rest.len() == 2 && rest[0] == hi && rest[1] == lo);
            if rx_crc == crc {
                assert(rest =~= crc::crc_bytes(crc));
            }
        }
        Decoded { payload, crc_ok: crc == rx_crc, manchester_errors: self.len_errors + errors }
    }

    /// Consume one recovered chip and advance the frame state machine.
    pub fn on_chip(&mut self, chip: u8) -> (decoded: Option<Decoded>)
        requires
            old(self).wf(),
        ensures
            final(self).wf(),
            final(self)@ == (Reception { phase: old(self)@.phase.next(chip), ..old(self)@ }),
            frame_of(decoded) == old(self)@.phase.completed(chip),
            (match (decoded, old(self)@.phase.completed(chip)) {
                (Some(d), Some(frame)) => d.payload@ == frame.payload && d.crc_ok == frame.crc_ok
                    && d.manchester_errors == frame.manchester_errors,
                (None, None) => true,
                _ => false,
            }),
    {
        proof {
            frame::lemma_pattern_length();
        }
        match self.state {
            State::Search => {
                if self.window.len() == self.pattern.len() {
                    self.window.pop_front();
                }
                self.window.push_back(chip);
                assert(self.window@ =~= boxcar::slide(
                    old(self).window@,
                    frame::sync_pattern().len(),
                    chip,
                ));
                if self.window.len() == self.pattern.len() {
                    let errors: usize = self.sync_errors();
                    if errors <= MAX_SYNC_ERRORS {
                        // Aligned: the next chips are the length byte.
                        self.state = State::ReadLen;
                        self.chip_acc.clear();
                        self.need_chips = CHIPS_PER_BYTE;
                        self.window.clear();
                    }
                }
                None
            },
            State::ReadLen => {
                self.chip_acc.push(chip);
                if self.chip_acc.len() >= self.need_chips {
                    let (bits, errors) = manchester_decode(&self.chip_acc);
                    proof {
                        manchester::lemma_bad_pairs_bound(self.chip_acc@);
                    }
                    let bytes: Vec<u8> = bits_to_bytes(&bits);
                    let len: usize = bytes[0] as usize;
                    self.payload_len = len;
                    self.len_errors = errors;
                    self.chip_acc.clear();
                    // PAYLOAD and CRC16 are len + 2 bytes.
                    self.need_chips = (len + 2) * CHIPS_PER_BYTE;
                    self.state = State::ReadPayload;
                }
                None
            },
            State::ReadPayload => {
                self.chip_acc.push(chip);
                if self.chip_acc.len() >= self.need_chips {
                    let decoded: Decoded = self.read_frame();
                    self.state = State::Search;
                    self.chip_acc.clear();
                    return Some(decoded);
                }
                None
            },
        }
    }
}

/// What a sample does. Above the band it is on, below the band or without contrast
/// off, and within the band as the sample before. Where that is a change, the clock
/// starts over, and it runs from the first change on. A sample is taken as a chip,
/// with its level, if the clock starts over or runs and says that it is due;
/// otherwise the receiver sees nothing of it.
pub proof fn law_one_sample(
    before: Reception,
    reading: Reading,
    restart_due: bool,
    advance_due: bool,
)
    ensures
        ({
            let then = before.next(reading, restart_due, advance_due);
            let edge = then.level != before.level;
            let taken = if edge {
                restart_due
            } else {
                before.primed && advance_due
            };
            &&& reading == Reading::Above ==> then.level == 1
            &&& reading == Reading::Below ==> then.level == 0
            &&& reading == Reading::NoContrast ==> then.level == 0
            &&& reading == Reading::Within ==> then.level == before.level
            &&& then.primed <==> before.primed || edge
            &&& before.clock_step(reading) == ClockStep::Restart <==> edge
            &&& before.clock_step(reading) == ClockStep::Advance <==> !edge && before.primed
            &&& before.clock_step(reading) == ClockStep::Hold <==> !edge && !before.primed
            &&& taken ==> then.phase == before.phase.next(then.level) && before.completed(
                reading,
                restart_due,
                advance_due,
            ) == before.phase.completed(then.level)
            &&& !taken ==> then.phase == before.phase && before.completed(
                reading,
                restart_due,
                advance_due,
            ) == None::<Frame>
        }),
{
}

} // verus!
