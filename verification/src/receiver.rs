//! The receiver as a state machine on chips: what it looks for, what it has
//! read so far, and what it reports.

use vstd::prelude::*;

use crate::bits;
use crate::boxcar;
use crate::counting;
use crate::crc;
use crate::frame;
use crate::manchester;

verus! {

/// Maximum chip mismatches tolerated when matching the sync pattern.
pub const MAX_SYNC_ERRORS: usize = 6;

/// Chips in which one byte travels: eight bits, two chips to a bit.
pub const CHIPS_PER_BYTE: usize = 16;

/// A received frame.
#[verifier::ext_equal]
pub struct Frame {
    pub payload: Seq<u8>,
    pub crc_ok: bool,
    pub manchester_errors: nat,
}

/// What the receiver is doing, and the chips that it does it with.
#[verifier::ext_equal]
pub enum Phase {
    /// Looking for the sync pattern in the latest chips.
    Search { window: Seq<u8> },
    /// Aligned; reading the length byte.
    ReadLen { chips: Seq<u8> },
    /// Reading a payload of the announced length and its checksum.
    /// `errors` are the bad chip pairs of the length byte.
    ReadPayload { len: nat, errors: nat, chips: Seq<u8> },
}

/// The number of positions at which two strings of one length differ.
pub open spec fn mismatches(a: Seq<u8>, b: Seq<u8>) -> nat {
    counting::count(a.len(), |i: int| a[i] != b[i])
}

/// Whether a full window of chips matches the sync pattern closely enough.
pub open spec fn in_sync(window: Seq<u8>) -> bool {
    &&& window.len() == frame::sync_pattern().len()
    &&& mismatches(window, frame::sync_pattern()) <= MAX_SYNC_ERRORS
}

/// The bytes that chips are read as.
pub open spec fn bytes_read(chips: Seq<u8>) -> Seq<u8> {
    bits::bytes_of(manchester::bits_of_chips(chips))
}

/// The frame that is read from the chips after a length byte `len`, which was
/// read with `errors` bad chip pairs.
pub open spec fn frame_read(len: nat, errors: nat, chips: Seq<u8>) -> Frame {
    let bytes = bytes_read(chips);
    let payload = bytes.take(len as int);
    Frame {
        payload,
        crc_ok: bytes.skip(len as int) == crc::crc_bytes(
            crc::crc_of(frame::checked_bytes(payload)),
        ),
        manchester_errors: errors + manchester::bad_pairs(chips),
    }
}

impl Phase {
    /// The phase of a receiver that has seen nothing yet.
    pub open spec fn initial() -> Phase {
        Phase::Search { window: Seq::empty() }
    }

    /// No phase lasts longer than it takes to get what it waits for.
    pub open spec fn wf(self) -> bool {
        match self {
            Phase::Search { window } => window.len() <= frame::sync_pattern().len() && !in_sync(
                window,
            ),
            Phase::ReadLen { chips } => chips.len() < CHIPS_PER_BYTE,
            Phase::ReadPayload { len, errors, chips } => len <= frame::MAX_PAYLOAD && errors
                <= CHIPS_PER_BYTE / 2 && chips.len() < CHIPS_PER_BYTE * (len + 2),
        }
    }

    /// The phase after one more chip.
    pub open spec fn next(self, chip: u8) -> Phase {
        match self {
            Phase::Search { window } => {
                let window = boxcar::slide(window, frame::sync_pattern().len(), chip);
                if in_sync(window) {
                    Phase::ReadLen { chips: Seq::empty() }
                } else {
                    Phase::Search { window }
                }
            },
            Phase::ReadLen { chips } => {
                let chips = chips.push(chip);
                if chips.len() >= CHIPS_PER_BYTE {
                    Phase::ReadPayload {
                        len: bytes_read(chips)[0] as nat,
                        errors: manchester::bad_pairs(chips),
                        chips: Seq::empty(),
                    }
                } else {
                    Phase::ReadLen { chips }
                }
            },
            Phase::ReadPayload { len, errors, chips } => {
                let chips = chips.push(chip);
                if chips.len() >= CHIPS_PER_BYTE * (len + 2) {
                    Phase::initial()
                } else {
                    Phase::ReadPayload { len, errors, chips }
                }
            },
        }
    }

    /// The frame that one more chip completes, if it completes one.
    pub open spec fn completed(self, chip: u8) -> Option<Frame> {
        match self {
            Phase::ReadPayload { len, errors, chips } => {
                let chips = chips.push(chip);
                if chips.len() >= CHIPS_PER_BYTE * (len + 2) {
                    Some(frame_read(len, errors, chips))
                } else {
                    None
                }
            },
            _ => None,
        }
    }
}

/// The phase after a string of chips.
pub open spec fn phase_after(phase: Phase, chips: Seq<u8>) -> Phase
    decreases chips.len(),
{
    if chips.len() == 0 {
        phase
    } else {
        phase_after(phase, chips.drop_last()).next(chips.last())
    }
}

/// The frames that a string of chips completes, in order.
pub open spec fn frames_from(phase: Phase, chips: Seq<u8>) -> Seq<Frame>
    decreases chips.len(),
{
    if chips.len() == 0 {
        Seq::empty()
    } else {
        let before = frames_from(phase, chips.drop_last());
        match phase_after(phase, chips.drop_last()).completed(chips.last()) {
            Some(frame) => before.push(frame),
            None => before,
        }
    }
}

/// Chips in two parts lead where the second part leads after the first, and
/// complete the frames of both.
pub proof fn lemma_chips_in_parts(phase: Phase, first: Seq<u8>, second: Seq<u8>)
    ensures
        phase_after(phase, first + second) == phase_after(phase_after(phase, first), second),
        frames_from(phase, first + second) == frames_from(phase, first) + frames_from(
            phase_after(phase, first),
            second,
        ),
    decreases second.len(),
{
    if second.len() == 0 {
        assert(first + second =~= first);
        assert(frames_from(phase, first) + Seq::<Frame>::empty() =~= frames_from(phase, first));
    } else {
        assert((first + second).drop_last() =~= first + second.drop_last());
        lemma_chips_in_parts(phase, first, second.drop_last());
        assert(frames_from(phase, first + second) =~= frames_from(phase, first) + frames_from(
            phase_after(phase, first),
            second,
        ));
    }
}

/// The chips that a phase has taken since the receiver was last as new, at the
/// least.
spec fn taken_for(phase: Phase) -> int {
    match phase {
        Phase::Search { window } => window.len() as int,
        Phase::ReadLen { chips } => (frame::sync_pattern().len() + chips.len()) as int,
        Phase::ReadPayload { len, errors, chips } => frame::sync_pattern().len() + CHIPS_PER_BYTE
            + chips.len(),
    }
}

/// The frames reported, and the chips taken for the next one, do not take more
/// chips than there were.
proof fn lemma_chips_of_frames(chips: Seq<u8>)
    ensures
        144 * frames_from(Phase::initial(), chips).len() + taken_for(
            phase_after(Phase::initial(), chips),
        ) <= chips.len(),
    decreases chips.len(),
{
    frame::lemma_pattern_length();
    if chips.len() > 0 {
        lemma_chips_of_frames(chips.drop_last());
        law_phase_stays_well_formed(Phase::initial(), chips.drop_last());
    }
}

/// Every frame takes at least the chips of the sync pattern, of a length byte and
/// of a checksum. So a new receiver reports nothing until it has taken that many
/// chips, whatever they are.
pub proof fn law_frame_takes_chips(chips: Seq<u8>)
    ensures
        (frame::sync_pattern().len() + 3 * CHIPS_PER_BYTE) * frames_from(
            Phase::initial(),
            chips,
        ).len() <= chips.len(),
        frame::sync_pattern().len() + 3 * CHIPS_PER_BYTE == 144,
        chips.len() < 144 ==> frames_from(Phase::initial(), chips) == Seq::<Frame>::empty(),
{
    frame::lemma_pattern_length();
    lemma_chips_of_frames(chips);
}

/// Every phase that chips lead to from a well-formed one is well-formed: the
/// receiver never waits for more than it announced.
pub proof fn law_phase_stays_well_formed(phase: Phase, chips: Seq<u8>)
    requires
        phase.wf(),
    ensures
        phase_after(phase, chips).wf(),
    decreases chips.len(),
{
    frame::lemma_pattern_length();
    if chips.len() > 0 {
        law_phase_stays_well_formed(phase, chips.drop_last());
        let before = phase_after(phase, chips.drop_last());
        if let Phase::ReadLen { chips: read } = before {
            manchester::lemma_bad_pairs_bound(read.push(chips.last()));
        }
    }
}

/// The number of mismatches of two strings of one length is the size of the set of
/// positions at which they differ.
pub proof fn law_mismatches_are_counted(a: Seq<u8>, b: Seq<u8>)
    ensures
        Set::new(|i: int| 0 <= i < a.len() && a[i] != b[i]).finite(),
        mismatches(a, b) == Set::new(|i: int| 0 <= i < a.len() && a[i] != b[i]).len(),
{
    let differ = |i: int| a[i] != b[i];
    counting::law_count_is_size(a.len(), differ);
    assert(Set::new(|i: int| 0 <= i < a.len() && differ(i)) =~= Set::new(
        |i: int| 0 <= i < a.len() && a[i] != b[i],
    ));
}

/// A string of chips does what its chips do one after the other.
pub proof fn law_chip_by_chip(phase: Phase, chips: Seq<u8>, chip: u8)
    ensures
        phase_after(phase, Seq::empty()) == phase,
        frames_from(phase, Seq::empty()) == Seq::<Frame>::empty(),
        phase_after(phase, chips.push(chip)) == phase_after(phase, chips).next(chip),
        frames_from(phase, chips.push(chip)) == match phase_after(phase, chips).completed(chip) {
            Some(frame) => frames_from(phase, chips).push(frame),
            None => frames_from(phase, chips),
        },
{
    assert(chips.push(chip).drop_last() =~= chips);
}

} // verus!
