//! What the link promises: the receiver gives back what the transmitter framed.

use vstd::prelude::*;

use crate::acquisition;
use crate::bits;
use crate::crc;
use crate::frame;
use crate::manchester;
use crate::receiver;
use crate::receiver::{Frame, Phase};

verus! {

/// The frame that reports `payload` as it was sent.
pub open spec fn intact(payload: Seq<u8>) -> Frame {
    Frame { payload, crc_ok: true, manchester_errors: 0 }
}

/// Chips of bytes are read as these bytes, without an error.
proof fn lemma_bytes_survive_chips(bytes: Seq<u8>)
    ensures
        receiver::bytes_read(frame::chips_of(bytes)) == bytes,
        manchester::bad_pairs(frame::chips_of(bytes)) == 0,
        frame::chips_of(bytes).len() == 16 * bytes.len(),
{
    reveal(frame::chips_of);
    bits::lemma_bits_are_binary(bytes);
    manchester::law_bits_survive_chips(bits::bits_of(bytes));
    bits::law_bytes_survive_bits(bytes);
}

/// While a length byte is incomplete its chips are collected.
pub proof fn lemma_reading_len(chips: Seq<u8>)
    requires
        chips.len() < 16,
    ensures
        receiver::phase_after(Phase::ReadLen { chips: Seq::empty() }, chips) == (Phase::ReadLen {
            chips,
        }),
        receiver::frames_from(Phase::ReadLen { chips: Seq::empty() }, chips) == Seq::<
            Frame,
        >::empty(),
    decreases chips.len(),
{
    if chips.len() > 0 {
        lemma_reading_len(chips.drop_last());
        assert(chips.drop_last().push(chips.last()) =~= chips);
    } else {
        assert(chips =~= Seq::empty());
    }
}

/// While a payload is incomplete its chips are collected.
pub proof fn lemma_reading_payload(len: nat, errors: nat, chips: Seq<u8>)
    requires
        chips.len() < 16 * (len + 2),
    ensures
        receiver::phase_after(Phase::ReadPayload { len, errors, chips: Seq::empty() }, chips) == (
        Phase::ReadPayload { len, errors, chips }),
        receiver::frames_from(Phase::ReadPayload { len, errors, chips: Seq::empty() }, chips)
            == Seq::<Frame>::empty(),
    decreases chips.len(),
{
    if chips.len() > 0 {
        lemma_reading_payload(len, errors, chips.drop_last());
        assert(chips.drop_last().push(chips.last()) =~= chips);
    } else {
        assert(chips =~= Seq::empty());
    }
}

/// A length byte that is complete says how many bytes follow.
pub proof fn lemma_len_read(chips: Seq<u8>)
    requires
        chips.len() == 16,
    ensures
        receiver::phase_after(Phase::ReadLen { chips: Seq::empty() }, chips) == (
        Phase::ReadPayload {
            len: receiver::bytes_read(chips)[0] as nat,
            errors: manchester::bad_pairs(chips),
            chips: Seq::empty(),
        }),
        receiver::frames_from(Phase::ReadLen { chips: Seq::empty() }, chips) == Seq::<
            Frame,
        >::empty(),
{
    lemma_reading_len(chips.drop_last());
    assert(chips.drop_last().push(chips.last()) =~= chips);
}

/// An aligned receiver reads a length byte and then as many bytes as it
/// announces, whatever they hold; it reports exactly one frame, at the last
/// chip, and is then as it was before its first chip.
pub proof fn law_aligned_reads_one_frame(len_chips: Seq<u8>, chips: Seq<u8>)
    requires
        len_chips.len() == 16,
        chips.len() == 16 * (receiver::bytes_read(len_chips)[0] + 2),
    ensures
        receiver::phase_after(Phase::ReadLen { chips: Seq::empty() }, len_chips + chips)
            == Phase::initial(),
        receiver::frames_from(Phase::ReadLen { chips: Seq::empty() }, len_chips + chips) == seq![
            receiver::frame_read(
                receiver::bytes_read(len_chips)[0] as nat,
                manchester::bad_pairs(len_chips),
                chips,
            ),
        ],
        receiver::frames_from(
            Phase::ReadLen { chips: Seq::empty() },
            (len_chips + chips).drop_last(),
        ) == Seq::<Frame>::empty(),
{
    let start = Phase::ReadLen { chips: Seq::empty() };
    let len = receiver::bytes_read(len_chips)[0] as nat;
    let errors = manchester::bad_pairs(len_chips);
    let reading = Phase::ReadPayload { len, errors, chips: Seq::empty() };
    lemma_len_read(len_chips);
    assert(receiver::phase_after(start, len_chips) == reading);
    lemma_reading_payload(len, errors, chips.drop_last());
    assert(chips.drop_last().push(chips.last()) =~= chips);
    receiver::lemma_chips_in_parts(start, len_chips, chips);
    assert(receiver::frames_from(start, len_chips + chips) =~= seq![
        receiver::frame_read(len, errors, chips),
    ]);
    receiver::lemma_chips_in_parts(start, len_chips, chips.drop_last());
    assert((len_chips + chips).drop_last() =~= len_chips + chips.drop_last());
}

/// While no window matches the sync pattern, a searching receiver keeps the
/// latest chips and reports nothing.
pub proof fn law_search_keeps_latest(window: Seq<u8>, chips: Seq<u8>)
    requires
        (Phase::Search { window }).wf(),
        forall|n: int|
            0 <= n <= chips.len() ==> !receiver::in_sync(
                #[trigger] acquisition::latest(window + chips.take(n)),
            ),
    ensures
        receiver::phase_after(Phase::Search { window }, chips) == (Phase::Search {
            window: acquisition::latest(window + chips),
        }),
        receiver::frames_from(Phase::Search { window }, chips) == Seq::<Frame>::empty(),
    decreases chips.len(),
{
    if chips.len() == 0 {
        assert(window + chips =~= window);
    } else {
        let fewer = chips.drop_last();
        assert forall|n: int| 0 <= n <= fewer.len() implies !receiver::in_sync(
            #[trigger] acquisition::latest(window + fewer.take(n)),
        ) by {
            assert(fewer.take(n) =~= chips.take(n));
        }
        law_search_keeps_latest(window, fewer);
        assert(chips.take(chips.len() as int) =~= chips);
        assert(!receiver::in_sync(acquisition::latest(window + chips.take(chips.len() as int))));
        lemma_slide_is_latest(window + fewer, chips.last());
        assert((window + fewer).push(chips.last()) =~= window + chips);
    }
}

/// Sliding the latest chips gives the latest chips.
proof fn lemma_slide_is_latest(chips: Seq<u8>, chip: u8)
    ensures
        crate::boxcar::slide(
            acquisition::latest(chips),
            frame::sync_pattern().len(),
            chip,
        ) == acquisition::latest(chips.push(chip)),
{
    let n = frame::sync_pattern().len();
    acquisition::law_pattern_ends_header(Seq::empty());
    assert(crate::boxcar::slide(acquisition::latest(chips), n, chip) =~= acquisition::latest(
        chips.push(chip),
    ));
}

/// A searching receiver gets aligned by the first chip that makes its window
/// match the sync pattern up to the tolerated mismatches, whatever chips came
/// before.
pub proof fn law_first_match_aligns(window: Seq<u8>, lead: Seq<u8>)
    requires
        (Phase::Search { window }).wf(),
        lead.len() > 0,
        receiver::in_sync(acquisition::latest(window + lead)),
        forall|n: int|
            0 <= n < lead.len() ==> !receiver::in_sync(
                #[trigger] acquisition::latest(window + lead.take(n)),
            ),
    ensures
        receiver::phase_after(Phase::Search { window }, lead) == (Phase::ReadLen {
            chips: Seq::empty(),
        }),
        receiver::frames_from(Phase::Search { window }, lead) == Seq::<Frame>::empty(),
{
    let fewer = lead.drop_last();
    assert forall|n: int| 0 <= n <= fewer.len() implies !receiver::in_sync(
        #[trigger] acquisition::latest(window + fewer.take(n)),
    ) by {
        assert(fewer.take(n) =~= lead.take(n));
    }
    law_search_keeps_latest(window, fewer);
    lemma_slide_is_latest(window + fewer, lead.last());
    assert((window + fewer).push(lead.last()) =~= window + lead);
}

/// The chips of a framed payload are those of its length byte and those of the
/// rest, and are read as that payload.
proof fn lemma_body_parts(payload: Seq<u8>) -> (parts: (Seq<u8>, Seq<u8>))
    requires
        payload.len() <= frame::MAX_PAYLOAD,
    ensures
        frame::chips_of(frame::frame_bytes(payload)) == parts.0 + parts.1,
        parts.0.len() == 16,
        parts.1.len() == 16 * (payload.len() + 2),
        receiver::bytes_read(parts.0)[0] == payload.len(),
        manchester::bad_pairs(parts.0) == 0,
        receiver::frame_read(payload.len(), 0, parts.1) == intact(payload),
{
    let len = seq![payload.len() as u8];
    let check = crc::crc_bytes(crc::crc_of(frame::checked_bytes(payload)));
    let rest = payload + check;
    assert(frame::frame_bytes(payload) =~= len + rest);
    frame::lemma_chips_of_concat(len, rest);
    lemma_bytes_survive_chips(len);
    lemma_bytes_survive_chips(rest);
    assert(rest.take(payload.len() as int) =~= payload);
    assert(rest.skip(payload.len() as int) =~= check);
    (frame::chips_of(len), frame::chips_of(rest))
}

/// An aligned receiver reads the chips of a framed payload as that payload, at
/// the last of them.
proof fn lemma_body_recovered(payload: Seq<u8>)
    requires
        payload.len() <= frame::MAX_PAYLOAD,
    ensures
        frame::chips_of(frame::frame_bytes(payload)).len() > 0,
        receiver::frames_from(
            Phase::ReadLen { chips: Seq::empty() },
            frame::chips_of(frame::frame_bytes(payload)).drop_last(),
        ) == Seq::<Frame>::empty(),
        receiver::frames_from(
            Phase::ReadLen { chips: Seq::empty() },
            frame::chips_of(frame::frame_bytes(payload)),
        ) == seq![intact(payload)],
        receiver::phase_after(
            Phase::ReadLen { chips: Seq::empty() },
            frame::chips_of(frame::frame_bytes(payload)),
        ) == Phase::initial(),
{
    let (len_chips, chips) = lemma_body_parts(payload);
    law_aligned_reads_one_frame(len_chips, chips);
}

/// Once a receiver is aligned by any chips before the length byte, with up to
/// the tolerated mismatches, the chips of a framed payload give the payload
/// back, with a good checksum and no error, at the last chip, and leave the
/// receiver as new.
pub proof fn law_frame_recovered(window: Seq<u8>, lead: Seq<u8>, payload: Seq<u8>)
    requires
        (Phase::Search { window }).wf(),
        lead.len() > 0,
        receiver::in_sync(acquisition::latest(window + lead)),
        forall|n: int|
            0 <= n < lead.len() ==> !receiver::in_sync(
                #[trigger] acquisition::latest(window + lead.take(n)),
            ),
        payload.len() <= frame::MAX_PAYLOAD,
    ensures
        receiver::frames_from(
            Phase::Search { window },
            lead + frame::chips_of(frame::frame_bytes(payload)),
        ) == seq![intact(payload)],
        receiver::phase_after(
            Phase::Search { window },
            lead + frame::chips_of(frame::frame_bytes(payload)),
        ) == Phase::initial(),
        receiver::frames_from(
            Phase::Search { window },
            (lead + frame::chips_of(frame::frame_bytes(payload))).drop_last(),
        ) == Seq::<Frame>::empty(),
{
    let body = frame::chips_of(frame::frame_bytes(payload));
    lemma_body_recovered(payload);
    law_first_match_aligns(window, lead);
    receiver::lemma_chips_in_parts(Phase::Search { window }, lead, body);
    assert(receiver::frames_from(Phase::Search { window }, lead + body) =~= seq![intact(payload)]);
    receiver::lemma_chips_in_parts(Phase::Search { window }, lead, body.drop_last());
    assert((lead + body).drop_last() =~= lead + body.drop_last());
}

/// After any silence, a frame whose header arrives with no more wrong chips than
/// are tolerated gives its payload back, with a good checksum and no error,
/// exactly once, at its last chip, and leaves the receiver as new.
pub proof fn law_round_trip_despite_header_errors(gap: nat, lead: Seq<u8>, payload: Seq<u8>)
    requires
        payload.len() <= frame::MAX_PAYLOAD,
        lead.len() == gap + acquisition::header().len(),
        receiver::mismatches(lead, frame::silence(gap) + acquisition::header())
            <= receiver::MAX_SYNC_ERRORS,
    ensures
        receiver::frames_from(
            Phase::initial(),
            lead + frame::chips_of(frame::frame_bytes(payload)),
        ) == seq![intact(payload)],
        receiver::phase_after(
            Phase::initial(),
            lead + frame::chips_of(frame::frame_bytes(payload)),
        ) == Phase::initial(),
        receiver::frames_from(
            Phase::initial(),
            (lead + frame::chips_of(frame::frame_bytes(payload))).drop_last(),
        ) == Seq::<Frame>::empty(),
{
    let none = Seq::<u8>::empty();
    acquisition::law_pattern_ends_header(payload);
    acquisition::law_header_found_despite_errors(gap, lead);
    assert(lead.take(lead.len() as int) =~= lead);
    assert(none + lead =~= lead);
    assert(receiver::in_sync(acquisition::latest(lead.take(lead.len() as int))));
    assert forall|n: int| 0 <= n < lead.len() implies !receiver::in_sync(
        #[trigger] acquisition::latest(none + lead.take(n)),
    ) by {
        assert(none + lead.take(n) =~= lead.take(n));
    }
    law_frame_recovered(none, lead, payload);
}

/// The round trip: after any silence, the chips of a frame give its payload
/// back, with a good checksum and no error, exactly once, at the last chip, and
/// leave the receiver as new.
pub proof fn law_round_trip(gap: nat, payload: Seq<u8>)
    requires
        payload.len() <= frame::MAX_PAYLOAD,
    ensures
        receiver::frames_from(
            Phase::initial(),
            frame::silence(gap) + frame::frame_chips(payload),
        ) == seq![intact(payload)],
        receiver::phase_after(
            Phase::initial(),
            frame::silence(gap) + frame::frame_chips(payload),
        ) == Phase::initial(),
        receiver::frames_from(
            Phase::initial(),
            (frame::silence(gap) + frame::frame_chips(payload)).drop_last(),
        ) == Seq::<Frame>::empty(),
{
    let lead = frame::silence(gap) + acquisition::header();
    acquisition::law_pattern_ends_header(payload);
    crate::counting::lemma_count_bounds(lead.len(), |i: int| lead[i] != lead[i]);
    law_round_trip_despite_header_errors(gap, lead, payload);
    assert(frame::silence(gap) + frame::frame_chips(payload) =~= lead + frame::chips_of(
        frame::frame_bytes(payload),
    ));
}

/// Silence is never taken for a frame.
pub proof fn law_silence_reports_nothing(gap: nat)
    ensures
        receiver::frames_from(Phase::initial(), frame::silence(gap)) == Seq::<
            Frame,
        >::empty(),
{
    let quiet = frame::silence(gap);
    let none = Seq::<u8>::empty();
    let lead = quiet + acquisition::header();
    acquisition::law_pattern_ends_header(none);
    crate::counting::lemma_count_bounds(lead.len(), |i: int| lead[i] != lead[i]);
    acquisition::law_header_found_despite_errors(gap, lead);
    assert forall|n: int| 0 <= n <= quiet.len() implies !receiver::in_sync(
        #[trigger] acquisition::latest(none + quiet.take(n)),
    ) by {
        assert(none + quiet.take(n) =~= lead.take(n));
        assert(!receiver::in_sync(acquisition::latest(lead.take(n))));
    }
    law_search_keeps_latest(none, quiet);
}

/// A transmission of several frames, each after some silence.
pub open spec fn transmission(gaps: Seq<nat>, payloads: Seq<Seq<u8>>) -> Seq<u8>
    decreases payloads.len(),
{
    if payloads.len() == 0 {
        Seq::empty()
    } else {
        transmission(gaps.drop_last(), payloads.drop_last()) + (frame::silence(gaps.last())
            + frame::frame_chips(payloads.last()))
    }
}

/// All frames of a transmission are received, each once and in order, whatever
/// the silence between and after them.
pub proof fn law_all_frames_received(gaps: Seq<nat>, payloads: Seq<Seq<u8>>, after: nat)
    requires
        gaps.len() == payloads.len(),
        forall|i: int| 0 <= i < payloads.len() ==> (#[trigger] payloads[i]).len()
            <= frame::MAX_PAYLOAD,
    ensures
        receiver::frames_from(
            Phase::initial(),
            transmission(gaps, payloads) + frame::silence(after),
        ) == payloads.map_values(|payload: Seq<u8>| intact(payload)),
{
    lemma_transmission(gaps, payloads);
    receiver::lemma_chips_in_parts(
        Phase::initial(),
        transmission(gaps, payloads),
        frame::silence(after),
    );
    law_silence_reports_nothing(after);
    let frames = payloads.map_values(|payload: Seq<u8>| intact(payload));
    assert(frames + Seq::<Frame>::empty() =~= frames);
}

proof fn lemma_transmission(gaps: Seq<nat>, payloads: Seq<Seq<u8>>)
    requires
        gaps.len() == payloads.len(),
        forall|i: int| 0 <= i < payloads.len() ==> (#[trigger] payloads[i]).len()
            <= frame::MAX_PAYLOAD,
    ensures
        receiver::frames_from(Phase::initial(), transmission(gaps, payloads))
            == payloads.map_values(|payload: Seq<u8>| intact(payload)),
        receiver::phase_after(Phase::initial(), transmission(gaps, payloads)) == Phase::initial(),
    decreases payloads.len(),
{
    let frames = payloads.map_values(|payload: Seq<u8>| intact(payload));
    if payloads.len() == 0 {
        assert(frames =~= Seq::empty());
    } else {
        let (fewer_gaps, fewer) = (gaps.drop_last(), payloads.drop_last());
        let last = frame::silence(gaps.last()) + frame::frame_chips(payloads.last());
        assert forall|i: int| 0 <= i < fewer.len() implies (#[trigger] fewer[i]).len()
            <= frame::MAX_PAYLOAD by {
            assert(fewer[i] == payloads[i]);
        }
        lemma_transmission(fewer_gaps, fewer);
        law_round_trip(gaps.last(), payloads.last());
        receiver::lemma_chips_in_parts(
            Phase::initial(),
            transmission(fewer_gaps, fewer),
            last,
        );
        assert(frames =~= fewer.map_values(|payload: Seq<u8>| intact(payload)) + seq![
            intact(payloads.last()),
        ]);
    }
}

/// A frame is reported with a good checksum exactly when its length, payload and
/// checksum bytes together have checksum zero.
pub proof fn law_good_checksum_is_zero_residue(len: nat, errors: nat, chips: Seq<u8>)
    requires
        len <= frame::MAX_PAYLOAD,
        chips.len() == 16 * (len + 2),
    ensures
        receiver::frame_read(len, errors, chips).crc_ok <==> crc::crc_of(
            seq![len as u8] + receiver::bytes_read(chips),
        ) == 0,
{
    let bytes = receiver::bytes_read(chips);
    let payload = bytes.take(len as int);
    let rest = bytes.skip(len as int);
    let (hi, lo) = (rest[0], rest[1]);
    let check = ((hi as u16) << 8) | lo as u16;
    assert((check >> 8) as u8 == hi && (check & 0xFF) as u8 == lo) by (bit_vector)
        requires
            check == ((hi as u16) << 8) | lo as u16,
    ;
    assert(rest =~= crc::crc_bytes(check));
    let checked = frame::checked_bytes(payload);
    crc::law_residue(checked, check);
    assert(seq![len as u8] + bytes =~= checked + crc::crc_bytes(check));
    if rest == crc::crc_bytes(crc::crc_of(checked)) {
        let crc = crc::crc_of(checked);
        assert(rest[0] == (crc >> 8) as u8 && rest[1] == (crc & 0xFF) as u8);
        assert(check == crc) by (bit_vector)
            requires
                check == ((hi as u16) << 8) | lo as u16,
                hi == (crc >> 8) as u8,
                lo == (crc & 0xFF) as u8,
        ;
    }
}

/// When the bits that are read for a payload and its checksum differ from those
/// that were sent, but only within a run of sixteen, the frame is reported with
/// a bad checksum. So a frame with a good checksum holds the payload that was
/// sent.
pub proof fn law_burst_reported(payload: Seq<u8>, errors: nat, chips: Seq<u8>, start: int)
    requires
        payload.len() <= frame::MAX_PAYLOAD,
        chips.len() == 16 * (payload.len() + 2),
        0 <= start,
        forall|i: int|
            0 <= i < 8 * (payload.len() + 3) && !(start <= i < start + 16)
                ==> #[trigger] bits::bits_of(frame::frame_bytes(payload))[i] == bits::bits_of(
                seq![payload.len() as u8] + receiver::bytes_read(chips),
            )[i],
    ensures
        ({
            let frame = receiver::frame_read(payload.len(), errors, chips);
            let received = seq![payload.len() as u8] + receiver::bytes_read(chips);
            &&& frame.crc_ok <==> received == frame::frame_bytes(payload)
            &&& frame.crc_ok ==> frame.payload == payload
        }),
{
    let sent = frame::frame_bytes(payload);
    let bytes = receiver::bytes_read(chips);
    let received = seq![payload.len() as u8] + bytes;
    law_good_checksum_is_zero_residue(payload.len(), errors, chips);
    let checked = frame::checked_bytes(payload);
    crc::law_residue(checked, crc::crc_of(checked));
    if received != sent {
        crc::law_burst_detected(sent, received, start);
    } else {
        assert(bytes.take(payload.len() as int) =~= received.subrange(
            1,
            1 + payload.len() as int,
        ));
        assert(sent.subrange(1, 1 + payload.len() as int) =~= payload);
    }
}

/// After any silence, a frame is reported, with its payload, a good checksum and no
/// error, whichever chips of the silence and the header arrive wrong, if these are
/// no more than six. `wrong` lists the positions of the chips that may be wrong.
pub proof fn law_reported_despite_six_wrong_chips(
    gap: nat,
    payload: Seq<u8>,
    wrong: Seq<int>,
    received: Seq<u8>,
)
    requires
        payload.len() <= 255,
        wrong.len() <= 6,
        received.len() == gap + frame::frame_chips(payload).len(),
        forall|i: int|
            0 <= i < gap && !wrong.contains(i) ==> #[trigger] received[i] == 0,
        forall|i: int|
            gap <= i < received.len() && (i >= gap + 160 || !wrong.contains(i))
                ==> #[trigger] received[i] == frame::frame_chips(payload)[i - gap],
    ensures
        ({
            let frames = receiver::frames_from(Phase::initial(), received);
            &&& frames.len() == 1
            &&& frames[0].payload == payload
            &&& frames[0].crc_ok
            &&& frames[0].manchester_errors == 0
            &&& receiver::frames_from(Phase::initial(), received.drop_last()) == Seq::<
                Frame,
            >::empty()
        }),
{
    let n = gap as int + 160;
    let lead = received.take(n);
    let body = frame::chips_of(frame::frame_bytes(payload));
    let sent = frame::silence(gap) + acquisition::header();
    acquisition::law_pattern_ends_header(payload);
    let chips = frame::frame_chips(payload);
    let differ = Set::new(|i: int| 0 <= i < lead.len() && lead[i] != sent[i]);
    assert forall|i: int| differ.contains(i) implies wrong.to_set().contains(i) by {
        assert(lead[i] == received[i]);
        if i >= gap {
            assert(sent[i] == acquisition::header()[i - gap]);
            assert(chips[i - gap] == acquisition::header()[i - gap]);
        }
    }
    receiver::law_mismatches_are_counted(lead, sent);
    wrong.lemma_cardinality_of_set();
    vstd::set_lib::lemma_len_subset(differ, wrong.to_set());
    assert(received =~= lead + body) by {
        assert forall|i: int| n <= i < received.len() implies #[trigger] received[i] == body[i
            - n] by {
            assert(received[i] == chips[i - gap]);
        }
    }
    law_round_trip_despite_header_errors(gap, lead, payload);
}

} // verus!
