//! Transmitter to receiver, sample by sample: what is keyed is what is decoded, at
//! any steady rate of samples per chip, with an exact chip clock and from any
//! readings that slice to what was keyed.

use vstd::prelude::*;

use crate::acquisition;
use crate::decoder::Reading;
use crate::frame;
use crate::keying;
use crate::link;
use crate::receiver;
use crate::receiver::{Frame, Phase};
use crate::recovery;
use crate::station;
use crate::station::{Rate, Station};

verus! {

/// The part of a sample by which chip `c` starts late, in parts of `chips`.
spec fn late(rate: Rate, c: int) -> int {
    (c * rate.samples) % (rate.chips as int)
}

/// The samples of a chip make up its length and the lateness of its ends.
proof fn lemma_samples_of(rate: Rate, c: int)
    requires
        rate.wf(),
        0 <= c,
    ensures
        rate.chips * rate.samples_of(c) == rate.samples + late(rate, c) - late(rate, c + 1),
        0 <= late(rate, c) < rate.chips,
        0 <= late(rate, c + 1) < rate.chips,
        rate.samples_of(c) >= 1,
{
    let (p, q) = (rate.samples as int, rate.chips as int);
    let (x, y) = (c * p, (c + 1) * p);
    assert(y == x + p) by (nonlinear_arith)
        requires
            x == c * p,
            y == (c + 1) * p,
    ;
    vstd::arithmetic::div_mod::lemma_fundamental_div_mod(x, q);
    vstd::arithmetic::div_mod::lemma_fundamental_div_mod(y, q);
    let (s, t) = (x / q, y / q);
    assert(q * (t - s) == q * t - q * s) by (nonlinear_arith);
    if t - s < 1 {
        assert(q * (t - s) <= 0) by (nonlinear_arith)
            requires
                t - s < 1,
                q >= 1,
        ;
    }
}

/// A station takes each chip of a stream once, from chip `base` of the stream on,
/// if its clock was last set right at the start of chip `set`. Returns where the
/// clock was last set right.
proof fn lemma_chips_taken(
    station: Station,
    rate: Rate,
    base: int,
    set: int,
    chips: Seq<u8>,
    samples_per_chip: Seq<usize>,
) -> (last_set: int)
    requires
        rate.wf(),
        0 <= set <= base,
        chips.len() == samples_per_chip.len(),
        forall|i: int| 0 <= i < chips.len() ==> #[trigger] chips[i] <= 1,
        forall|i: int|
            0 <= i < chips.len() ==> #[trigger] samples_per_chip[i] == rate.samples_of(base + i),
        station.reception.level <= 1,
        chips.len() > 0 && station.reception.level == chips[0] ==> station.reception.primed,
        station.reception.primed ==> station.clock == rate.samples + 2 * (late(rate, base) - late(
            rate,
            set,
        )),
    ensures
        0 <= last_set <= base + chips.len(),
        ({
            let samples = station::received(keying::keyed(chips, samples_per_chip));
            let then = station.after(rate, samples);
            &&& station.taken(rate, samples) == chips
            &&& chips.len() > 0 ==> then.reception.level == chips.last() && then.reception.primed
                && then.clock == rate.samples + 2 * (late(rate, base + chips.len() as int) - late(
                rate,
                last_set,
            ))
        }),
    decreases chips.len(),
{
    if chips.len() == 0 {
        assert(station::received(keying::keyed(chips, samples_per_chip)) =~= Seq::empty());
        assert(chips =~= Seq::empty());
        set
    } else {
        let (fewer, counts) = (chips.drop_last(), samples_per_chip.drop_last());
        let chip = chips.last();
        let n = samples_per_chip.last() as nat;
        let before = station::received(keying::keyed(fewer, counts));
        let at = base + fewer.len() as int;
        assert(samples_per_chip.last() == rate.samples_of(at));
        assert forall|i: int| 0 <= i < fewer.len() implies #[trigger] counts[i] == rate.samples_of(
            base + i,
        ) by {
            assert(counts[i] == samples_per_chip[i]);
        }
        let set_before = lemma_chips_taken(station, rate, base, set, fewer, counts);
        let middle = station.after(rate, before);
        if fewer.len() == 0 {
            assert(before =~= Seq::empty());
            assert(middle == station);
        } else {
            assert(fewer.last() <= 1);
        }
        let base_set = if fewer.len() == 0 {
            set
        } else {
            set_before
        };
        let last_set = if middle.reception.level == chip {
            base_set
        } else {
            at
        };
        lemma_samples_of(rate, at);
        lemma_samples_of(rate, last_set);
        assert(station::ahead(middle, rate, chip) == rate.samples + 2 * (late(rate, at) - late(
            rate,
            last_set,
        )));
        station::lemma_received_chip(chips, samples_per_chip);
        station::lemma_samples_in_parts(station, rate, before, station::held(chip, n));
        station::lemma_chip_taken(middle, rate, chip, n);
        assert(fewer + seq![chip] =~= chips);
        last_set
    }
}

/// However many samples are off first, a new station takes the chips that follow
/// the silence of a stream, each once. A chip that was taken has started the
/// clock.
proof fn lemma_stream_taken(
    before: nat,
    gap: nat,
    chips: Seq<u8>,
    rate: Rate,
    samples_per_chip: Seq<usize>,
)
    requires
        rate.wf(),
        forall|i: int| 0 <= i < chips.len() ==> #[trigger] chips[i] <= 1,
        chips.len() > 0 ==> chips[0] == 1,
        samples_per_chip.len() == gap + chips.len(),
        forall|i: int|
            0 <= i < samples_per_chip.len() ==> #[trigger] samples_per_chip[i] == rate.samples_of(i),
    ensures
        ({
            let on = keying::off(before) + keying::keyed(
                frame::silence(gap) + chips,
                samples_per_chip,
            );
            let readings = station::received(on);
            &&& Station::initial().taken(rate, readings) == chips
            &&& chips.len() > 0 ==> Station::initial().after(rate, readings).reception.primed
            &&& Station::initial().heard(rate, readings) == receiver::frames_from(
                Phase::initial(),
                chips,
            )
        }),
{
    let silence = frame::silence(gap);
    let (c1, c2) = (samples_per_chip.take(gap as int), samples_per_chip.skip(gap as int));
    let n = before + keying::sample_count(c1);
    let (first, second) = (keying::off(n), keying::keyed(chips, c2));
    let on = keying::off(before) + keying::keyed(silence + chips, samples_per_chip);
    keying::lemma_keyed_in_parts(silence, chips, samples_per_chip);
    keying::lemma_silence_is_off(gap, c1);
    assert(on =~= first + second);
    station::lemma_received_concat(first, second);
    station::lemma_off_before_edge(rate, n);
    station::lemma_samples_in_parts(
        Station::initial(),
        rate,
        station::received(first),
        station::received(second),
    );
    assert forall|i: int| 0 <= i < c2.len() implies #[trigger] c2[i] == rate.samples_of(
        gap + i,
    ) by {
        assert(c2[i] == samples_per_chip[gap + i]);
    }
    lemma_chips_taken(Station::initial(), rate, gap as int, gap as int, chips, c2);
    assert(Seq::<u8>::empty() + chips =~= chips);
    station::law_samples_become_chips(Station::initial(), rate, station::received(on));
}

/// After a stream, what is taken from samples that are off are chips that are off.
/// Returns how many.
proof fn lemma_stream_and_rest_heard(
    before: nat,
    gap: nat,
    chips: Seq<u8>,
    after: nat,
    rate: Rate,
    samples_per_chip: Seq<usize>,
) -> (more: nat)
    requires
        rate.wf(),
        forall|i: int| 0 <= i < chips.len() ==> #[trigger] chips[i] <= 1,
        chips.len() > 0,
        chips[0] == 1,
        samples_per_chip.len() == gap + chips.len(),
        forall|i: int|
            0 <= i < samples_per_chip.len() ==> #[trigger] samples_per_chip[i] == rate.samples_of(i),
    ensures
        ({
            let on = keying::off(before) + keying::keyed(
                frame::silence(gap) + chips,
                samples_per_chip,
            ) + keying::off(after);
            Station::initial().heard(rate, station::received(on)) == receiver::frames_from(
                Phase::initial(),
                chips + frame::silence(more),
            )
        }),
{
    let on = keying::off(before) + keying::keyed(frame::silence(gap) + chips, samples_per_chip);
    let first = station::received(on);
    let rest = station::received(keying::off(after));
    let then = Station::initial().after(rate, first);
    lemma_stream_taken(before, gap, chips, rate, samples_per_chip);
    station::lemma_off_taken(then, rate, after);
    station::lemma_received_concat(on, keying::off(after));
    station::lemma_samples_in_parts(Station::initial(), rate, first, rest);
    station::law_samples_become_chips(Station::initial(), rate, first + rest);
    then.taken(rate, rest).len()
}

/// The chips of bytes are on or off.
proof fn lemma_chips_are_binary(bytes: Seq<u8>)
    ensures
        forall|i: int|
            0 <= i < frame::chips_of(bytes).len() ==> #[trigger] frame::chips_of(bytes)[i] <= 1,
{
    reveal(frame::chips_of);
}

/// The chips of a transmission are on or off.
proof fn lemma_transmission_is_binary(gaps: Seq<nat>, payloads: Seq<Seq<u8>>)
    ensures
        forall|i: int|
            0 <= i < link::transmission(gaps, payloads).len() ==> #[trigger] link::transmission(
                gaps,
                payloads,
            )[i] <= 1,
    decreases payloads.len(),
{
    if payloads.len() > 0 {
        lemma_transmission_is_binary(gaps.drop_last(), payloads.drop_last());
        lemma_chips_are_binary(
            frame::PREAMBLE@ + frame::SYNC@ + frame::frame_bytes(payloads.last()),
        );
        let before = link::transmission(gaps.drop_last(), payloads.drop_last());
        let gap = gaps.last();
        let last = frame::frame_chips(payloads.last());
        let all = link::transmission(gaps, payloads);
        assert forall|i: int| 0 <= i < all.len() implies #[trigger] all[i] <= 1 by {
            if i < before.len() {
                assert(all[i] == before[i]);
            } else if i >= before.len() + gap {
                assert(all[i] == last[i - before.len() - gap]);
            }
        }
    }
}

/// A transmission is its first silence and then chips of which the first is on.
proof fn lemma_first_chip_is_on(gaps: Seq<nat>, payloads: Seq<Seq<u8>>)
    requires
        gaps.len() == payloads.len() > 0,
    ensures
        link::transmission(gaps, payloads) == frame::silence(gaps[0]) + link::transmission(
            gaps.update(0, 0),
            payloads,
        ),
        link::transmission(gaps.update(0, 0), payloads).len() > 0,
        link::transmission(gaps.update(0, 0), payloads)[0] == 1,
    decreases payloads.len(),
{
    let prompt = gaps.update(0, 0);
    let last = frame::silence(gaps.last()) + frame::frame_chips(payloads.last());
    let fewer = payloads.drop_last();
    let rest = link::transmission(prompt, payloads);
    if payloads.len() == 1 {
        acquisition::lemma_frame_starts_on(payloads.last());
        assert(link::transmission(gaps.drop_last(), fewer) =~= Seq::empty());
        assert(link::transmission(prompt.drop_last(), fewer) =~= Seq::empty());
        assert(rest =~= frame::frame_chips(payloads.last()));
        assert(link::transmission(gaps, payloads) =~= frame::silence(gaps[0]) + rest);
    } else {
        lemma_first_chip_is_on(gaps.drop_last(), fewer);
        assert(prompt.drop_last() =~= gaps.drop_last().update(0, 0));
        assert(link::transmission(gaps, payloads) =~= frame::silence(gaps[0]) + rest);
    }
}

/// Every payload of a transmission is heard, once and in order, with a good
/// checksum and no error, by a new decoder, if it is keyed at a steady rate and
/// the readings slice to what was sent: whatever the silence between and after the
/// frames and however many samples are off before and after it all.
pub proof fn law_transmission_heard(
    readings: Seq<Reading>,
    before: nat,
    gaps: Seq<nat>,
    payloads: Seq<Seq<u8>>,
    tail: nat,
    after: nat,
    rate: Rate,
    samples_per_chip: Seq<usize>,
)
    requires
        gaps.len() == payloads.len() > 0,
        forall|i: int| 0 <= i < payloads.len() ==> (#[trigger] payloads[i]).len()
            <= frame::MAX_PAYLOAD,
        rate.wf(),
        samples_per_chip.len() == link::transmission(gaps, payloads).len() + tail,
        forall|i: int|
            0 <= i < samples_per_chip.len() ==> #[trigger] samples_per_chip[i] == rate.samples_of(i),
        station::sliced_as(
            readings,
            keying::off(before) + keying::keyed(
                link::transmission(gaps, payloads) + frame::silence(tail),
                samples_per_chip,
            ) + keying::off(after),
        ),
    ensures
        Station::initial().heard(rate, readings) == payloads.map_values(
            |payload: Seq<u8>| link::intact(payload),
        ),
{
    let prompt = gaps.update(0, 0);
    let chips = link::transmission(prompt, payloads) + frame::silence(tail);
    lemma_first_chip_is_on(gaps, payloads);
    assert(link::transmission(gaps, payloads) + frame::silence(tail) =~= frame::silence(gaps[0])
        + chips);
    lemma_transmission_is_binary(prompt, payloads);
    assert forall|i: int| 0 <= i < chips.len() implies #[trigger] chips[i] <= 1 by {
        if i < link::transmission(prompt, payloads).len() {
            assert(chips[i] == link::transmission(prompt, payloads)[i]);
        }
    }
    assert(chips[0] == link::transmission(prompt, payloads)[0]);
    let more = lemma_stream_and_rest_heard(
        before,
        gaps[0],
        chips,
        after,
        rate,
        samples_per_chip,
    );
    link::law_all_frames_received(prompt, payloads, tail + more);
    assert(chips + frame::silence(more) =~= link::transmission(prompt, payloads) + frame::silence(
        tail + more,
    ));
    let on = keying::off(before) + keying::keyed(
        frame::silence(gaps[0]) + chips,
        samples_per_chip,
    ) + keying::off(after);
    station::law_heard_as_sliced(rate, readings, on);
}

/// The loopback: a payload that is modulated into a burst at a steady rate, with
/// any silence around it, is decoded as that payload, with a good checksum and no
/// error, exactly once, however many samples are off before and after. It is
/// decoded during the samples of the frame's last chip: not before them, and once
/// by their end. This holds of all readings that slice to what was sent.
pub proof fn law_loopback(
    readings: Seq<Reading>,
    before: nat,
    payload: Seq<u8>,
    lead: nat,
    tail: nat,
    after: nat,
    rate: Rate,
    samples_per_chip: Seq<usize>,
)
    requires
        payload.len() <= frame::MAX_PAYLOAD,
        rate.wf(),
        samples_per_chip.len() == keying::burst(payload, lead, tail).len(),
        forall|i: int|
            0 <= i < samples_per_chip.len() ==> #[trigger] samples_per_chip[i] == rate.samples_of(i),
        station::sliced_as(
            readings,
            keying::off(before) + keying::keyed(
                keying::burst(payload, lead, tail),
                samples_per_chip,
            ) + keying::off(after),
        ),
    ensures
        Station::initial().heard(rate, readings) == seq![link::intact(payload)],
        ({
            let chips = lead + frame::frame_chips(payload).len();
            let start = before + keying::sample_count(samples_per_chip.take(chips - 1));
            let end = before + keying::sample_count(samples_per_chip.take(chips as int));
            &&& Station::initial().heard(rate, readings.take(start as int)) == Seq::<
                Frame,
            >::empty()
            &&& Station::initial().heard(rate, readings.take(end as int)) == seq![
                link::intact(payload),
            ]
        }),
{
    let sent = frame::frame_chips(payload);
    let silence = frame::silence(lead);
    let all = sent + frame::silence(tail);
    let n = (lead + sent.len()) as int;
    acquisition::lemma_frame_starts_on(payload);
    lemma_chips_are_binary(frame::PREAMBLE@ + frame::SYNC@ + frame::frame_bytes(payload));
    assert forall|i: int| 0 <= i < all.len() implies #[trigger] all[i] <= 1 by {
        if i < sent.len() {
            assert(all[i] == sent[i]);
        }
    }
    assert(keying::burst(payload, lead, tail) =~= silence + all);
    let more = lemma_stream_and_rest_heard(before, lead, all, after, rate, samples_per_chip);
    lemma_stream_taken(before, lead, sent, rate, samples_per_chip.take(n));
    lemma_stream_taken(before, lead, sent.drop_last(), rate, samples_per_chip.take(n - 1));
    link::law_round_trip(0, payload);
    assert(frame::silence(0) + sent =~= sent);
    receiver::lemma_chips_in_parts(Phase::initial(), sent, frame::silence(tail + more));
    assert(all + frame::silence(more) =~= sent + frame::silence(tail + more));
    link::law_silence_reports_nothing(tail + more);
    assert(seq![link::intact(payload)] + Seq::<Frame>::empty() =~= seq![link::intact(payload)]);
    let on = keying::off(before) + keying::keyed(silence + all, samples_per_chip) + keying::off(
        after,
    );
    station::law_heard_as_sliced(rate, readings, on);
    lemma_heard_by(readings, before, silence + all, after, rate, samples_per_chip, n);
    lemma_heard_by(readings, before, silence + all, after, rate, samples_per_chip, n - 1);
    assert((silence + all).take(n) =~= silence + sent);
    assert((silence + all).take(n - 1) =~= silence + sent.drop_last());
}

/// What is heard by the end of the first `n` chips is what is heard of these.
proof fn lemma_heard_by(
    readings: Seq<Reading>,
    before: nat,
    chips: Seq<u8>,
    after: nat,
    rate: Rate,
    samples_per_chip: Seq<usize>,
    n: int,
)
    requires
        chips.len() == samples_per_chip.len(),
        0 <= n <= chips.len(),
        station::sliced_as(
            readings,
            keying::off(before) + keying::keyed(chips, samples_per_chip) + keying::off(after),
        ),
    ensures
        Station::initial().heard(
            rate,
            readings.take((before + keying::sample_count(samples_per_chip.take(n))) as int),
        ) == Station::initial().heard(
            rate,
            station::received(
                keying::off(before) + keying::keyed(chips.take(n), samples_per_chip.take(n)),
            ),
        ),
{
    let first = keying::off(before) + keying::keyed(chips.take(n), samples_per_chip.take(n));
    let on = keying::off(before) + keying::keyed(chips, samples_per_chip) + keying::off(after);
    keying::lemma_keyed_in_parts(chips.take(n), chips.skip(n), samples_per_chip);
    assert(chips.take(n) + chips.skip(n) =~= chips);
    keying::law_every_sample_is_keyed(chips.take(n), samples_per_chip.take(n));
    station::lemma_first_heard_as_sliced(rate, readings, on, first);
}

/// The chips of a stream at a steady rate of four samples per chip or more each
/// last about as long as they should.
proof fn lemma_steady_within_a_quarter(rate: Rate, samples_per_chip: Seq<usize>)
    requires
        1 <= rate.chips,
        4 * rate.chips <= rate.samples,
        forall|i: int|
            0 <= i < samples_per_chip.len() ==> #[trigger] samples_per_chip[i] == rate.samples_of(i),
    ensures
        recovery::within_a_quarter(rate, samples_per_chip),
{
    assert forall|i: int| 0 <= i < samples_per_chip.len() implies 3 * rate.samples <= 4 * (
    rate.chips * #[trigger] samples_per_chip[i]) < 5 * rate.samples by {
        lemma_samples_of(rate, i);
    }
}

/// The same samples, several times over.
pub open spec fn repeated(on: Seq<bool>, times: nat) -> Seq<bool>
    decreases times,
{
    if times == 0 {
        Seq::empty()
    } else {
        repeated(on, (times - 1) as nat) + on
    }
}

/// The samples off before each frame of a burst that is repeated: those before the
/// burst, or of the tail of the burst before it, and those of its lead.
spec fn gaps_between(before: nat, lead: nat, tail: nat, times: nat) -> Seq<nat> {
    Seq::new(
        times,
        |i: int|
            if i == 0 {
                before + lead
            } else {
                tail + lead
            },
    )
}

/// A repeated burst is its frames on the air, and the tail of the last.
proof fn lemma_repeated_on_air(
    before: nat,
    lead: nat,
    payload: Seq<u8>,
    tail: nat,
    samples_per_chip: Seq<usize>,
    times: nat,
)
    ensures
        ({
            let sent = keying::keyed(frame::frame_chips(payload), samples_per_chip);
            let frames = recovery::on_air(
                gaps_between(before, lead, tail, times),
                Seq::new(times, |i: int| payload),
                Seq::new(times, |i: int| samples_per_chip),
            );
            keying::off(before) + repeated(keying::off(lead) + sent + keying::off(tail), times)
                == if times == 0 {
                keying::off(before)
            } else {
                frames + keying::off(tail)
            }
        }),
    decreases times,
{
    let sent = keying::keyed(frame::frame_chips(payload), samples_per_chip);
    let (gaps, payloads, counts) = (
        gaps_between(before, lead, tail, times),
        Seq::new(times, |i: int| payload),
        Seq::new(times, |i: int| samples_per_chip),
    );
    let start = keying::off(before);
    let burst = keying::off(lead) + sent + keying::off(tail);
    if times == 0 {
        assert(start + repeated(burst, times) =~= start);
    } else {
        let fewer = (times - 1) as nat;
        lemma_repeated_on_air(before, lead, payload, tail, samples_per_chip, fewer);
        assert(gaps.drop_last() =~= gaps_between(before, lead, tail, fewer));
        assert(payloads.drop_last() =~= Seq::new(fewer, |i: int| payload));
        assert(counts.drop_last() =~= Seq::new(fewer, |i: int| samples_per_chip));
        let frames = recovery::on_air(gaps.drop_last(), payloads.drop_last(), counts.drop_last());
        let gap = keying::off(gaps.last());
        if times == 1 {
            assert(frames =~= Seq::empty());
            assert(gap =~= start + keying::off(lead));
        } else {
            assert(gap =~= keying::off(tail) + keying::off(lead));
        }
        assert(recovery::on_air(gaps, payloads, counts) == frames + (gap + sent));
        assert(start + repeated(burst, times) =~= (start + repeated(burst, fewer)) + burst);
        assert(start + repeated(burst, times) =~= frames + (gap + sent) + keying::off(tail));
    }
}

/// A burst that is repeated is heard every time: as many frames as there are
/// bursts, each with the payload, a good checksum and no error, however many
/// samples are off before and after. Each burst starts at a whole sample, so at a
/// rate that is no whole number the repetitions do not keep one steady clock; four
/// samples per chip are enough for that not to matter. This holds of all readings
/// that slice to what was sent.
pub proof fn law_repeated_burst_heard(
    readings: Seq<Reading>,
    before: nat,
    payload: Seq<u8>,
    lead: nat,
    tail: nat,
    rate: Rate,
    samples_per_chip: Seq<usize>,
    times: nat,
    after: nat,
)
    requires
        payload.len() <= frame::MAX_PAYLOAD,
        1 <= rate.chips,
        4 * rate.chips <= rate.samples,
        samples_per_chip.len() == keying::burst(payload, lead, tail).len(),
        forall|i: int|
            0 <= i < samples_per_chip.len() ==> #[trigger] samples_per_chip[i] == rate.samples_of(i),
        station::sliced_as(
            readings,
            keying::off(before) + repeated(
                keying::keyed(keying::burst(payload, lead, tail), samples_per_chip),
                times,
            ) + keying::off(after),
        ),
    ensures
        Station::initial().heard(rate, readings) == Seq::new(
            times,
            |i: int| link::intact(payload),
        ),
{
    let sent = frame::frame_chips(payload);
    let (n, m) = (lead as int, (lead + sent.len()) as int);
    let (k1, k2, k3) = (
        samples_per_chip.take(n),
        samples_per_chip.subrange(n, m),
        samples_per_chip.skip(m),
    );
    let (first, last) = (keying::sample_count(k1), keying::sample_count(k3));
    let middle = keying::keyed(sent, k2);
    let burst = keying::keyed(keying::burst(payload, lead, tail), samples_per_chip);
    assert(burst == keying::off(first) + middle + keying::off(last)) by {
        keying::lemma_keyed_in_parts(
            frame::silence(lead) + sent,
            frame::silence(tail),
            samples_per_chip,
        );
        keying::lemma_keyed_in_parts(frame::silence(lead), sent, samples_per_chip.take(m));
        assert(samples_per_chip.take(m).take(n) =~= k1);
        assert(samples_per_chip.take(m).skip(n) =~= k2);
        keying::lemma_silence_is_off(lead, k1);
        keying::lemma_silence_is_off(tail, k3);
    }
    lemma_steady_within_a_quarter(rate, samples_per_chip);
    recovery::lemma_part_within_a_quarter(rate, samples_per_chip, n, m);
    let frames = Seq::new(times, |i: int| link::intact(payload));
    let payloads = Seq::new(times, |i: int| payload);
    let counts = Seq::new(times, |i: int| k2);
    let gaps = gaps_between(before, first, last, times);
    lemma_repeated_on_air(before, first, payload, last, k2, times);
    if times == 0 {
        assert(keying::off(before) + keying::off(after) =~= keying::off(readings.len()));
        station::law_nothing_before_edge(rate, readings);
        assert(frames =~= Seq::empty());
    } else {
        let air = recovery::on_air(gaps, payloads, counts);
        assert(keying::off(last) + keying::off(after) =~= keying::off(last + after));
        assert(air + keying::off(last) + keying::off(after) =~= air + keying::off(last + after));
        recovery::law_all_heard_despite_clock_error(
            readings,
            gaps,
            payloads,
            last + after,
            rate,
            counts,
        );
        assert(frames =~= payloads.map_values(|payload: Seq<u8>| link::intact(payload)));
    }
}

} // verus!
