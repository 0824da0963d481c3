//! Clock recovery: the transmitter and the receiver share no clock. Every edge
//! sets the chip clock right, and Manchester code has an edge in every bit, so
//! frames are heard though chips last longer or shorter than the receiver's clock
//! has it. That clock is exact in itself (see [`station`]).

use vstd::prelude::*;

use crate::acquisition;
use crate::bits;
use crate::decoder::Reading;
use crate::frame;
use crate::keying;
use crate::link;
use crate::manchester;
use crate::receiver;
use crate::receiver::{Frame, Phase};
use crate::station;
use crate::station::{Rate, Station};

verus! {

/// Whether each chip lasts at least three quarters and less than five quarters of
/// what the receiver's clock takes for a chip.
pub open spec fn within_a_quarter(rate: Rate, samples_per_chip: Seq<usize>) -> bool {
    forall|i: int|
        0 <= i < samples_per_chip.len() ==> 3 * rate.samples <= 4 * (rate.chips
            * #[trigger] samples_per_chip[i]) < 5 * rate.samples
}

/// Part of such chips are such chips.
pub proof fn lemma_part_within_a_quarter(
    rate: Rate,
    samples_per_chip: Seq<usize>,
    start: int,
    end: int,
)
    requires
        within_a_quarter(rate, samples_per_chip),
        0 <= start <= end <= samples_per_chip.len(),
    ensures
        within_a_quarter(rate, samples_per_chip.subrange(start, end)),
{
    let part = samples_per_chip.subrange(start, end);
    assert forall|i: int| 0 <= i < part.len() implies 3 * rate.samples <= 4 * (rate.chips
        * #[trigger] part[i]) < 5 * rate.samples by {
        assert(part[i] == samples_per_chip[start + i]);
    }
}

/// The clock was set right by an edge one chip ago: the next chip center is half
/// a chip away, give or take half of that.
spec fn settled(station: Station, rate: Rate) -> bool {
    &&& station.reception.primed
    &&& rate.samples < 2 * station.clock <= 3 * rate.samples
}

/// A station with a settled clock, or for which the chip begins with an edge,
/// takes a chip that lasts about as long as it should.
proof fn lemma_chip_within_a_quarter(station: Station, rate: Rate, chip: u8, n: usize)
    requires
        rate.samples > 0,
        3 * rate.samples <= 4 * (rate.chips * n) < 5 * rate.samples,
        chip <= 1,
        station.reception.level <= 1,
        station.reception.level != chip || settled(station, rate),
    ensures
        ({
            let then = station.after(rate, station::held(chip, n as nat));
            &&& then.reception.level == chip
            &&& then.reception.primed
            &&& station.taken(rate, station::held(chip, n as nat)) == seq![chip]
            &&& station.reception.level != chip ==> settled(then, rate)
        }),
{
    if n == 0 {
        assert(rate.chips * n == 0) by (nonlinear_arith)
            requires
                n == 0,
        ;
    }
    station::lemma_chip_taken(station, rate, chip, n as nat);
}

/// The two chips of a bit are taken, each once, and the edge between them settles
/// the clock.
proof fn lemma_bit_taken(station: Station, rate: Rate, a: u8, b: u8, n: usize, m: usize)
    requires
        rate.samples > 0,
        3 * rate.samples <= 4 * (rate.chips * n) < 5 * rate.samples,
        3 * rate.samples <= 4 * (rate.chips * m) < 5 * rate.samples,
        manchester::is_code_word(a, b),
        station.reception.level <= 1,
        station.reception.level != a || settled(station, rate),
    ensures
        ({
            let first = station::held(a, n as nat);
            let both = first + station::held(b, m as nat);
            &&& station.taken(rate, first) == seq![a]
            &&& station.taken(rate, both) == seq![a, b]
            &&& settled(station.after(rate, both), rate)
            &&& station.after(rate, both).reception.level == b
        }),
{
    let first = station::held(a, n as nat);
    let second = station::held(b, m as nat);
    lemma_chip_within_a_quarter(station, rate, a, n);
    lemma_chip_within_a_quarter(station.after(rate, first), rate, b, m);
    station::lemma_samples_in_parts(station, rate, first, second);
    assert(seq![a] + seq![b] =~= seq![a, b]);
}

/// The chips of bits are those of all bits but the last, and a code word.
proof fn lemma_last_bit(bits: Seq<u8>)
    requires
        bits.len() > 0,
    ensures
        ({
            let chips = manchester::chips_of_bits(bits);
            let n = chips.len() as int;
            let rest = manchester::chips_of_bits(bits.drop_last());
            &&& n == 2 * bits.len()
            &&& chips == rest.push(chips[n - 2]).push(chips[n - 1])
            &&& manchester::is_code_word(chips[n - 2], chips[n - 1])
            &&& rest.len() > 0 ==> rest[0] == chips[0]
        }),
{
    let chips = manchester::chips_of_bits(bits);
    let n = chips.len() as int;
    let rest = manchester::chips_of_bits(bits.drop_last());
    assert((n - 2) / 2 == bits.len() - 1 && (n - 1) / 2 == bits.len() - 1);
    assert(chips =~= rest.push(chips[n - 2]).push(chips[n - 1]));
}

/// The samples of two more chips follow those of the chips before.
proof fn lemma_received_pair(
    chips: Seq<u8>,
    a: u8,
    b: u8,
    samples_per_chip: Seq<usize>,
    n: usize,
    m: usize,
)
    requires
        chips.len() == samples_per_chip.len(),
    ensures
        station::received(keying::keyed(chips.push(a), samples_per_chip.push(n)))
            == station::received(keying::keyed(chips, samples_per_chip)) + station::held(
            a,
            n as nat,
        ),
        station::received(keying::keyed(chips.push(a).push(b), samples_per_chip.push(n).push(m)))
            == station::received(keying::keyed(chips, samples_per_chip)) + (station::held(
            a,
            n as nat,
        ) + station::held(b, m as nat)),
{
    let (c, k) = (chips.push(a), samples_per_chip.push(n));
    station::lemma_received_chip(c, k);
    station::lemma_received_chip(c.push(b), k.push(m));
    assert(c.drop_last() =~= chips);
    assert(k.drop_last() =~= samples_per_chip);
    assert(c.push(b).drop_last() =~= c);
    assert(k.push(m).drop_last() =~= k);
    let before = station::received(keying::keyed(chips, samples_per_chip));
    assert(before + station::held(a, n as nat) + station::held(b, m as nat) =~= before + (
    station::held(a, n as nat) + station::held(b, m as nat)));
}

/// The chips of bits are taken, each once, though they last longer or shorter
/// than they should.
proof fn lemma_bits_taken(station: Station, rate: Rate, bits: Seq<u8>, samples_per_chip: Seq<usize>)
    requires
        rate.samples > 0,
        within_a_quarter(rate, samples_per_chip),
        samples_per_chip.len() == 2 * bits.len(),
        bits.len() > 0,
        station.reception.level <= 1,
        station.reception.level != manchester::chips_of_bits(bits)[0] || settled(station, rate),
    ensures
        ({
            let chips = manchester::chips_of_bits(bits);
            let samples = station::received(keying::keyed(chips, samples_per_chip));
            let fewer = station::received(
                keying::keyed(chips.drop_last(), samples_per_chip.drop_last()),
            );
            &&& station.taken(rate, samples) == chips
            &&& station.taken(rate, fewer) == chips.drop_last()
            &&& settled(station.after(rate, samples), rate)
            &&& station.after(rate, samples).reception.level <= 1
        }),
    decreases bits.len(),
{
    let chips = manchester::chips_of_bits(bits);
    let rest = manchester::chips_of_bits(bits.drop_last());
    let l = chips.len() as int;
    lemma_last_bit(bits);
    let (a, b) = (chips[l - 2], chips[l - 1]);
    let (n, m) = (samples_per_chip[l - 2], samples_per_chip[l - 1]);
    let counts = samples_per_chip.subrange(0, l - 2);
    let start = station::received(keying::keyed(rest, counts));
    assert(samples_per_chip =~= counts.push(n).push(m));
    lemma_part_within_a_quarter(rate, samples_per_chip, 0, l - 2);
    if bits.len() == 1 {
        assert(rest =~= Seq::empty());
        assert(start =~= Seq::empty());
        assert(station.after(rate, start) == station);
        assert(station.taken(rate, start) =~= rest);
    } else {
        lemma_bits_taken(station, rate, bits.drop_last(), counts);
    }
    lemma_received_pair(rest, a, b, counts, n, m);
    assert(chips.drop_last() =~= rest.push(a));
    assert(samples_per_chip.drop_last() =~= counts.push(n));
    let first = station::held(a, n as nat);
    let both = first + station::held(b, m as nat);
    lemma_bit_taken(station.after(rate, start), rate, a, b, n, m);
    station::lemma_samples_in_parts(station, rate, start, first);
    station::lemma_samples_in_parts(station, rate, start, both);
    assert(rest + seq![a] =~= rest.push(a));
    assert(rest + seq![a, b] =~= chips);
}

/// A station between frames: new, or with its clock settled by the last bit of a
/// frame.
spec fn between_frames(station: Station, rate: Rate) -> bool {
    ||| station == Station::initial()
    ||| {
        &&& station.reception.level <= 1
        &&& station.reception.phase == Phase::initial()
        &&& settled(station, rate)
    }
}

/// After any time off, a frame is heard, once and at its last chip.
proof fn lemma_frame_heard(
    station: Station,
    rate: Rate,
    gap: nat,
    payload: Seq<u8>,
    samples_per_chip: Seq<usize>,
)
    requires
        between_frames(station, rate),
        payload.len() <= frame::MAX_PAYLOAD,
        rate.samples > 0,
        within_a_quarter(rate, samples_per_chip),
        samples_per_chip.len() == frame::frame_chips(payload).len(),
    ensures
        ({
            let chips = frame::frame_chips(payload);
            let all = station::received(
                keying::off(gap) + keying::keyed(chips, samples_per_chip),
            );
            let fewer = station::received(
                keying::off(gap) + keying::keyed(chips.drop_last(), samples_per_chip.drop_last()),
            );
            &&& station.heard(rate, all) == seq![link::intact(payload)]
            &&& station.heard(rate, fewer) == Seq::<Frame>::empty()
            &&& between_frames(station.after(rate, all), rate)
        }),
{
    let chips = frame::frame_chips(payload);
    let on = keying::keyed(chips, samples_per_chip);
    let fewer_on = keying::keyed(chips.drop_last(), samples_per_chip.drop_last());
    let quiet = station::received(keying::off(gap));
    let (samples, fewer) = (station::received(on), station::received(fewer_on));
    station::lemma_received_concat(keying::off(gap), on);
    station::lemma_received_concat(keying::off(gap), fewer_on);
    let bytes = frame::PREAMBLE@ + frame::SYNC@ + frame::frame_bytes(payload);
    let coded = bits::bits_of(bytes);
    assert(chips == manchester::chips_of_bits(coded)) by {
        reveal(frame::chips_of);
    }
    acquisition::lemma_frame_starts_on(payload);
    if station == Station::initial() {
        station::lemma_off_before_edge(rate, gap);
        assert(station.taken(rate, quiet) =~= frame::silence(0));
    } else {
        station::lemma_off_taken(station, rate, gap);
    }
    let silent = station.taken(rate, quiet);
    let middle = station.after(rate, quiet);
    lemma_bits_taken(middle, rate, coded, samples_per_chip);
    station::lemma_samples_in_parts(station, rate, quiet, samples);
    station::lemma_samples_in_parts(station, rate, quiet, fewer);
    station::law_samples_become_chips(station, rate, quiet + samples);
    station::law_samples_become_chips(station, rate, quiet + fewer);
    link::law_round_trip(silent.len(), payload);
    assert((silent + chips).drop_last() =~= silent + chips.drop_last());
}

/// Between frames, samples that are off are not taken for one.
proof fn lemma_nothing_while_off(station: Station, rate: Rate, n: nat)
    requires
        between_frames(station, rate),
    ensures
        station.heard(rate, station::received(keying::off(n))) == Seq::<Frame>::empty(),
{
    let readings = station::received(keying::off(n));
    if station == Station::initial() {
        station::lemma_off_before_edge(rate, n);
    } else {
        station::lemma_off_taken(station, rate, n);
        station::law_samples_become_chips(station, rate, readings);
        link::law_silence_reports_nothing(station.taken(rate, readings).len());
    }
}

/// A frame is heard, with a good checksum and no error, exactly once, though its
/// chips last up to a quarter longer or shorter than the receiver's clock has it,
/// each by its own measure, and however many samples are off before and after.
/// It is heard during the samples of its last chip: not before them, and once by
/// their end. This holds of all readings that slice to what was sent.
pub proof fn law_heard_despite_clock_error(
    readings: Seq<Reading>,
    before: nat,
    payload: Seq<u8>,
    after: nat,
    rate: Rate,
    samples_per_chip: Seq<usize>,
)
    requires
        payload.len() <= frame::MAX_PAYLOAD,
        rate.samples > 0,
        within_a_quarter(rate, samples_per_chip),
        samples_per_chip.len() == frame::frame_chips(payload).len(),
        station::sliced_as(
            readings,
            keying::off(before) + keying::keyed(frame::frame_chips(payload), samples_per_chip)
                + keying::off(after),
        ),
    ensures
        Station::initial().heard(rate, readings) == seq![link::intact(payload)],
        ({
            let start = before + keying::sample_count(samples_per_chip.drop_last());
            let end = before + keying::sample_count(samples_per_chip);
            &&& Station::initial().heard(rate, readings.take(start as int)) == Seq::<
                Frame,
            >::empty()
            &&& Station::initial().heard(rate, readings.take(end as int)) == seq![
                link::intact(payload),
            ]
        }),
{
    let chips = frame::frame_chips(payload);
    let counts = samples_per_chip;
    let fewer = keying::off(before) + keying::keyed(chips.drop_last(), counts.drop_last());
    let first = keying::off(before) + keying::keyed(chips, counts);
    let all = first + keying::off(after);
    acquisition::lemma_frame_starts_on(payload);
    keying::law_every_sample_is_keyed(chips, counts);
    keying::law_every_sample_is_keyed(chips.drop_last(), counts.drop_last());
    lemma_frame_heard(Station::initial(), rate, before, payload, counts);
    let then = Station::initial().after(rate, station::received(first));
    lemma_nothing_while_off(then, rate, after);
    station::lemma_received_concat(first, keying::off(after));
    station::lemma_samples_in_parts(
        Station::initial(),
        rate,
        station::received(first),
        station::received(keying::off(after)),
    );
    assert(seq![link::intact(payload)] + Seq::<Frame>::empty() =~= seq![link::intact(payload)]);
    station::law_heard_as_sliced(rate, readings, all);
    station::lemma_first_heard_as_sliced(rate, readings, all, fewer);
    station::lemma_first_heard_as_sliced(rate, readings, all, first);
}

/// When the tone is on for frames on the air: each after some samples off, and
/// keyed by its own clock.
pub open spec fn on_air(
    gaps: Seq<nat>,
    payloads: Seq<Seq<u8>>,
    samples_per_chip: Seq<Seq<usize>>,
) -> Seq<bool>
    decreases payloads.len(),
{
    if payloads.len() == 0 {
        Seq::empty()
    } else {
        on_air(gaps.drop_last(), payloads.drop_last(), samples_per_chip.drop_last()) + (keying::off(
            gaps.last(),
        ) + keying::keyed(frame::frame_chips(payloads.last()), samples_per_chip.last()))
    }
}

/// Whether each of some frames is short enough, and keyed at about the receiver's
/// rate.
pub open spec fn fit_for_air(
    payloads: Seq<Seq<u8>>,
    rate: Rate,
    samples_per_chip: Seq<Seq<usize>>,
) -> bool {
    &&& payloads.len() == samples_per_chip.len()
    &&& forall|i: int|
        0 <= i < payloads.len() ==> {
            &&& (#[trigger] payloads[i]).len() <= frame::MAX_PAYLOAD
            &&& within_a_quarter(rate, samples_per_chip[i])
            &&& samples_per_chip[i].len() == frame::frame_chips(payloads[i]).len()
        }
}

/// All frames on the air are heard, and leave the station between frames.
proof fn lemma_all_heard(
    gaps: Seq<nat>,
    payloads: Seq<Seq<u8>>,
    rate: Rate,
    samples_per_chip: Seq<Seq<usize>>,
)
    requires
        rate.samples > 0,
        gaps.len() == payloads.len(),
        fit_for_air(payloads, rate, samples_per_chip),
    ensures
        ({
            let readings = station::received(on_air(gaps, payloads, samples_per_chip));
            &&& Station::initial().heard(rate, readings) == payloads.map_values(
                |payload: Seq<u8>| link::intact(payload),
            )
            &&& between_frames(Station::initial().after(rate, readings), rate)
        }),
    decreases payloads.len(),
{
    let frames = payloads.map_values(|payload: Seq<u8>| link::intact(payload));
    if payloads.len() == 0 {
        assert(frames =~= Seq::empty());
    } else {
        let (g, p, k) = (gaps.drop_last(), payloads.drop_last(), samples_per_chip.drop_last());
        assert forall|i: int| 0 <= i < p.len() implies {
            &&& (#[trigger] p[i]).len() <= frame::MAX_PAYLOAD
            &&& within_a_quarter(rate, k[i])
            &&& k[i].len() == frame::frame_chips(p[i]).len()
        } by {
            assert(p[i] == payloads[i]);
        }
        lemma_all_heard(g, p, rate, k);
        let before = on_air(g, p, k);
        let last = keying::off(gaps.last()) + keying::keyed(
            frame::frame_chips(payloads.last()),
            samples_per_chip.last(),
        );
        let middle = Station::initial().after(rate, station::received(before));
        assert(payloads.last() == payloads[payloads.len() - 1]);
        lemma_frame_heard(middle, rate, gaps.last(), payloads.last(), samples_per_chip.last());
        station::lemma_received_concat(before, last);
        station::lemma_samples_in_parts(
            Station::initial(),
            rate,
            station::received(before),
            station::received(last),
        );
        assert(frames =~= p.map_values(|payload: Seq<u8>| link::intact(payload)) + seq![
            link::intact(payloads.last()),
        ]);
    }
}

/// All frames on the air are heard, each once and in order, with a good checksum
/// and no error, though the receiver's clock is off by up to a quarter, and
/// however many samples are off before, between and after them. This holds of all
/// readings that slice to what was sent.
pub proof fn law_all_heard_despite_clock_error(
    readings: Seq<Reading>,
    gaps: Seq<nat>,
    payloads: Seq<Seq<u8>>,
    after: nat,
    rate: Rate,
    samples_per_chip: Seq<Seq<usize>>,
)
    requires
        rate.samples > 0,
        gaps.len() == payloads.len(),
        fit_for_air(payloads, rate, samples_per_chip),
        station::sliced_as(
            readings,
            on_air(gaps, payloads, samples_per_chip) + keying::off(after),
        ),
    ensures
        Station::initial().heard(rate, readings) == payloads.map_values(
            |payload: Seq<u8>| link::intact(payload),
        ),
{
    let first = on_air(gaps, payloads, samples_per_chip);
    lemma_all_heard(gaps, payloads, rate, samples_per_chip);
    station::lemma_received_concat(first, keying::off(after));
    station::lemma_samples_in_parts(
        Station::initial(),
        rate,
        station::received(first),
        station::received(keying::off(after)),
    );
    let then = Station::initial().after(rate, station::received(first));
    lemma_nothing_while_off(then, rate, after);
    let frames = payloads.map_values(|payload: Seq<u8>| link::intact(payload));
    assert(frames + Seq::<Frame>::empty() =~= frames);
    station::law_heard_as_sliced(rate, readings, first + keying::off(after));
}

} // verus!
