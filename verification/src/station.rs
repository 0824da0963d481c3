//! A decoder and a chip clock beside it, sample by sample: which samples are taken
//! as chips, how far apart these are, and what is heard.
//!
//! The clock here is exact. It counts in whole units and so never rounds; a clock
//! in floating point, such as the program runs, does what is stated here as far as
//! its rounding does not move a chip center to another sample.

use vstd::prelude::*;

use crate::decoder;
use crate::decoder::{ClockStep, Reading, Reception};
use crate::frame;
use crate::keying;
use crate::receiver;
use crate::receiver::Frame;

verus! {

/// How long chips last: `chips` chips take `samples` samples. A chip need not
/// take a whole number of samples.
pub struct Rate {
    pub samples: nat,
    pub chips: nat,
}

impl Rate {
    /// Chips last at least two samples, or just under two by at most one part in
    /// `chips` (so one sample, where it is a whole number).
    pub open spec fn wf(self) -> bool {
        1 <= self.chips && 2 * self.chips - 1 <= self.samples
    }

    /// The first sample of chip `c`, rounded down.
    pub open spec fn start_of(self, c: int) -> int {
        (c * self.samples) / (self.chips as int)
    }

    /// The samples of chip `c`: fractions of a sample carry over to the next
    /// chip, so that the chips do not drift.
    pub open spec fn samples_of(self, c: int) -> int {
        self.start_of(c + 1) - self.start_of(c)
    }
}

/// A decoder and an exact chip clock beside it: the time left until the next chip
/// center, in units of which a sample takes twice `chips` and a chip twice
/// `samples` of the rate.
#[verifier::ext_equal]
pub struct Station {
    pub reception: Reception,
    pub clock: int,
}

/// The clock after a tick: at a chip center the next one is a chip away.
pub open spec fn rearmed(clock: int, rate: Rate) -> int {
    if clock <= 0 {
        clock + 2 * rate.samples
    } else {
        clock
    }
}

impl Station {
    /// Before the first sample.
    pub open spec fn initial() -> Station {
        Station { reception: Reception::initial(), clock: 0 }
    }

    /// The clock after its first tick since it started over, half a chip ahead
    /// of a chip center.
    pub open spec fn restarted(rate: Rate) -> int {
        rate.samples - 2 * rate.chips
    }

    /// The clock after one more tick.
    pub open spec fn advanced(self, rate: Rate) -> int {
        self.clock - 2 * rate.chips
    }

    /// After one more sample.
    pub open spec fn next(self, rate: Rate, reading: Reading) -> Station {
        Station {
            reception: self.reception.next(
                reading,
                Self::restarted(rate) <= 0,
                self.advanced(rate) <= 0,
            ),
            clock: match self.reception.clock_step(reading) {
                ClockStep::Hold => self.clock,
                ClockStep::Restart => rearmed(Self::restarted(rate), rate),
                ClockStep::Advance => rearmed(self.advanced(rate), rate),
            },
        }
    }

    /// Whether one more sample is taken as a chip.
    pub open spec fn takes(self, rate: Rate, reading: Reading) -> bool {
        self.reception.at_center(reading, Self::restarted(rate) <= 0, self.advanced(rate) <= 0)
    }

    /// The frame that one more sample completes, if it completes one.
    pub open spec fn completed(self, rate: Rate, reading: Reading) -> Option<Frame> {
        self.reception.completed(reading, Self::restarted(rate) <= 0, self.advanced(rate) <= 0)
    }

    /// After a string of samples.
    pub open spec fn after(self, rate: Rate, readings: Seq<Reading>) -> Station
        decreases readings.len(),
    {
        if readings.len() == 0 {
            self
        } else {
            self.after(rate, readings.drop_last()).next(rate, readings.last())
        }
    }

    /// The chips that are taken from a string of samples.
    pub open spec fn taken(self, rate: Rate, readings: Seq<Reading>) -> Seq<u8>
        decreases readings.len(),
    {
        if readings.len() == 0 {
            Seq::empty()
        } else {
            let before = self.after(rate, readings.drop_last());
            let chips = self.taken(rate, readings.drop_last());
            if before.takes(rate, readings.last()) {
                chips.push(decoder::level_after(before.reception.level, readings.last()))
            } else {
                chips
            }
        }
    }

    /// The frames that a string of samples completes, in order.
    pub open spec fn heard(self, rate: Rate, readings: Seq<Reading>) -> Seq<Frame>
        decreases readings.len(),
    {
        if readings.len() == 0 {
            Seq::empty()
        } else {
            let before = self.heard(rate, readings.drop_last());
            match self.after(rate, readings.drop_last()).completed(rate, readings.last()) {
                Some(frame) => before.push(frame),
                None => before,
            }
        }
    }
}

/// Samples in two parts lead where the second part leads after the first, and
/// give the chips and the frames of both.
pub proof fn lemma_samples_in_parts(
    station: Station,
    rate: Rate,
    first: Seq<Reading>,
    second: Seq<Reading>,
)
    ensures
        station.after(rate, first + second) == station.after(rate, first).after(rate, second),
        station.taken(rate, first + second) == station.taken(rate, first) + station.after(
            rate,
            first,
        ).taken(rate, second),
        station.heard(rate, first + second) == station.heard(rate, first) + station.after(
            rate,
            first,
        ).heard(rate, second),
    decreases second.len(),
{
    let middle = station.after(rate, first);
    if second.len() == 0 {
        assert(first + second =~= first);
        assert(station.taken(rate, first) + Seq::<u8>::empty() =~= station.taken(rate, first));
        assert(station.heard(rate, first) + Seq::<Frame>::empty() =~= station.heard(rate, first));
    } else {
        assert((first + second).drop_last() =~= first + second.drop_last());
        lemma_samples_in_parts(station, rate, first, second.drop_last());
        assert(station.taken(rate, first + second) =~= station.taken(rate, first) + middle.taken(
            rate,
            second,
        ));
        assert(station.heard(rate, first + second) =~= station.heard(rate, first) + middle.heard(
            rate,
            second,
        ));
    }
}

/// What samples do to the receiver is what the chips do that are taken from
/// them: it is in the phase that these lead to, and the frames heard are those
/// that these complete.
pub proof fn law_samples_become_chips(station: Station, rate: Rate, readings: Seq<Reading>)
    ensures
        station.after(rate, readings).reception.phase == receiver::phase_after(
            station.reception.phase,
            station.taken(rate, readings),
        ),
        station.heard(rate, readings) == receiver::frames_from(
            station.reception.phase,
            station.taken(rate, readings),
        ),
    decreases readings.len(),
{
    if readings.len() > 0 {
        law_samples_become_chips(station, rate, readings.drop_last());
        let chips = station.taken(rate, readings.drop_last());
        let before = station.after(rate, readings.drop_last());
        let level = decoder::level_after(before.reception.level, readings.last());
        assert(chips.push(level).drop_last() =~= chips);
    }
}

/// Time runs: the clock of a station that has seen an edge is ahead of a chip
/// center.
spec fn running(station: Station) -> bool {
    station.reception.primed ==> station.clock > 0
}

/// A station's clock is ahead of the next chip center by half a chip at least,
/// less the time `since` that has passed.
spec fn half_a_chip_ahead(station: Station, rate: Rate, since: int) -> bool {
    station.reception.primed ==> station.clock + since >= rate.samples
}

/// One sample: no chip is taken before half a chip's time has passed, and a
/// chip that is taken sets the clock half a chip ahead at least.
proof fn lemma_time_between_chips(station: Station, rate: Rate, reading: Reading, since: int)
    requires
        rate.wf(),
        running(station),
        since >= 0,
        half_a_chip_ahead(station, rate, since),
    ensures
        running(station.next(rate, reading)),
        half_a_chip_ahead(station.next(rate, reading), rate, since + 2 * rate.chips),
        station.takes(rate, reading) ==> since + 2 * rate.chips >= rate.samples
            && half_a_chip_ahead(station.next(rate, reading), rate, 0),
{
}

/// The time that `m` samples take, as the clock counts it.
pub open spec fn ticks(rate: Rate, m: nat) -> int {
    2 * (rate.chips as int * m as int)
}

/// Each sample takes the same time.
pub proof fn lemma_ticks(rate: Rate, m: nat, n: nat)
    requires
        1 <= m <= n,
    ensures
        ticks(rate, m) == ticks(rate, (m - 1) as nat) + 2 * rate.chips,
        ticks(rate, m) <= ticks(rate, n),
        ticks(rate, 0) == 0,
        ticks(rate, m) >= 0,
{
    let q = rate.chips as int;
    assert(q * m == q * (m - 1) + q && q * m <= q * n && 0 <= q * m) by (nonlinear_arith)
        requires
            1 <= m <= n,
            q >= 0,
    ;
}

/// However long samples go on, the clock is as far ahead as the time that has
/// passed allows.
proof fn lemma_running(station: Station, rate: Rate, readings: Seq<Reading>)
    requires
        rate.wf(),
        running(station),
        half_a_chip_ahead(station, rate, 0),
    ensures
        running(station.after(rate, readings)),
        half_a_chip_ahead(station.after(rate, readings), rate, ticks(rate, readings.len())),
    decreases readings.len(),
{
    let n = readings.len();
    if n > 0 {
        let fewer = readings.drop_last();
        lemma_running(station, rate, fewer);
        lemma_ticks(rate, n, n);
        if n > 1 {
            lemma_ticks(rate, fewer.len(), n);
        }
        lemma_time_between_chips(
            station.after(rate, fewer),
            rate,
            readings.last(),
            ticks(rate, fewer.len()),
        );
    }
}

/// The clock of a new station, once it runs, is ahead of the next chip center, and
/// by half a chip at least when a chip was just taken.
proof fn lemma_new_station_runs(rate: Rate, readings: Seq<Reading>)
    requires
        rate.wf(),
    ensures
        running(Station::initial().after(rate, readings)),
        readings.len() > 0 && Station::initial().after(rate, readings.drop_last()).takes(
            rate,
            readings.last(),
        ) ==> half_a_chip_ahead(Station::initial().after(rate, readings), rate, 0),
{
    lemma_running(Station::initial(), rate, readings);
    if readings.len() > 0 {
        let fewer = readings.drop_last();
        lemma_running(Station::initial(), rate, fewer);
        if fewer.len() > 0 {
            lemma_ticks(rate, fewer.len(), fewer.len());
        }
        lemma_time_between_chips(
            Station::initial().after(rate, fewer),
            rate,
            readings.last(),
            ticks(rate, fewer.len()),
        );
    }
}

/// Two samples that are taken as chips are at least half a chip apart, whatever
/// the samples are.
pub proof fn law_chips_half_a_chip_apart(
    rate: Rate,
    to_one: Seq<Reading>,
    to_other: Seq<Reading>,
)
    requires
        rate.wf(),
        to_one.len() > 0,
        to_other.len() > 0,
        Station::initial().after(rate, to_one.drop_last()).takes(rate, to_one.last()),
        Station::initial().after(rate, to_one + to_other.drop_last()).takes(rate, to_other.last()),
    ensures
        rate.samples <= 2 * (rate.chips * to_other.len()),
{
    let one = Station::initial().after(rate, to_one);
    let fewer = to_other.drop_last();
    lemma_new_station_runs(rate, to_one);
    lemma_samples_in_parts(Station::initial(), rate, to_one, fewer);
    lemma_running(one, rate, fewer);
    lemma_ticks(rate, to_other.len(), to_other.len());
    if fewer.len() > 0 {
        lemma_ticks(rate, fewer.len(), fewer.len());
    }
    lemma_time_between_chips(
        one.after(rate, fewer),
        rate,
        to_other.last(),
        ticks(rate, fewer.len()),
    );
}

/// The chips taken so far, and the part of the next one for which the clock has
/// run, do not take more time than has passed.
proof fn lemma_time_of_chips(rate: Rate, readings: Seq<Reading>)
    requires
        rate.wf(),
    ensures
        ({
            let then = Station::initial().after(rate, readings);
            let time = rate.samples * Station::initial().taken(rate, readings).len();
            &&& running(then)
            &&& time <= ticks(rate, readings.len())
            &&& half_a_chip_ahead(then, rate, ticks(rate, readings.len()) - time)
        }),
    decreases readings.len(),
{
    let n = readings.len();
    let p = rate.samples;
    if n == 0 {
        assert(p * 0 == 0 && ticks(rate, 0) == 0);
        assert(Station::initial().taken(rate, readings).len() == 0);
    } else {
        let fewer = readings.drop_last();
        let before = Station::initial().after(rate, fewer);
        let t = Station::initial().taken(rate, fewer).len();
        lemma_time_of_chips(rate, fewer);
        lemma_ticks(rate, n, n);
        lemma_time_between_chips(
            before,
            rate,
            readings.last(),
            ticks(rate, fewer.len()) - p * t,
        );
        assert(p * (t + 1) == p * t + p) by (nonlinear_arith);
    }
}

/// Each chip takes at least half a chip's time, whatever the samples are.
pub proof fn law_chips_take_time(rate: Rate, readings: Seq<Reading>)
    requires
        rate.wf(),
    ensures
        rate.samples * Station::initial().taken(rate, readings).len() <= 2 * (rate.chips
            * readings.len()),
{
    lemma_time_of_chips(rate, readings);
}

/// Every frame takes at least the time of 72 chips: those of the sync pattern, a
/// length byte and a checksum, at half a chip each. So nothing is heard in less
/// time, whatever the samples are: at a hundred samples to the chip, not within
/// 7199 samples.
pub proof fn law_frames_take_time(rate: Rate, readings: Seq<Reading>)
    requires
        rate.wf(),
    ensures
        72 * rate.samples * Station::initial().heard(rate, readings).len() <= rate.chips
            * readings.len(),
        rate.chips * readings.len() < 72 * rate.samples ==> Station::initial().heard(
            rate,
            readings,
        ) == Seq::<Frame>::empty(),
{
    let taken = Station::initial().taken(rate, readings);
    let p = rate.samples;
    let f = Station::initial().heard(rate, readings).len();
    law_samples_become_chips(Station::initial(), rate, readings);
    receiver::law_frame_takes_chips(taken);
    law_chips_take_time(rate, readings);
    assert(144 * f <= taken.len());
    assert(72 * p * f * 2 <= p * taken.len()) by (nonlinear_arith)
        requires
            144 * f <= taken.len(),
    ;
    if f > 0 {
        assert(72 * p * f >= 72 * p) by (nonlinear_arith)
            requires
                f >= 1,
        ;
    }
}

/// The level of a sample at which the tone is on or off.
pub open spec fn level_of(on: bool) -> u8 {
    if on {
        1
    } else {
        0
    }
}

/// A reading outside the band that slices to what was keyed.
pub open spec fn clean(on: bool) -> Reading {
    if on {
        Reading::Above
    } else {
        Reading::Below
    }
}

/// Readings outside the band that slice to what was keyed.
pub open spec fn received(on: Seq<bool>) -> Seq<Reading> {
    on.map_values(|on: bool| clean(on))
}

/// Samples in two parts are received in two parts.
pub proof fn lemma_received_concat(first: Seq<bool>, second: Seq<bool>)
    ensures
        received(first + second) == received(first) + received(second),
{
    assert(received(first + second) =~= received(first) + received(second));
}

/// The level of the last of some samples, which follow a sample of level `level`.
pub open spec fn level_through(level: u8, readings: Seq<Reading>) -> u8
    decreases readings.len(),
{
    if readings.len() == 0 {
        level
    } else {
        decoder::level_after(level_through(level, readings.drop_last()), readings.last())
    }
}

/// Whether readings slice, sample by sample, to what was keyed. They may lie
/// within the band, where a sample keeps the level of the one before, and have no
/// contrast where the tone is off.
pub open spec fn sliced_as(readings: Seq<Reading>, on: Seq<bool>) -> bool {
    &&& readings.len() == on.len()
    &&& forall|i: int|
        0 <= i < on.len() ==> level_through(0, readings.take(i + 1)) == level_of(#[trigger] on[i])
}

/// A station has the level of the last sample.
proof fn lemma_level_through(station: Station, rate: Rate, readings: Seq<Reading>)
    ensures
        station.after(rate, readings).reception.level == level_through(
            station.reception.level,
            readings,
        ),
    decreases readings.len(),
{
    if readings.len() > 0 {
        lemma_level_through(station, rate, readings.drop_last());
    }
}

/// Only the sliced levels matter: readings that have the same level after every
/// sample lead a station to the same place, and give the same chips and the same
/// frames.
pub proof fn law_only_levels_matter(
    station: Station,
    rate: Rate,
    some: Seq<Reading>,
    other: Seq<Reading>,
)
    requires
        some.len() == other.len(),
        forall|n: int|
            0 <= n <= some.len() ==> level_through(station.reception.level, #[trigger] some.take(n))
                == level_through(station.reception.level, other.take(n)),
    ensures
        station.after(rate, some) == station.after(rate, other),
        station.taken(rate, some) == station.taken(rate, other),
        station.heard(rate, some) == station.heard(rate, other),
    decreases some.len(),
{
    let level = station.reception.level;
    if some.len() > 0 {
        let (a, b) = (some.drop_last(), other.drop_last());
        assert forall|n: int| 0 <= n <= a.len() implies level_through(level, #[trigger] a.take(n))
            == level_through(level, b.take(n)) by {
            assert(a.take(n) =~= some.take(n));
            assert(b.take(n) =~= other.take(n));
        }
        law_only_levels_matter(station, rate, a, b);
        lemma_level_through(station, rate, a);
        lemma_level_through(station, rate, b);
        assert(some.take(some.len() as int) =~= some);
        assert(other.take(other.len() as int) =~= other);
    }
}

/// A new station hears in readings what it hears in those outside the band that
/// slice to the same.
pub proof fn law_heard_as_sliced(rate: Rate, readings: Seq<Reading>, on: Seq<bool>)
    requires
        sliced_as(readings, on),
    ensures
        Station::initial().after(rate, readings) == Station::initial().after(rate, received(on)),
        Station::initial().taken(rate, readings) == Station::initial().taken(rate, received(on)),
        Station::initial().heard(rate, readings) == Station::initial().heard(rate, received(on)),
{
    let clear = received(on);
    assert forall|n: int| 0 <= n <= readings.len() implies level_through(
        0,
        #[trigger] readings.take(n),
    ) == level_through(0, clear.take(n)) by {
        if n > 0 {
            assert(readings.take(n - 1 + 1) == readings.take(n));
            assert(level_through(0, readings.take(n)) == level_of(on[n - 1]));
            assert(clear.take(n).last() == clean(on[n - 1]));
        } else {
            assert(readings.take(n) =~= clear.take(n));
        }
    }
    law_only_levels_matter(Station::initial(), rate, readings, clear);
}

/// The first of some readings slice to the first of what was keyed.
proof fn lemma_first_sliced_as(readings: Seq<Reading>, on: Seq<bool>, n: int)
    requires
        sliced_as(readings, on),
        0 <= n <= on.len(),
    ensures
        sliced_as(readings.take(n), on.take(n)),
{
    assert forall|i: int| 0 <= i < n implies level_through(0, readings.take(n).take(i + 1))
        == level_of(#[trigger] on.take(n)[i]) by {
        assert(readings.take(n).take(i + 1) =~= readings.take(i + 1));
        assert(on.take(n)[i] == on[i]);
    }
}

/// What is heard by the end of the first part of what was keyed.
pub proof fn lemma_first_heard_as_sliced(
    rate: Rate,
    readings: Seq<Reading>,
    on: Seq<bool>,
    first: Seq<bool>,
)
    requires
        sliced_as(readings, on),
        first.is_prefix_of(on),
    ensures
        Station::initial().heard(rate, readings.take(first.len() as int))
            == Station::initial().heard(rate, received(first)),
{
    let n = first.len() as int;
    assert(on.take(n) =~= first);
    lemma_first_sliced_as(readings, on, n);
    law_heard_as_sliced(rate, readings.take(n), first);
}

/// Until the first edge nothing happens: samples that are all off leave a new
/// station as it is, and nothing is heard.
pub proof fn law_nothing_before_edge(rate: Rate, readings: Seq<Reading>)
    requires
        sliced_as(readings, keying::off(readings.len())),
    ensures
        Station::initial().after(rate, readings) == Station::initial(),
        Station::initial().taken(rate, readings) == Seq::<u8>::empty(),
        Station::initial().heard(rate, readings) == Seq::<Frame>::empty(),
{
    law_heard_as_sliced(rate, readings, keying::off(readings.len()));
    lemma_off_before_edge(rate, readings.len());
}

/// A new station is left as it is while the tone is off.
pub proof fn lemma_off_before_edge(rate: Rate, n: nat)
    ensures
        ({
            let readings = received(keying::off(n));
            &&& Station::initial().after(rate, readings) == Station::initial()
            &&& Station::initial().taken(rate, readings) == Seq::<u8>::empty()
            &&& Station::initial().heard(rate, readings) == Seq::<Frame>::empty()
        }),
    decreases n,
{
    if n > 0 {
        let fewer = (n - 1) as nat;
        lemma_off_before_edge(rate, fewer);
        assert(received(keying::off(n)).drop_last() =~= received(keying::off(fewer)));
        assert(received(keying::off(n)).last() == Reading::Below);
    }
}

/// While the tone is off, what a station takes are chips that are off, if it takes
/// any.
pub proof fn lemma_off_taken(station: Station, rate: Rate, n: nat)
    requires
        station.reception.primed,
    ensures
        ({
            let readings = received(keying::off(n));
            let then = station.after(rate, readings);
            let taken = station.taken(rate, readings);
            &&& taken == frame::silence(taken.len())
            &&& n > 0 ==> then.reception.level == 0
            &&& n == 0 ==> then == station
            &&& then.reception.primed
        }),
    decreases n,
{
    let readings = received(keying::off(n));
    if n > 0 {
        let fewer = (n - 1) as nat;
        lemma_off_taken(station, rate, fewer);
        assert(readings.drop_last() =~= received(keying::off(fewer)));
        assert(readings.last() == Reading::Below);
        let before = station.taken(rate, received(keying::off(fewer)));
        assert(before.push(0) =~= frame::silence(before.len() + 1));
    } else {
        assert(station.taken(rate, readings) =~= frame::silence(0));
    }
}

/// The time to the next chip center that a station has when a chip begins: what
/// its clock shows, or half a chip if the chip begins with an edge.
pub open spec fn ahead(station: Station, rate: Rate, chip: u8) -> int {
    if station.reception.level == chip {
        station.clock
    } else {
        rate.samples as int
    }
}

/// The samples of a chip that lasts for `m` of them.
pub open spec fn held(chip: u8, m: nat) -> Seq<Reading> {
    Seq::new(m, |i: int| clean(chip == 1))
}

/// Part of the samples of one chip: a chip that lasts past one chip center and
/// not past two is taken once.
proof fn lemma_part_of_chip(station: Station, rate: Rate, chip: u8, n: nat, m: nat)
    requires
        chip <= 1,
        station.reception.level <= 1,
        station.reception.level != chip || station.reception.primed,
        1 <= m <= n,
        ahead(station, rate, chip) > 0,
        ahead(station, rate, chip) - ticks(rate, n) + 2 * rate.samples > 0,
    ensures
        ({
            let then = station.after(rate, held(chip, m));
            let left = ahead(station, rate, chip) - ticks(rate, m);
            let taken = station.taken(rate, held(chip, m));
            &&& then.reception.level == chip
            &&& then.reception.primed
            &&& left > 0 ==> then.clock == left && taken == Seq::<u8>::empty()
            &&& left <= 0 ==> then.clock == left + 2 * rate.samples && taken == seq![chip]
        }),
    decreases m,
{
    let (readings, fewer) = (held(chip, m), held(chip, (m - 1) as nat));
    assert(readings.drop_last() =~= fewer);
    assert(readings.last() == clean(chip == 1));
    lemma_ticks(rate, m, n);
    if m == 1 {
        assert(fewer =~= Seq::empty());
        assert(station.after(rate, fewer) == station);
        assert(station.taken(rate, fewer) == Seq::<u8>::empty());
    } else {
        lemma_part_of_chip(station, rate, chip, n, (m - 1) as nat);
    }
    assert(Seq::empty().push(chip) =~= seq![chip]);
}

/// A chip that lasts past one chip center and not past two is taken once.
pub proof fn lemma_chip_taken(station: Station, rate: Rate, chip: u8, n: nat)
    requires
        chip <= 1,
        station.reception.level <= 1,
        station.reception.level != chip || station.reception.primed,
        1 <= n,
        0 < ahead(station, rate, chip) <= ticks(rate, n),
        ticks(rate, n) < ahead(station, rate, chip) + 2 * rate.samples,
    ensures
        ({
            let then = station.after(rate, held(chip, n));
            &&& then.reception.level == chip
            &&& then.reception.primed
            &&& then.clock == ahead(station, rate, chip) + 2 * rate.samples - ticks(rate, n)
            &&& station.taken(rate, held(chip, n)) == seq![chip]
        }),
{
    lemma_part_of_chip(station, rate, chip, n, n);
}

/// The samples of the last chip follow those of the others.
pub proof fn lemma_received_chip(chips: Seq<u8>, samples_per_chip: Seq<usize>)
    requires
        chips.len() > 0,
        chips.len() == samples_per_chip.len(),
    ensures
        received(keying::keyed(chips, samples_per_chip)) == received(
            keying::keyed(chips.drop_last(), samples_per_chip.drop_last()),
        ) + held(chips.last(), samples_per_chip.last() as nat),
{
    assert(received(keying::keyed(chips, samples_per_chip)) =~= received(
        keying::keyed(chips.drop_last(), samples_per_chip.drop_last()),
    ) + held(chips.last(), samples_per_chip.last() as nat));
}

/// A string of samples does what its samples do one after the other.
pub proof fn law_sample_by_sample(
    station: Station,
    rate: Rate,
    readings: Seq<Reading>,
    reading: Reading,
)
    ensures
        station.after(rate, Seq::empty()) == station,
        station.heard(rate, Seq::empty()) == Seq::<Frame>::empty(),
        station.after(rate, readings.push(reading)) == station.after(rate, readings).next(
            rate,
            reading,
        ),
        station.heard(rate, readings.push(reading)) == match station.after(
            rate,
            readings,
        ).completed(rate, reading) {
            Some(frame) => station.heard(rate, readings).push(frame),
            None => station.heard(rate, readings),
        },
{
    assert(readings.push(reading).drop_last() =~= readings);
}

/// The clock starts over half a chip ahead of a chip center, loses the time of one
/// sample with each sample, and where none is left over the sample is due and a
/// whole chip is added.
pub proof fn law_clock(station: Station, rate: Rate, reading: Reading)
    ensures
        ({
            let then = station.next(rate, reading);
            let (half, tick) = (rate.samples as int, 2 * rate.chips as int);
            let restart = half - tick;
            let advance = station.clock - tick;
            &&& then.reception == station.reception.next(reading, restart <= 0, advance <= 0)
            &&& station.completed(rate, reading) == station.reception.completed(
                reading,
                restart <= 0,
                advance <= 0,
            )
            &&& then.reception.level != station.reception.level ==> then.clock == if restart <= 0 {
                restart + 2 * half
            } else {
                restart
            }
            &&& then.reception.level == station.reception.level && station.reception.primed
                ==> then.clock == if advance <= 0 {
                advance + 2 * half
            } else {
                advance
            }
        }),
{
}

} // verus!
