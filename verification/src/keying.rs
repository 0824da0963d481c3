//! On-off keying: when the tone is on during a burst.

use vstd::prelude::*;

use crate::frame;
use crate::frame::frame_to_chips;

verus! {

/// The chips of a burst: `lead` chips of silence, the frame, `tail` chips of
/// silence.
pub open spec fn burst(payload: Seq<u8>, lead: nat, tail: nat) -> Seq<u8> {
    frame::silence(lead) + frame::frame_chips(payload) + frame::silence(tail)
}

/// The samples of all chips together.
pub open spec fn sample_count(samples_per_chip: Seq<usize>) -> nat
    decreases samples_per_chip.len(),
{
    if samples_per_chip.len() == 0 {
        0
    } else {
        sample_count(samples_per_chip.drop_last()) + samples_per_chip.last() as nat
    }
}

/// Whether the tone is on, sample by sample: each chip's level lasts for the
/// samples of that chip.
pub open spec fn keyed(chips: Seq<u8>, samples_per_chip: Seq<usize>) -> Seq<bool>
    decreases chips.len(),
{
    if chips.len() == 0 {
        Seq::empty()
    } else {
        keyed(chips.drop_last(), samples_per_chip.drop_last()) + Seq::new(
            samples_per_chip.last() as nat,
            |i: int| chips.last() == 1,
        )
    }
}

/// Samples at which the tone is off.
pub open spec fn off(n: nat) -> Seq<bool> {
    Seq::new(n, |i: int| false)
}

/// The chips of a burst: silence, the frame of `payload`, silence.
pub fn burst_chips(payload: &[u8], lead_chips: usize, tail_chips: usize) -> (chips: Vec<u8>)
    requires
        payload@.len() <= frame::MAX_PAYLOAD,
        lead_chips + frame::frame_chip_count(payload@.len()) + tail_chips <= isize::MAX,
    ensures
        chips@ == burst(payload@, lead_chips as nat, tail_chips as nat),
        chips@.len() == lead_chips + frame::frame_chips(payload@).len() + tail_chips,
        forall|i: int| 0 <= i < lead_chips ==> #[trigger] chips@[i] == 0,
        forall|i: int|
            0 <= i < frame::frame_chips(payload@).len() ==> chips@[lead_chips + i]
                == #[trigger] frame::frame_chips(payload@)[i],
        forall|i: int| chips@.len() - tail_chips <= i < chips@.len() ==> #[trigger] chips@[i] == 0,
{
    let frame: Vec<u8> = frame_to_chips(payload);
    proof {
        frame::law_frame_length(payload@);
    }
    let total_chips: usize = lead_chips + frame.len() + tail_chips;
    let mut chips: Vec<u8> = Vec::with_capacity(total_chips);
    let mut i: usize = 0;
    while i < lead_chips
        invariant
            i <= lead_chips,
            chips@ == frame::silence(i as nat),
        decreases lead_chips - i,
    {
        chips.push(0);
        assert(chips@ =~= frame::silence((i + 1) as nat));
        i = i + 1;
    }
    i = 0;
    let ghost lead = chips@;
    while i < frame.len()
        invariant
            i <= frame@.len(),
            chips@ == lead + frame@.take(i as int),
        decreases frame@.len() - i,
    {
        chips.push(frame[i]);
        assert(chips@ =~= lead + frame@.take(i + 1));
        i = i + 1;
    }
    assert(chips@ =~= lead + frame@);
    i = 0;
    while i < tail_chips
        invariant
            i <= tail_chips,
            chips@ == lead + frame@ + frame::silence(i as nat),
        decreases tail_chips - i,
    {
        chips.push(0);
        assert(chips@ =~= lead + frame@ + frame::silence((i + 1) as nat));
        i = i + 1;
    }
    chips
}

/// Turn `payload` into the keying of the tone, one entry per sample.
///
/// `lead_chips` and `tail_chips` add silence (carrier off) before and after the
/// burst so that the hardware has time to settle and nothing gets clipped at the
/// edges. `samples_per_chip` gives the samples that each chip of the burst lasts.
pub fn modulate(
    samples_per_chip: &[usize],
    payload: &[u8],
    lead_chips: usize,
    tail_chips: usize,
) -> (on: Vec<bool>)
    requires
        payload@.len() <= frame::MAX_PAYLOAD,
        lead_chips + frame::frame_chip_count(payload@.len()) + tail_chips <= isize::MAX,
        samples_per_chip@.len() == lead_chips + frame::frame_chip_count(payload@.len()) + tail_chips,
        sample_count(samples_per_chip@) <= isize::MAX,
    ensures
        on@ == keyed(burst(payload@, lead_chips as nat, tail_chips as nat), samples_per_chip@),
{
    let chips: Vec<u8> = burst_chips(payload, lead_chips, tail_chips);
    proof {
        frame::law_frame_length(payload@);
    }
    let mut on: Vec<bool> = Vec::new();
    let mut i: usize = 0;
    while i < chips.len()
        invariant
            i <= chips@.len(),
            samples_per_chip@.len() == chips@.len(),
            on@ == keyed(chips@.take(i as int), samples_per_chip@.take(i as int)),
        decreases chips@.len() - i,
    {
        let level: bool = chips[i] == 1;
        let n: usize = samples_per_chip[i];
        let ghost before = on@;
        let mut k: usize = 0;
        while k < n
            invariant
                k <= n,
                on@ == before + Seq::new(k as nat, |j: int| level),
            decreases n - k,
        {
            on.push(level);
            assert(on@ =~= before + Seq::new((k + 1) as nat, |j: int| level));
            k = k + 1;
        }
        proof {
            assert(chips@.take(i + 1).drop_last() =~= chips@.take(i as int));
            assert(samples_per_chip@.take(i + 1).drop_last() =~= samples_per_chip@.take(i as int));
            assert(on@ =~= keyed(chips@.take(i + 1), samples_per_chip@.take(i + 1)));
        }
        i = i + 1;
    }
    assert(chips@.take(i as int) =~= chips@);
    assert(samples_per_chip@.take(i as int) =~= samples_per_chip@);
    on
}

/// There is one entry for each sample of each chip.
pub proof fn law_every_sample_is_keyed(chips: Seq<u8>, samples_per_chip: Seq<usize>)
    requires
        chips.len() == samples_per_chip.len(),
    ensures
        keyed(chips, samples_per_chip).len() == sample_count(samples_per_chip),
    decreases chips.len(),
{
    if chips.len() > 0 {
        law_every_sample_is_keyed(chips.drop_last(), samples_per_chip.drop_last());
    }
}

/// The tone is on at the samples of the chips that are on, and off at all
/// others: sample `k` of chip `c` has the level of that chip.
pub proof fn law_sample_has_chip_level(
    chips: Seq<u8>,
    samples_per_chip: Seq<usize>,
    c: int,
    k: int,
)
    requires
        chips.len() == samples_per_chip.len(),
        0 <= c < chips.len(),
        0 <= k < samples_per_chip[c],
    ensures
        sample_count(samples_per_chip.take(c)) + k < keyed(chips, samples_per_chip).len(),
        keyed(chips, samples_per_chip)[sample_count(samples_per_chip.take(c)) + k] == (chips[c]
            == 1),
    decreases chips.len(),
{
    let (fewer, counts) = (chips.drop_last(), samples_per_chip.drop_last());
    law_every_sample_is_keyed(fewer, counts);
    if c < chips.len() - 1 {
        law_sample_has_chip_level(fewer, counts, c, k);
        assert(counts.take(c) =~= samples_per_chip.take(c));
    } else {
        assert(counts =~= samples_per_chip.take(c));
    }
}

/// Keying chips in two parts keys the samples of both.
pub proof fn lemma_keyed_in_parts(first: Seq<u8>, second: Seq<u8>, samples_per_chip: Seq<usize>)
    requires
        samples_per_chip.len() == first.len() + second.len(),
    ensures
        keyed(first + second, samples_per_chip) == keyed(
            first,
            samples_per_chip.take(first.len() as int),
        ) + keyed(second, samples_per_chip.skip(first.len() as int)),
    decreases second.len(),
{
    let n = first.len() as int;
    if second.len() == 0 {
        assert(first + second =~= first);
        assert(samples_per_chip.take(n) =~= samples_per_chip);
        assert(keyed(first, samples_per_chip) + Seq::<bool>::empty() =~= keyed(
            first,
            samples_per_chip,
        ));
    } else {
        let fewer = samples_per_chip.drop_last();
        lemma_keyed_in_parts(first, second.drop_last(), fewer);
        assert((first + second).drop_last() =~= first + second.drop_last());
        assert(fewer.take(n) =~= samples_per_chip.take(n));
        assert(fewer.skip(n) =~= samples_per_chip.skip(n).drop_last());
        assert(keyed(first + second, samples_per_chip) =~= keyed(
            first,
            samples_per_chip.take(n),
        ) + keyed(second, samples_per_chip.skip(n)));
    }
}

/// Silence is keyed as samples that are all off.
pub proof fn lemma_silence_is_off(gap: nat, samples_per_chip: Seq<usize>)
    requires
        samples_per_chip.len() == gap,
    ensures
        keyed(frame::silence(gap), samples_per_chip) == off(sample_count(samples_per_chip)),
    decreases gap,
{
    let on = keyed(frame::silence(gap), samples_per_chip);
    if gap > 0 {
        lemma_silence_is_off((gap - 1) as nat, samples_per_chip.drop_last());
        assert(frame::silence(gap).drop_last() =~= frame::silence((gap - 1) as nat));
    }
    assert(on =~= off(sample_count(samples_per_chip)));
}

/// A longer tail only adds samples at the end, all of them off: the burst up to
/// the shorter tail is keyed as it is without the longer one.
pub proof fn law_longer_tail_adds_silence(
    payload: Seq<u8>,
    lead: nat,
    tail: nat,
    more: nat,
    samples_per_chip: Seq<usize>,
)
    requires
        samples_per_chip.len() == burst(payload, lead, tail + more).len(),
    ensures
        ({
            let n = burst(payload, lead, tail).len() as int;
            keyed(burst(payload, lead, tail + more), samples_per_chip) == keyed(
                burst(payload, lead, tail),
                samples_per_chip.take(n),
            ) + off(sample_count(samples_per_chip.skip(n)))
        }),
{
    let chips = burst(payload, lead, tail);
    let n = chips.len() as int;
    assert(burst(payload, lead, tail + more) =~= chips + frame::silence(more));
    lemma_keyed_in_parts(chips, frame::silence(more), samples_per_chip);
    lemma_silence_is_off(more, samples_per_chip.skip(n));
}

/// A burst is silence for the lead, each chip of the frame in its place, and
/// silence for the tail.
pub proof fn law_burst_layout(payload: Seq<u8>, lead: nat, tail: nat)
    ensures
        ({
            let (chips, sent) = (burst(payload, lead, tail), frame::frame_chips(payload));
            &&& chips.len() == lead + sent.len() + tail
            &&& forall|i: int| 0 <= i < lead ==> #[trigger] chips[i] == 0
            &&& forall|i: int| 0 <= i < sent.len() ==> chips[lead + i] == #[trigger] sent[i]
            &&& forall|i: int|
                lead + sent.len() <= i < chips.len() ==> #[trigger] chips[i] == 0
        }),
{
}

/// The chips are keyed one after the other, each for all of its samples and at its
/// own level throughout.
pub proof fn law_chips_are_keyed_in_turn(chips: Seq<u8>, samples_per_chip: Seq<usize>)
    requires
        chips.len() == samples_per_chip.len(),
    ensures
        keyed(chips, samples_per_chip) == Seq::new(
            chips.len(),
            |c: int| Seq::new(samples_per_chip[c] as nat, |k: int| chips[c] == 1),
        ).flatten(),
    decreases chips.len(),
{
    let parts = Seq::new(
        chips.len(),
        |c: int| Seq::new(samples_per_chip[c] as nat, |k: int| chips[c] == 1),
    );
    parts.lemma_flatten_and_flatten_alt_are_equivalent();
    if chips.len() > 0 {
        let (fewer, counts) = (chips.drop_last(), samples_per_chip.drop_last());
        let before = Seq::new(
            fewer.len(),
            |c: int| Seq::new(counts[c] as nat, |k: int| fewer[c] == 1),
        );
        law_chips_are_keyed_in_turn(fewer, counts);
        before.lemma_flatten_and_flatten_alt_are_equivalent();
        assert(parts.drop_last() =~= before) by {
            assert forall|c: int| 0 <= c < before.len() implies parts.drop_last()[c]
                == #[trigger] before[c] by {
                assert(parts.drop_last()[c] =~= before[c]);
            }
        }
        assert(parts.last() =~= Seq::new(
            samples_per_chip.last() as nat,
            |i: int| chips.last() == 1,
        ));
    }
}

} // verus!
