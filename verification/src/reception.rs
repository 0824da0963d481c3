//! What a receiver makes of any chips at all: where it finds a frame, and what it
//! reports of it, read off the chips themselves.

use vstd::prelude::*;

use crate::acquisition;
use crate::bits;
use crate::counting;
use crate::crc;
use crate::frame;
use crate::link;
use crate::manchester;
use crate::receiver;
use crate::receiver::{Frame, Phase};

verus! {

/// The latest chips match the sync pattern when there are 96 of them and no more
/// than six differ.
proof fn lemma_match(chips: Seq<u8>, n: int)
    requires
        0 <= n <= chips.len(),
    ensures
        receiver::in_sync(acquisition::latest(chips.take(n))) <==> n >= 96 && ({
            let seen = chips.take(n);
            Set::new(|j: int| 0 <= j < 96 && seen[n - 96 + j] != frame::sync_pattern()[j]).len()
                <= 6
        }),
{
    frame::lemma_pattern_length();
    let seen = chips.take(n);
    let window = acquisition::latest(seen);
    if n >= 96 {
        receiver::law_mismatches_are_counted(window, frame::sync_pattern());
        assert(Set::new(|i: int| 0 <= i < window.len() && window[i] != frame::sync_pattern()[i])
            =~= Set::new(
            |j: int| 0 <= j < 96 && seen[n - 96 + j] != frame::sync_pattern()[j],
        ));
    }
}

/// A new receiver reports nothing while no 96 chips in a row match the sync pattern
/// but for six of them.
pub proof fn law_nothing_without_match(chips: Seq<u8>)
    requires
        forall|n: int|
            96 <= n <= chips.len() ==> ({
                let seen = #[trigger] chips.take(n);
                Set::new(|j: int| 0 <= j < 96 && seen[n - 96 + j] != frame::sync_pattern()[j]).len()
                    > 6
            }),
    ensures
        receiver::frames_from(Phase::initial(), chips) == Seq::<Frame>::empty(),
{
    let none = Seq::<u8>::empty();
    frame::lemma_pattern_length();
    assert forall|n: int| 0 <= n <= chips.len() implies !receiver::in_sync(
        #[trigger] acquisition::latest(none + chips.take(n)),
    ) by {
        assert(none + chips.take(n) =~= chips.take(n));
        lemma_match(chips, n);
    }
    link::law_search_keeps_latest(none, chips);
}

/// A byte is read from eight pairs of chips: a pair counts as a one if its first
/// chip is on and its second on or off.
proof fn lemma_byte_read(chips: Seq<u8>, i: int)
    requires
        0 <= i,
        16 * i + 16 <= chips.len(),
    ensures
        ({
            let bit = |p: int|
                if chips[p] == 1 && chips[p + 1] <= 1 {
                    1int
                } else {
                    0int
                };
            let at = 16 * i;
            receiver::bytes_read(chips)[i] == 128 * bit(at) + 64 * bit(at + 2) + 32 * bit(at + 4)
                + 16 * bit(at + 6) + 8 * bit(at + 8) + 4 * bit(at + 10) + 2 * bit(at + 12) + bit(
                at + 14,
            )
        }),
        receiver::bytes_read(chips).len() == chips.len() / 16,
{
    let read = manchester::bits_of_chips(chips);
    let bit = |p: int|
        if chips[p] == 1 && chips[p + 1] <= 1 {
            1int
        } else {
            0int
        };
    assert(read.len() == chips.len() / 2);
    bits::law_bits_spell_bytes(read);
    let k = 8 * i;
    assert(receiver::bytes_read(chips)[i] == bits::bytes_of(read)[i]);
    assert(read[k] % 2 == bit(2 * k) && read[k + 1] % 2 == bit(2 * (k + 1)));
    assert(read[k + 2] % 2 == bit(2 * (k + 2)) && read[k + 3] % 2 == bit(2 * (k + 3)));
    assert(read[k + 4] % 2 == bit(2 * (k + 4)) && read[k + 5] % 2 == bit(2 * (k + 5)));
    assert(read[k + 6] % 2 == bit(2 * (k + 6)) && read[k + 7] % 2 == bit(2 * (k + 7)));
}

/// The bad pairs of two even strings of chips are those of both.
proof fn lemma_bad_pairs_add_up(first: Seq<u8>, second: Seq<u8>)
    requires
        first.len() % 2 == 0,
        second.len() % 2 == 0,
    ensures
        manchester::bad_pairs(first + second) == manchester::bad_pairs(first)
            + manchester::bad_pairs(second),
{
    let all = first + second;
    let (n, m) = (first.len() / 2, second.len() / 2);
    let bad = |k: int| !manchester::is_code_word(all[2 * k], all[2 * k + 1]);
    counting::lemma_count_split(n, m, bad);
    counting::lemma_count_agree(
        n,
        bad,
        |k: int| !manchester::is_code_word(first[2 * k], first[2 * k + 1]),
    );
    counting::lemma_count_agree(
        m,
        |i: int| bad(n + i),
        |k: int| !manchester::is_code_word(second[2 * k], second[2 * k + 1]),
    );
}

/// What is read from the chips of a length byte and of what it announces, whatever
/// they hold. Byte `i` after the length byte is byte `i` of the payload, also where
/// the checksum is wrong.
pub proof fn law_frame_is_read_from_chips(chips: Seq<u8>)
    requires
        chips.len() >= 48,
        chips.len() % 16 == 0,
    ensures
        ({
            let bit = |p: int|
                if chips[p] == 1 && chips[p + 1] <= 1 {
                    1int
                } else {
                    0int
                };
            let byte = |b: int|
                128 * bit(16 * b) + 64 * bit(16 * b + 2) + 32 * bit(16 * b + 4) + 16 * bit(16 * b
                    + 6) + 8 * bit(16 * b + 8) + 4 * bit(16 * b + 10) + 2 * bit(16 * b + 12) + bit(
                    16 * b + 14,
                );
            let len = chips.len() / 16 - 3;
            let frame = receiver::frame_read(
                len as nat,
                manchester::bad_pairs(chips.take(16)),
                chips.skip(16),
            );
            &&& frame.payload.len() == len
            &&& forall|i: int| 0 <= i < len ==> #[trigger] frame.payload[i] == byte(1 + i)
            &&& frame.crc_ok <==> 256 * byte(1 + len) + byte(2 + len) == crc::crc_of(
                seq![len as u8] + frame.payload,
            )
            &&& frame.manchester_errors == Set::new(
                |k: int| 0 <= k < chips.len() / 2 && chips[2 * k] + chips[2 * k + 1] != 1,
            ).len()
        }),
{
    let bit = |p: int|
        if chips[p] == 1 && chips[p + 1] <= 1 {
            1int
        } else {
            0int
        };
    let byte = |b: int|
        128 * bit(16 * b) + 64 * bit(16 * b + 2) + 32 * bit(16 * b + 4) + 16 * bit(16 * b + 6) + 8
            * bit(16 * b + 8) + 4 * bit(16 * b + 10) + 2 * bit(16 * b + 12) + bit(16 * b + 14);
    let len = chips.len() / 16 - 3;
    let (first, rest) = (chips.take(16), chips.skip(16));
    let frame = receiver::frame_read(len as nat, manchester::bad_pairs(first), rest);
    let bytes = receiver::bytes_read(rest);
    assert forall|b: int| 0 <= b < len + 2 implies #[trigger] bytes[b] == byte(1 + b) by {
        lemma_byte_read(rest, b);
        lemma_same_byte(rest, b, chips, 16);
        assert(16 * (1 + b) == 16 + 16 * b);
    }
    lemma_byte_read(rest, 0);
    assert(bytes.len() == len + 2);
    assert forall|i: int| 0 <= i < len implies #[trigger] frame.payload[i] == byte(1 + i) by {
        assert(frame.payload[i] == bytes[i]);
    }
    let checked = seq![len as u8] + frame.payload;
    let crc = crc::crc_of(checked);
    crc::law_checksum_bytes(crc);
    let check = bytes.skip(len as int);
    assert(check[0] == bytes[len as int] && check[1] == bytes[len + 1]);
    assert(frame::checked_bytes(frame.payload) =~= checked);
    if 256 * byte(1 + len) + byte(2 + len) == crc {
        assert(check =~= crc::crc_bytes(crc));
    }
    assert(first + rest =~= chips);
    lemma_bad_pairs_add_up(first, rest);
    manchester::law_bad_pairs_are_counted(chips);
}

/// A byte is read alike from a string of chips and from a longer one that holds it
/// at position `n`.
proof fn lemma_same_byte(part: Seq<u8>, b: int, chips: Seq<u8>, n: int)
    requires
        0 <= b,
        0 <= n,
        16 * b + 16 <= part.len(),
        n + part.len() <= chips.len(),
        forall|i: int| 0 <= i < part.len() ==> #[trigger] part[i] == chips[n + i],
    ensures
        ({
            let own = |p: int|
                if part[p] == 1 && part[p + 1] <= 1 {
                    1int
                } else {
                    0int
                };
            let bit = |p: int|
                if chips[p] == 1 && chips[p + 1] <= 1 {
                    1int
                } else {
                    0int
                };
            128 * own(16 * b) + 64 * own(16 * b + 2) + 32 * own(16 * b + 4) + 16 * own(16 * b + 6)
                + 8 * own(16 * b + 8) + 4 * own(16 * b + 10) + 2 * own(16 * b + 12) + own(
                16 * b + 14,
            ) == 128 * bit(n + 16 * b) + 64 * bit(n + 16 * b + 2) + 32 * bit(n + 16 * b + 4) + 16
                * bit(n + 16 * b + 6) + 8 * bit(n + 16 * b + 8) + 4 * bit(n + 16 * b + 10) + 2
                * bit(n + 16 * b + 12) + bit(n + 16 * b + 14)
        }),
{
    let own = |p: int|
        if part[p] == 1 && part[p + 1] <= 1 {
            1int
        } else {
            0int
        };
    let bit = |p: int|
        if chips[p] == 1 && chips[p + 1] <= 1 {
            1int
        } else {
            0int
        };
    assert forall|p: int| 0 <= p && p + 1 < part.len() implies #[trigger] own(p) == bit(n + p) by {
        assert(part[p] == chips[n + p] && part[p + 1] == chips[n + p + 1]);
    }
    let at = 16 * b;
    assert(own(at) == bit(n + at) && own(at + 2) == bit(n + at + 2));
    assert(own(at + 4) == bit(n + at + 4) && own(at + 6) == bit(n + at + 6));
    assert(own(at + 8) == bit(n + at + 8) && own(at + 10) == bit(n + at + 10));
    assert(own(at + 12) == bit(n + at + 12) && own(at + 14) == bit(n + at + 14));
}

/// Where the latest 96 chips match the sync pattern for the first time but for six
/// of them, a new receiver reads a length byte, as many bytes as it says and two
/// more, whatever they are. With the last chip of these it reports one frame, and
/// then goes on as a new receiver does; it reports nothing before.
pub proof fn law_first_match_is_read(chips: Seq<u8>, n: int)
    requires
        96 <= n <= chips.len(),
        ({
            let seen = chips.take(n);
            Set::new(|j: int| 0 <= j < 96 && seen[n - 96 + j] != frame::sync_pattern()[j]).len()
                <= 6
        }),
        forall|m: int|
            96 <= m < n ==> ({
                let seen = #[trigger] chips.take(m);
                Set::new(|j: int| 0 <= j < 96 && seen[m - 96 + j] != frame::sync_pattern()[j]).len()
                    > 6
            }),
    ensures
        chips.len() < n + 16 ==> receiver::frames_from(Phase::initial(), chips) == Seq::<
            Frame,
        >::empty(),
        chips.len() >= n + 16 ==> ({
            let bit = |p: int|
                if chips[p] == 1 && chips[p + 1] <= 1 {
                    1int
                } else {
                    0int
                };
            let byte = |b: int|
                128 * bit(n + 16 * b) + 64 * bit(n + 16 * b + 2) + 32 * bit(n + 16 * b + 4) + 16
                    * bit(n + 16 * b + 6) + 8 * bit(n + 16 * b + 8) + 4 * bit(n + 16 * b + 10) + 2
                    * bit(n + 16 * b + 12) + bit(n + 16 * b + 14);
            let len = byte(0);
            let end = n + 16 * (len + 3);
            let frames = receiver::frames_from(Phase::initial(), chips);
            &&& chips.len() < end ==> frames == Seq::<Frame>::empty()
            &&& chips.len() >= end ==> {
                &&& frames.len() > 0
                &&& frames[0].payload.len() == len
                &&& forall|i: int|
                    0 <= i < len ==> #[trigger] frames[0].payload[i] == byte(1 + i)
                &&& frames[0].crc_ok <==> 256 * byte(1 + len) + byte(2 + len) == crc::crc_of(
                    seq![len as u8] + frames[0].payload,
                )
                &&& frames[0].manchester_errors == Set::new(
                    |k: int|
                        0 <= k < 8 * (len + 3) && chips[n + 2 * k] + chips[n + 2 * k + 1] != 1,
                ).len()
                &&& frames.drop_first() == receiver::frames_from(
                    Phase::initial(),
                    chips.skip(end),
                )
            }
        }),
{
    let rest = chips.skip(n);
    lemma_aligned_at(chips, n);
    if rest.len() < 16 {
        link::lemma_reading_len(rest);
    } else {
        lemma_aligned_reads(rest);
        lemma_read_at(chips, n);
    }
}

/// From the first match on a new receiver does what an aligned one does.
proof fn lemma_aligned_at(chips: Seq<u8>, n: int)
    requires
        96 <= n <= chips.len(),
        ({
            let seen = chips.take(n);
            Set::new(|j: int| 0 <= j < 96 && seen[n - 96 + j] != frame::sync_pattern()[j]).len()
                <= 6
        }),
        forall|m: int|
            96 <= m < n ==> ({
                let seen = #[trigger] chips.take(m);
                Set::new(|j: int| 0 <= j < 96 && seen[m - 96 + j] != frame::sync_pattern()[j]).len()
                    > 6
            }),
    ensures
        receiver::frames_from(Phase::initial(), chips) == receiver::frames_from(
            Phase::ReadLen { chips: Seq::empty() },
            chips.skip(n),
        ),
{
    let none = Seq::<u8>::empty();
    let (lead, rest) = (chips.take(n), chips.skip(n));
    frame::lemma_pattern_length();
    assert(none + lead =~= lead);
    assert(lead.take(n) =~= lead);
    lemma_match(chips, n);
    assert forall|m: int| 0 <= m < n implies !receiver::in_sync(
        #[trigger] acquisition::latest(none + lead.take(m)),
    ) by {
        assert(none + lead.take(m) =~= chips.take(m));
        lemma_match(chips, m);
    }
    link::law_first_match_aligns(none, lead);
    assert(lead + rest =~= chips);
    receiver::lemma_chips_in_parts(Phase::initial(), lead, rest);
    let frames = receiver::frames_from(Phase::ReadLen { chips: Seq::empty() }, rest);
    assert(Seq::<Frame>::empty() + frames =~= frames);
}

/// What is read from position `n` of a string of chips on.
proof fn lemma_read_at(chips: Seq<u8>, n: int)
    requires
        0 <= n,
        n + 16 <= chips.len(),
    ensures
        ({
            let bit = |p: int|
                if chips[p] == 1 && chips[p + 1] <= 1 {
                    1int
                } else {
                    0int
                };
            let byte = |b: int|
                128 * bit(n + 16 * b) + 64 * bit(n + 16 * b + 2) + 32 * bit(n + 16 * b + 4) + 16
                    * bit(n + 16 * b + 6) + 8 * bit(n + 16 * b + 8) + 4 * bit(n + 16 * b + 10) + 2
                    * bit(n + 16 * b + 12) + bit(n + 16 * b + 14);
            let len = byte(0);
            let end = n + 16 * (len + 3);
            let rest = chips.skip(n);
            &&& receiver::bytes_read(rest.take(16))[0] == len
            &&& chips.len() >= end ==> {
                let frame = receiver::frame_read(
                    len as nat,
                    manchester::bad_pairs(rest.take(16)),
                    rest.subrange(16, end - n),
                );
                &&& frame.payload.len() == len
                &&& forall|i: int| 0 <= i < len ==> #[trigger] frame.payload[i] == byte(1 + i)
                &&& frame.crc_ok <==> 256 * byte(1 + len) + byte(2 + len) == crc::crc_of(
                    seq![len as u8] + frame.payload,
                )
                &&& frame.manchester_errors == Set::new(
                    |k: int|
                        0 <= k < 8 * (len + 3) && chips[n + 2 * k] + chips[n + 2 * k + 1] != 1,
                ).len()
                &&& rest.skip(end - n) == chips.skip(end)
            }
        }),
{
    let bit = |p: int|
        if chips[p] == 1 && chips[p + 1] <= 1 {
            1int
        } else {
            0int
        };
    let byte = |b: int|
        128 * bit(n + 16 * b) + 64 * bit(n + 16 * b + 2) + 32 * bit(n + 16 * b + 4) + 16 * bit(
            n + 16 * b + 6,
        ) + 8 * bit(n + 16 * b + 8) + 4 * bit(n + 16 * b + 10) + 2 * bit(n + 16 * b + 12) + bit(
            n + 16 * b + 14,
        );
    let len = byte(0);
    let end = n + 16 * (len + 3);
    let rest = chips.skip(n);
    let first = rest.take(16);
    lemma_byte_read(first, 0);
    lemma_same_byte(first, 0, chips, n);
    if chips.len() >= end {
        let body = chips.subrange(n, end);
        law_frame_is_read_from_chips(body);
        assert(body.take(16) =~= first);
        assert(body.skip(16) =~= rest.subrange(16, end - n));
        assert(rest.skip(end - n) =~= chips.skip(end));
        let frame = receiver::frame_read(
            len as nat,
            manchester::bad_pairs(first),
            body.skip(16),
        );
        assert forall|i: int| 0 <= i < len implies #[trigger] frame.payload[i] == byte(1 + i) by {
            lemma_same_byte(body, 1 + i, chips, n);
        }
        lemma_same_byte(body, 1 + len, chips, n);
        lemma_same_byte(body, 2 + len, chips, n);
        lemma_same_bad_pairs(body, chips, n);
    }
}

/// The bad pairs of a part of a string of chips.
proof fn lemma_same_bad_pairs(part: Seq<u8>, chips: Seq<u8>, n: int)
    requires
        0 <= n,
        n + part.len() <= chips.len(),
        part == chips.subrange(n, n + part.len()),
    ensures
        Set::new(|k: int| 0 <= k < part.len() / 2 && part[2 * k] + part[2 * k + 1] != 1)
            == Set::new(
            |k: int| 0 <= k < part.len() / 2 && chips[n + 2 * k] + chips[n + 2 * k + 1] != 1,
        ),
{
    assert(Set::new(|k: int| 0 <= k < part.len() / 2 && part[2 * k] + part[2 * k + 1] != 1)
        =~= Set::new(
        |k: int| 0 <= k < part.len() / 2 && chips[n + 2 * k] + chips[n + 2 * k + 1] != 1,
    ));
}

/// What an aligned receiver makes of the chips that follow.
proof fn lemma_aligned_reads(rest: Seq<u8>)
    requires
        rest.len() >= 16,
    ensures
        ({
            let start = Phase::ReadLen { chips: Seq::empty() };
            let len = receiver::bytes_read(rest.take(16))[0] as int;
            let end = 16 * (len + 3);
            let frames = receiver::frames_from(start, rest);
            &&& rest.len() < end ==> frames == Seq::<Frame>::empty()
            &&& rest.len() >= end ==> frames == seq![
                receiver::frame_read(
                    len as nat,
                    manchester::bad_pairs(rest.take(16)),
                    rest.subrange(16, end),
                ),
            ] + receiver::frames_from(Phase::initial(), rest.skip(end))
        }),
{
    let start = Phase::ReadLen { chips: Seq::empty() };
    let first = rest.take(16);
    let len = receiver::bytes_read(first)[0] as int;
    let end = 16 * (len + 3);
    if rest.len() < end {
        let more = rest.skip(16);
        link::lemma_len_read(first);
        link::lemma_reading_payload(len as nat, manchester::bad_pairs(first), more);
        receiver::lemma_chips_in_parts(start, first, more);
        assert(first + more =~= rest);
    } else {
        let (body, after) = (rest.subrange(16, end), rest.skip(end));
        link::law_aligned_reads_one_frame(first, body);
        receiver::lemma_chips_in_parts(start, first + body, after);
        assert(first + body + after =~= rest);
    }
}

} // verus!
