//! How the sync pattern sits in a frame, and that nothing a frame or the silence
//! before it holds looks like it too early.

use vstd::prelude::*;

use crate::bits;
use crate::counting;
use crate::frame;
use crate::frame::{PREAMBLE, SYNC};
use crate::receiver;
use crate::receiver::MAX_SYNC_ERRORS;

verus! {

/// The chips at the start of every frame, up to the length byte.
pub open spec fn header() -> Seq<u8> {
    frame::chips_of(PREAMBLE@ + SYNC@)
}

/// Bit `t` of the sync word, counted from the first one sent.
spec fn sync_bit(t: int) -> bool {
    t == 2 || t == 4 || t == 5 || t == 7 || t == 8 || t == 9 || t == 11 || t == 13
}

/// Bit `i` of the preamble and the sync word after it.
spec fn header_bit(i: int) -> bool {
    if i < 64 {
        i % 2 == 0
    } else {
        sync_bit(i - 64)
    }
}

/// The chip of a window that starts at chip `k` of the header, where what comes
/// before the header is silence.
spec fn header_chip(k: int) -> u8 {
    if k >= 0 && header_bit(k / 2) == (k % 2 == 0) {
        1
    } else {
        0
    }
}

proof fn lemma_header_bit(i: int)
    requires
        0 <= i < 80,
    ensures
        bits::bits_of(PREAMBLE@ + SYNC@)[i] == if header_bit(i) {
            1u8
        } else {
            0u8
        },
{
    let bytes = PREAMBLE@ + SYNC@;
    let byte = bytes[i / 8];
    let s = (7 - i % 8) as u8;
    let bit = (byte >> s) & 1;
    assert(bit == 0 || bit == 1) by (bit_vector)
        requires
            bit == (byte >> s) & 1,
    ;
    assert((0xAAu8 >> s) & 1 == 1 <==> (s == 7 || s == 5 || s == 3 || s == 1)) by (bit_vector)
        requires
            s < 8,
    ;
    assert((0x2Du8 >> s) & 1 == 1 <==> (s == 5 || s == 3 || s == 2 || s == 0)) by (bit_vector)
        requires
            s < 8,
    ;
    assert((0xD4u8 >> s) & 1 == 1 <==> (s == 7 || s == 6 || s == 4 || s == 2)) by (bit_vector)
        requires
            s < 8,
    ;
    if i < 64 {
        assert(bytes[i / 8] == PREAMBLE@[i / 8]);
        assert(byte == 0xAA);
    } else if i < 72 {
        assert(bytes[i / 8] == SYNC@[0]);
        assert(byte == 0x2D);
    } else {
        assert(bytes[i / 8] == SYNC@[1]);
        assert(byte == 0xD4);
    }
}

/// The header holds the chips of the preamble and the sync word, and ends with
/// the sync pattern.
proof fn lemma_header_chips()
    ensures
        header().len() == 160,
        frame::sync_pattern().len() == 96,
        frame::sync_pattern() == header().skip(64),
        forall|k: int| 0 <= k < 160 ==> #[trigger] header()[k] == header_chip(k),
{
    let tail = PREAMBLE@.skip(PREAMBLE@.len() - frame::PREAMBLE_CORR_BYTES);
    let start = PREAMBLE@.take(4);
    assert(PREAMBLE@ + SYNC@ =~= start + (tail + SYNC@));
    frame::lemma_chips_of_concat(start, tail + SYNC@);
    assert(header() == frame::chips_of(start) + frame::sync_pattern());
    assert(frame::sync_pattern() =~= header().skip(64));
    assert forall|k: int| 0 <= k < 160 implies #[trigger] header()[k] == header_chip(k) by {
        reveal(frame::chips_of);
        lemma_header_bit(k / 2);
    }
}

/// The sync pattern is what a frame holds right before its length byte.
pub proof fn law_pattern_ends_header(payload: Seq<u8>)
    ensures
        frame::frame_chips(payload) == header() + frame::chips_of(frame::frame_bytes(payload)),
        header().len() == 160,
        frame::sync_pattern().len() == 96,
        header().skip(64) == frame::sync_pattern(),
{
    frame::lemma_chips_of_concat(PREAMBLE@ + SYNC@, frame::frame_bytes(payload));
    lemma_header_chips();
}

/// The first chip of a frame is on.
pub proof fn lemma_frame_starts_on(payload: Seq<u8>)
    ensures
        frame::frame_chips(payload).len() > 0,
        frame::frame_chips(payload)[0] == 1,
{
    law_pattern_ends_header(payload);
    lemma_header_chips();
    assert(header()[0] == header_chip(0));
}

/// The two chips of bit `t` of a window both differ from the sync pattern.
spec fn wrong_bit(window: Seq<u8>, t: int) -> bool {
    &&& 0 <= t < 48
    &&& window[2 * t] != frame::sync_pattern()[2 * t]
    &&& window[2 * t + 1] != frame::sync_pattern()[2 * t + 1]
}

/// Seven wrong bits are fourteen wrong chips.
proof fn lemma_seven_bits(window: Seq<u8>, at: Seq<int>)
    requires
        window.len() == 96,
        at.len() == 7,
        at[0] < at[1] < at[2] < at[3] < at[4] < at[5] < at[6],
        wrong_bit(window, at[0]) && wrong_bit(window, at[1]) && wrong_bit(window, at[2])
            && wrong_bit(window, at[3]) && wrong_bit(window, at[4]) && wrong_bit(window, at[5])
            && wrong_bit(window, at[6]),
    ensures
        receiver::mismatches(window, frame::sync_pattern()) > 2 * MAX_SYNC_ERRORS,
{
    let chips = Seq::new(14, |i: int| 2 * at[i / 2] + i % 2);
    let differ = |i: int| window[i] != frame::sync_pattern()[i];
    assert forall|i: int, j: int| 0 <= i < j < chips.len() implies chips[i] < chips[j] by {
        if i / 2 < j / 2 {
            assert(at[i / 2] < at[j / 2]);
        }
    }
    assert forall|i: int| 0 <= i < chips.len() implies 0 <= #[trigger] chips[i] < 96 && differ(
        chips[i],
    ) by {
        assert(wrong_bit(window, at[i / 2]));
    }
    counting::lemma_count_at_least(96, differ, chips);
}

/// The window that starts at chip `k` of the header.
spec fn starts_at(window: Seq<u8>, k: int) -> bool {
    &&& window.len() == 96
    &&& forall|j: int| 0 <= j < 96 ==> #[trigger] window[j] == header_chip(k + j)
}

/// Where the header and the sync pattern have different bits, a window has a
/// wrong bit.
proof fn lemma_wrong_bit(window: Seq<u8>, h: int, t: int)
    requires
        starts_at(window, 2 * h),
        0 <= t < 48,
        0 <= h + t,
        header_bit(h + t) != header_bit(32 + t),
    ensures
        wrong_bit(window, t),
{
    lemma_header_chips();
    let pattern = frame::sync_pattern();
    assert(pattern[2 * t] == header()[64 + 2 * t]);
    assert(pattern[2 * t + 1] == header()[64 + 2 * t + 1]);
    assert(window[2 * t] == header_chip(2 * h + 2 * t));
    assert(window[2 * t + 1] == header_chip(2 * h + (2 * t + 1)));
    assert((2 * h + 2 * t) / 2 == h + t && (2 * h + 2 * t + 1) / 2 == h + t);
}

/// A window that starts a whole number of bit pairs before the right place, with
/// the header, is far from the sync pattern in the sync word.
proof fn lemma_too_early_aligned(window: Seq<u8>, h: int)
    requires
        starts_at(window, 2 * h),
        -14 < h < 32,
        h % 2 == 0,
    ensures
        receiver::mismatches(window, frame::sync_pattern()) > 2 * MAX_SYNC_ERRORS,
{
    let at = if h <= 20 {
        seq![32, 37, 38, 39, 41, 42, 43]
    } else if h == 22 {
        seq![32, 37, 38, 39, 41, 43, 44]
    } else if h == 24 {
        seq![32, 37, 38, 39, 40, 41, 42]
    } else if h == 26 {
        seq![32, 37, 39, 41, 42, 46, 47]
    } else if h == 28 {
        seq![32, 36, 37, 38, 39, 44, 47]
    } else {
        seq![32, 34, 37, 38, 40, 42, 47int]
    };
    lemma_wrong_bit(window, h, at[0]);
    lemma_wrong_bit(window, h, at[1]);
    lemma_wrong_bit(window, h, at[2]);
    lemma_wrong_bit(window, h, at[3]);
    lemma_wrong_bit(window, h, at[4]);
    lemma_wrong_bit(window, h, at[5]);
    lemma_wrong_bit(window, h, at[6]);
    lemma_seven_bits(window, at);
}

/// Two wrong chips in each of seven groups of four are fourteen wrong chips.
proof fn lemma_seven_groups(window: Seq<u8>, from: int, a: int, b: int)
    requires
        window.len() == 96,
        0 <= from,
        from + 28 <= 96,
        0 <= a < b < 4,
        forall|g: int|
            0 <= g < 7 ==> window[#[trigger] (from + 4 * g) + a] != frame::sync_pattern()[from + 4
                * g + a] && window[from + 4 * g + b] != frame::sync_pattern()[from + 4 * g + b],
    ensures
        receiver::mismatches(window, frame::sync_pattern()) > 2 * MAX_SYNC_ERRORS,
{
    let chips = Seq::new(
        14,
        |i: int|
            from + 4 * (i / 2) + if i % 2 == 0 {
                a
            } else {
                b
            },
    );
    let differ = |i: int| window[i] != frame::sync_pattern()[i];
    assert forall|i: int| 0 <= i < chips.len() implies 0 <= #[trigger] chips[i] < 96 && differ(
        chips[i],
    ) by {
        let group = from + 4 * (i / 2);
        assert(window[group + a] != frame::sync_pattern()[group + a]);
    }
    counting::lemma_count_at_least(96, differ, chips);
}

/// A window that starts before the right place, in silence or in the header, is
/// far from the sync pattern: more than twice as far as is tolerated.
proof fn lemma_too_early(window: Seq<u8>, k: int)
    requires
        starts_at(window, k),
        k < 64,
    ensures
        receiver::mismatches(window, frame::sync_pattern()) > 2 * MAX_SYNC_ERRORS,
{
    lemma_header_chips();
    let pattern = frame::sync_pattern();
    assert forall|j: int| 0 <= j < 96 implies #[trigger] pattern[j] == header_chip(64 + j) by {
        assert(pattern[j] == header()[64 + j]);
    }
    if k <= -28 {
        lemma_seven_groups(window, 0, 0, 3);
    } else if k % 4 == 1 || k % 4 == 2 {
        lemma_seven_groups(window, 28, 0, 2);
    } else if k % 4 == 3 {
        lemma_seven_groups(window, 28, 1, 3);
    } else {
        lemma_too_early_aligned(window, k / 2);
    }
}

/// The latest chips of a stream, as many as the sync pattern has.
pub open spec fn latest(chips: Seq<u8>) -> Seq<u8> {
    if chips.len() <= frame::sync_pattern().len() {
        chips
    } else {
        chips.skip(chips.len() - frame::sync_pattern().len())
    }
}

/// Mismatches add up: what is close to something close to a third string is
/// close to that string.
proof fn lemma_mismatches_add_up(a: Seq<u8>, b: Seq<u8>, c: Seq<u8>, n: nat)
    ensures
        counting::count(n, |i: int| a[i] != c[i]) <= counting::count(n, |i: int| a[i] != b[i])
            + counting::count(n, |i: int| b[i] != c[i]),
    decreases n,
{
    if n > 0 {
        lemma_mismatches_add_up(a, b, c, (n - 1) as nat);
    }
}

/// A part of two strings has no more mismatches than the strings.
proof fn lemma_mismatches_of_part(a: Seq<u8>, b: Seq<u8>, from: int, to: int)
    requires
        a.len() == b.len(),
        0 <= from <= to <= a.len(),
    ensures
        receiver::mismatches(a.subrange(from, to), b.subrange(from, to)) <= receiver::mismatches(
            a,
            b,
        ),
{
    let differ = |i: int| a[i] != b[i];
    let (sub_a, sub_b) = (a.subrange(from, to), b.subrange(from, to));
    let m = (to - from) as nat;
    counting::lemma_count_split(from as nat, m, differ);
    counting::lemma_count_split(to as nat, (a.len() - to) as nat, differ);
    counting::lemma_count_agree(
        m,
        |i: int| differ(from + i),
        |i: int| sub_a[i] != sub_b[i],
    );
}

/// Before the end of the header every full window is far from the sync pattern;
/// at its end the window is the sync pattern.
proof fn lemma_windows(gap: nat, n: int)
    requires
        0 <= n <= gap + 160,
    ensures
        ({
            let stream = frame::silence(gap) + header();
            let window = latest(stream.take(n));
            &&& n < gap + 160 && window.len() == 96 ==> receiver::mismatches(
                window,
                frame::sync_pattern(),
            ) > 2 * MAX_SYNC_ERRORS
            &&& n == gap + 160 ==> window == frame::sync_pattern()
        }),
{
    lemma_header_chips();
    let stream = frame::silence(gap) + header();
    let window = latest(stream.take(n));
    if window.len() == 96 {
        let k = n - 96 - gap;
        assert forall|j: int| 0 <= j < 96 implies #[trigger] window[j] == header_chip(k + j) by {
            assert(window[j] == stream[n - 96 + j]);
            if k + j >= 0 {
                assert(stream[n - 96 + j] == header()[k + j]);
            }
        }
        if k < 64 {
            lemma_too_early(window, k);
        } else {
            assert(window =~= frame::sync_pattern());
        }
    }
}

/// After any silence, a header is found exactly where it ends, not earlier, even
/// if as many of the chips as are tolerated arrive wrong.
pub proof fn law_header_found_despite_errors(gap: nat, received: Seq<u8>)
    requires
        received.len() == gap + header().len(),
        receiver::mismatches(received, frame::silence(gap) + header()) <= MAX_SYNC_ERRORS,
    ensures
        forall|n: int|
            0 <= n <= received.len() ==> (receiver::in_sync(#[trigger] latest(received.take(n)))
                <==> n == received.len()),
{
    lemma_header_chips();
    let sent = frame::silence(gap) + header();
    let pattern = frame::sync_pattern();
    assert forall|n: int| 0 <= n <= received.len() implies (receiver::in_sync(
        #[trigger] latest(received.take(n)),
    ) <==> n == received.len()) by {
        let window = latest(received.take(n));
        let ideal = latest(sent.take(n));
        lemma_windows(gap, n);
        if n >= 96 {
            assert(window =~= received.subrange(n - 96, n));
            assert(ideal =~= sent.subrange(n - 96, n));
            lemma_mismatches_of_part(received, sent, n - 96, n);
            if n < received.len() {
                lemma_mismatches_add_up(ideal, window, pattern, 96);
                counting::lemma_count_agree(
                    96,
                    |i: int| ideal[i] != window[i],
                    |i: int| window[i] != ideal[i],
                );
            }
        }
    }
}

} // verus!
