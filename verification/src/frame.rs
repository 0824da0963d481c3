//! The frame on the wire: `PREAMBLE | SYNC | LEN | PAYLOAD | CRC16`.

use vstd::prelude::*;

use crate::bits;
use crate::bits::bytes_to_bits;
use crate::crc;
use crate::crc::crc16;
use crate::manchester;
use crate::manchester::manchester_encode;

verus! {

/// Bytes of `0xAA` sent before the sync word, for gain settling and clock lock.
pub const PREAMBLE: [u8; 8] = [0xAA, 0xAA, 0xAA, 0xAA, 0xAA, 0xAA, 0xAA, 0xAA];

/// Distinctive sync word that marks the start of the framed bytes.
pub const SYNC: [u8; 2] = [0x2D, 0xD4];

/// How many of the preamble bytes (the tail) take part in sync correlation.
pub const PREAMBLE_CORR_BYTES: usize = 4;

/// Maximum payload length that is accepted or transmitted (LEN is one byte).
pub const MAX_PAYLOAD: usize = 255;

/// The part of a frame that the checksum covers: `LEN | PAYLOAD`.
pub open spec fn checked_bytes(payload: Seq<u8>) -> Seq<u8> {
    seq![payload.len() as u8] + payload
}

/// The framed bytes of a payload: `LEN | PAYLOAD | CRC16`, the checksum most
/// significant byte first.
pub open spec fn frame_bytes(payload: Seq<u8>) -> Seq<u8> {
    checked_bytes(payload) + crc::crc_bytes(crc::crc_of(checked_bytes(payload)))
}

/// The chips in which bytes travel.
#[verifier::opaque]
pub open spec fn chips_of(bytes: Seq<u8>) -> Seq<u8> {
    manchester::chips_of_bits(bits::bits_of(bytes))
}

/// The chips of a whole frame.
pub open spec fn frame_chips(payload: Seq<u8>) -> Seq<u8> {
    chips_of(PREAMBLE@ + SYNC@ + frame_bytes(payload))
}

/// The number of chips in a frame with `len` payload bytes: sixteen for each
/// byte, of which there are thirteen besides the payload.
pub open spec fn frame_chip_count(len: nat) -> nat {
    16 * (13 + len)
}

/// `n` chips of silence.
pub open spec fn silence(n: nat) -> Seq<u8> {
    Seq::new(n, |i: int| 0u8)
}

/// The chips that a receiver correlates against: the tail of the preamble and
/// the sync word.
pub open spec fn sync_pattern() -> Seq<u8> {
    chips_of(PREAMBLE@.skip(PREAMBLE@.len() - PREAMBLE_CORR_BYTES) + SYNC@)
}

/// Appending a slice of bytes to a vector.
fn append_bytes(bytes: &mut Vec<u8>, more: &[u8])
    ensures
        final(bytes)@ == old(bytes)@ + more@,
{
    bytes.extend_from_slice(more);
    assert(bytes@ =~= old(bytes)@ + more@);
}

/// Build the framed bytes (everything after preamble and sync word):
/// `LEN | PAYLOAD | CRC16`. The checksum covers `LEN | PAYLOAD`.
pub fn build_frame_bytes(payload: &[u8]) -> (frame: Vec<u8>)
    requires
        payload@.len() <= MAX_PAYLOAD,
    ensures
        frame@ == frame_bytes(payload@),
        frame@.len() == payload@.len() + 3,
        frame@[0] == payload@.len(),
        forall|i: int| 0 <= i < payload@.len() ==> frame@[1 + i] == #[trigger] payload@[i],
        256 * frame@[payload@.len() as int + 1] + frame@[payload@.len() as int + 2] == crc::crc_of(
            frame@.take(payload@.len() as int + 1),
        ),
{
    let mut v: Vec<u8> = Vec::with_capacity(payload.len() + 3);
    v.push(payload.len() as u8);
    append_bytes(&mut v, payload);
    assert(v@ =~= checked_bytes(payload@));
    let crc: u16 = crc16(&v);
    v.push((crc >> 8) as u8);
    v.push((crc & 0xFF) as u8);
    assert(v@ =~= frame_bytes(payload@));
    proof {
        law_frame_layout(payload@);
    }
    v
}

/// The full chip sequence transmitted on the wire for `payload`: the Manchester
/// code of `PREAMBLE | SYNC | LEN | PAYLOAD | CRC16`.
pub fn frame_to_chips(payload: &[u8]) -> (chips: Vec<u8>)
    requires
        payload@.len() <= MAX_PAYLOAD,
    ensures
        chips@ == frame_chips(payload@),
        chips@ == manchester::chips_of_bits(
            bits::bits_of(PREAMBLE@ + SYNC@ + frame_bytes(payload@)),
        ),
{
    let mut bytes: Vec<u8> = Vec::new();
    append_bytes(&mut bytes, &PREAMBLE);
    append_bytes(&mut bytes, &SYNC);
    let frame: Vec<u8> = build_frame_bytes(payload);
    append_bytes(&mut bytes, &frame);
    assert(bytes@ =~= PREAMBLE@ + SYNC@ + frame_bytes(payload@));
    let bits: Vec<u8> = bytes_to_bits(&bytes);
    reveal(chips_of);
    manchester_encode(&bits)
}

/// The chip pattern that the receiver correlates against to find a frame: the
/// Manchester code of the tail of the preamble and the sync word.
pub fn sync_chip_pattern() -> (chips: Vec<u8>)
    ensures
        chips@ == sync_pattern(),
        chips@ == manchester::chips_of_bits(
            bits::bits_of(PREAMBLE@.skip(PREAMBLE@.len() - PREAMBLE_CORR_BYTES) + SYNC@),
        ),
{
    let mut bytes: Vec<u8> = Vec::new();
    let mut i: usize = PREAMBLE.len() - PREAMBLE_CORR_BYTES;
    while i < PREAMBLE.len()
        invariant
            PREAMBLE@.len() - PREAMBLE_CORR_BYTES <= i <= PREAMBLE@.len(),
            bytes@ == PREAMBLE@.subrange(PREAMBLE@.len() - PREAMBLE_CORR_BYTES, i as int),
        decreases PREAMBLE@.len() - i,
    {
        bytes.push(PREAMBLE[i]);
        i = i + 1;
    }
    append_bytes(&mut bytes, &SYNC);
    assert(bytes@ =~= PREAMBLE@.skip(PREAMBLE@.len() - PREAMBLE_CORR_BYTES) + SYNC@);
    let bits: Vec<u8> = bytes_to_bits(&bytes);
    reveal(chips_of);
    manchester_encode(&bits)
}

/// The chips of a concatenation are the concatenated chips, sixteen to a byte.
pub proof fn lemma_chips_of_concat(a: Seq<u8>, b: Seq<u8>)
    ensures
        chips_of(a + b) == chips_of(a) + chips_of(b),
        chips_of(a).len() == 16 * a.len(),
        chips_of(b).len() == 16 * b.len(),
{
    reveal(chips_of);
    bits::lemma_bits_concat(a, b);
    manchester::lemma_chips_concat(bits::bits_of(a), bits::bits_of(b));
}

/// The length of a frame depends on that of its payload alone.
pub proof fn law_frame_length(payload: Seq<u8>)
    ensures
        frame_chips(payload).len() == frame_chip_count(payload.len()),
{
    lemma_chips_of_concat(PREAMBLE@ + SYNC@ + frame_bytes(payload), Seq::empty());
}

/// The sync pattern has the chips of six bytes.
pub proof fn lemma_pattern_length()
    ensures
        sync_pattern().len() == 96,
{
    let tail = PREAMBLE@.skip(PREAMBLE@.len() - PREAMBLE_CORR_BYTES);
    lemma_chips_of_concat(tail + SYNC@, Seq::empty());
}

/// A frame is the length of the payload, then each byte of the payload in its
/// place, then the checksum of all that, most significant byte first.
pub proof fn law_frame_layout(payload: Seq<u8>)
    requires
        payload.len() <= 255,
    ensures
        frame_bytes(payload).len() == payload.len() + 3,
        frame_bytes(payload)[0] == payload.len(),
        forall|i: int| 0 <= i < payload.len() ==> frame_bytes(payload)[1 + i] == #[trigger] payload[i],
        256 * frame_bytes(payload)[payload.len() as int + 1] + frame_bytes(payload)[payload.len() as int + 2]
            == crc::crc_of(frame_bytes(payload).take(payload.len() as int + 1)),
{
    let bytes = frame_bytes(payload);
    let checked = checked_bytes(payload);
    crc::law_checksum_bytes(crc::crc_of(checked));
    assert(bytes.take(payload.len() as int + 1) =~= checked);
    assert forall|i: int| 0 <= i < payload.len() implies bytes[1 + i] == #[trigger] payload[i] by {
        assert(bytes[1 + i] == checked[1 + i]);
    }
}

/// The first chip of a pair is the bit that it stands for.
proof fn lemma_first_chips(bytes: Seq<u8>)
    ensures
        chips_of(bytes).len() == 2 * bits::bits_of(bytes).len(),
        forall|k: int|
            0 <= k < bits::bits_of(bytes).len() ==> chips_of(bytes)[2 * k]
                == #[trigger] bits::bits_of(bytes)[k] && chips_of(bytes)[2 * k] + chips_of(
                bytes,
            )[2 * k + 1] == 1,
{
    reveal(chips_of);
    let bits = bits::bits_of(bytes);
    bits::lemma_bits_are_binary(bytes);
    manchester::law_bit_is_sent_twice(bits);
    assert forall|k: int| 0 <= k < bits.len() implies chips_of(bytes)[2 * k] == #[trigger] bits[k]
        && chips_of(bytes)[2 * k] + chips_of(bytes)[2 * k + 1] == 1 by {
        assert(bits[k] == 0 || bits[k] == 1);
    }
}

/// The first chips of the pairs of one byte write that byte.
proof fn lemma_chips_of_byte(bytes: Seq<u8>, i: int)
    requires
        0 <= i < bytes.len(),
    ensures
        bytes[i] == 128 * chips_of(bytes)[16 * i] + 64 * chips_of(bytes)[16 * i + 2] + 32
            * chips_of(bytes)[16 * i + 4] + 16 * chips_of(bytes)[16 * i + 6] + 8 * chips_of(
            bytes,
        )[16 * i + 8] + 4 * chips_of(bytes)[16 * i + 10] + 2 * chips_of(bytes)[16 * i + 12]
            + chips_of(bytes)[16 * i + 14],
{
    let bits = bits::bits_of(bytes);
    let chips = chips_of(bytes);
    let at = 8 * i;
    bits::lemma_bits_of_byte(bytes, i);
    lemma_first_chips(bytes);
    assert(chips[2 * at] == bits[at] && chips[2 * (at + 1)] == bits[at + 1]);
    assert(chips[2 * (at + 2)] == bits[at + 2] && chips[2 * (at + 3)] == bits[at + 3]);
    assert(chips[2 * (at + 4)] == bits[at + 4] && chips[2 * (at + 5)] == bits[at + 5]);
    assert(chips[2 * (at + 6)] == bits[at + 6] && chips[2 * (at + 7)] == bits[at + 7]);
}

/// Each byte travels as eight pairs of chips, one chip on and the other off; the
/// first chips of the pairs write the byte in base two, most significant digit
/// first.
pub proof fn law_chips_write_bytes(bytes: Seq<u8>)
    ensures
        chips_of(bytes).len() == 16 * bytes.len(),
        forall|k: int|
            0 <= k < 8 * bytes.len() ==> #[trigger] chips_of(bytes)[2 * k] + chips_of(bytes)[2 * k
                + 1] == 1,
        forall|i: int|
            0 <= i < bytes.len() ==> #[trigger] bytes[i] == 128 * chips_of(bytes)[16 * i] + 64
                * chips_of(bytes)[16 * i + 2] + 32 * chips_of(bytes)[16 * i + 4] + 16 * chips_of(
                bytes,
            )[16 * i + 6] + 8 * chips_of(bytes)[16 * i + 8] + 4 * chips_of(bytes)[16 * i + 10] + 2
                * chips_of(bytes)[16 * i + 12] + chips_of(bytes)[16 * i + 14],
{
    let chips = chips_of(bytes);
    lemma_chips_of_concat(bytes, Seq::empty());
    assert forall|k: int| 0 <= k < 8 * bytes.len() implies #[trigger] chips[2 * k] + chips[2 * k
        + 1] == 1 by {
        lemma_first_chips(bytes);
        assert(chips[2 * k] == bits::bits_of(bytes)[k]);
    }
    assert forall|i: int| 0 <= i < bytes.len() implies #[trigger] bytes[i] == 128 * chips[16 * i]
        + 64 * chips[16 * i + 2] + 32 * chips[16 * i + 4] + 16 * chips[16 * i + 6] + 8 * chips[16
        * i + 8] + 4 * chips[16 * i + 10] + 2 * chips[16 * i + 12] + chips[16 * i + 14] by {
        lemma_chips_of_byte(bytes, i);
    }
}

/// What is on the wire, byte by byte as the first chips of the pairs write it:
/// eight times 0xAA, the sync word 0x2D 0xD4, the length of the payload, the
/// payload, and the checksum of the length and the payload.
pub proof fn law_frame_on_wire(payload: Seq<u8>)
    requires
        payload.len() <= 255,
    ensures
        ({
            let n = payload.len() as int;
            let chips = frame_chips(payload);
            let byte = |b: int|
                128 * chips[16 * b] + 64 * chips[16 * b + 2] + 32 * chips[16 * b + 4] + 16
                    * chips[16 * b + 6] + 8 * chips[16 * b + 8] + 4 * chips[16 * b + 10] + 2
                    * chips[16 * b + 12] + chips[16 * b + 14];
            &&& chips.len() == 16 * (n + 13)
            &&& forall|k: int|
                0 <= k < 8 * (n + 13) ==> #[trigger] chips[2 * k] + chips[2 * k + 1] == 1
            &&& forall|b: int| 0 <= b < 8 ==> #[trigger] byte(b) == 0xAA
            &&& byte(8) == 0x2D
            &&& byte(9) == 0xD4
            &&& byte(10) == n
            &&& forall|i: int| 0 <= i < n ==> byte(11 + i) == #[trigger] payload[i]
            &&& 256 * byte(11 + n) + byte(12 + n) == crc::crc_of(seq![n as u8] + payload)
        }),
{
    let n = payload.len() as int;
    let wire = PREAMBLE@ + SYNC@ + frame_bytes(payload);
    let chips = frame_chips(payload);
    let byte = |b: int|
        128 * chips[16 * b] + 64 * chips[16 * b + 2] + 32 * chips[16 * b + 4] + 16 * chips[16 * b
            + 6] + 8 * chips[16 * b + 8] + 4 * chips[16 * b + 10] + 2 * chips[16 * b + 12]
            + chips[16 * b + 14];
    law_frame_layout(payload);
    law_chips_write_bytes(wire);
    assert forall|b: int| 0 <= b < n + 13 implies #[trigger] byte(b) == wire[b] by {
    }
    assert forall|b: int| 0 <= b < 8 implies #[trigger] byte(b) == 0xAA by {
        assert(wire[b] == PREAMBLE@[b]);
    }
    assert(wire[8] == SYNC@[0] && wire[9] == SYNC@[1]);
    assert(byte(8) == wire[8] && byte(9) == wire[9] && byte(10) == wire[10]);
    assert(wire[10] == frame_bytes(payload)[0]);
    assert forall|i: int| 0 <= i < n implies byte(11 + i) == #[trigger] payload[i] by {
        assert(wire[11 + i] == frame_bytes(payload)[1 + i]);
        assert(byte(11 + i) == wire[11 + i]);
    }
    let frame = frame_bytes(payload);
    assert(frame.take(n + 1) =~= seq![n as u8] + payload);
    assert(byte(11 + n) == wire[11 + n] && byte(12 + n) == wire[12 + n]);
    assert(wire[11 + n] == frame[n + 1] && wire[12 + n] == frame[n + 2]);
}

/// The receiver correlates with the chips of four times 0xAA and the sync word
/// 0x2D 0xD4.
pub proof fn law_pattern_on_wire()
    ensures
        ({
            let chips = sync_pattern();
            let byte = |b: int|
                128 * chips[16 * b] + 64 * chips[16 * b + 2] + 32 * chips[16 * b + 4] + 16
                    * chips[16 * b + 6] + 8 * chips[16 * b + 8] + 4 * chips[16 * b + 10] + 2
                    * chips[16 * b + 12] + chips[16 * b + 14];
            &&& chips.len() == 96
            &&& forall|k: int| 0 <= k < 48 ==> #[trigger] chips[2 * k] + chips[2 * k + 1] == 1
            &&& forall|b: int| 0 <= b < 4 ==> #[trigger] byte(b) == 0xAA
            &&& byte(4) == 0x2D
            &&& byte(5) == 0xD4
        }),
{
    let bytes = PREAMBLE@.skip(PREAMBLE@.len() - PREAMBLE_CORR_BYTES) + SYNC@;
    let chips = sync_pattern();
    let byte = |b: int|
        128 * chips[16 * b] + 64 * chips[16 * b + 2] + 32 * chips[16 * b + 4] + 16 * chips[16 * b
            + 6] + 8 * chips[16 * b + 8] + 4 * chips[16 * b + 10] + 2 * chips[16 * b + 12]
            + chips[16 * b + 14];
    law_chips_write_bytes(bytes);
    assert forall|b: int| 0 <= b < 4 implies #[trigger] byte(b) == 0xAA by {
        assert(bytes[b] == PREAMBLE@[4 + b]);
    }
    assert(bytes[4] == SYNC@[0] && bytes[5] == SYNC@[1]);
}

/// Silence is as long as it is said to be, and off throughout.
pub proof fn law_silence_is_off(n: nat)
    ensures
        silence(n).len() == n,
        forall|i: int| 0 <= i < n ==> #[trigger] silence(n)[i] == 0,
{
}

/// A payload may have up to 255 bytes.
pub proof fn law_longest_payload()
    ensures
        MAX_PAYLOAD == 255,
{
}

} // verus!
