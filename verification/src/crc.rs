//! CRC-16/CCITT-FALSE: polynomial 0x1021, initial register 0xFFFF, no
//! reflection, no final inversion.

use vstd::prelude::*;

use crate::bits;

verus! {

/// The generator polynomial, without its leading term.
pub const POLYNOMIAL: u16 = 0x1021;

/// The register before the first bit.
pub const INITIAL: u16 = 0xFFFF;

/// One step of the division: the register after one more message bit. The
/// polynomial is subtracted when the outgoing bit differs from the message bit.
pub open spec fn after_bit(register: u16, bit: u8) -> u16 {
    if (register >> 15) != bit as u16 {
        (register << 1) ^ POLYNOMIAL
    } else {
        register << 1
    }
}

/// The register after a message, given as bits.
pub open spec fn after_bits(register: u16, message: Seq<u8>) -> u16
    decreases message.len(),
{
    if message.len() == 0 {
        register
    } else {
        after_bit(after_bits(register, message.drop_last()), message.last())
    }
}

/// The checksum of a byte string.
pub open spec fn crc_of(data: Seq<u8>) -> u16 {
    after_bits(INITIAL, bits::bits_of(data))
}

/// Compute CRC-16/CCITT-FALSE over `data`.
pub fn crc16(data: &[u8]) -> (crc: u16)
    ensures
        crc == crc_of(data@),
{
    let mut crc: u16 = INITIAL;
    let mut i: usize = 0;
    assert(bits::bits_of(data@.take(0)) =~= Seq::<u8>::empty());
    while i < data.len()
        invariant
            i <= data@.len(),
            crc == crc_of(data@.take(i as int)),
        decreases data@.len() - i,
    {
        let b: u8 = data[i];
        let ghost before = bits::bits_of(data@.take(i as int));
        let ghost after = bits::bits_of(data@.take(i + 1));
        let ghost register = crc;
        crc = crc ^ ((b as u16) << 8);
        let mut j: u16 = 0;
        proof {
            assert(after.take(8 * i as int) =~= before);
        }
        while j < 8
            invariant
                j <= 8,
                i < data@.len(),
                b == data@[i as int],
                after == bits::bits_of(data@.take(i + 1)),
                crc == after_bits(INITIAL, after.take(8 * i + j)) ^ ((b as u16) << ((8 + j) as u16)),
            decreases 8 - j,
        {
            proof {
                let sent = after.take(8 * i + j);
                let more = after.take(8 * i + j + 1);
                assert(more.drop_last() =~= sent);
                assert((8 * i + j) / 8 == i && (8 * i + j) % 8 == j as int);
                assert(more.last() == bits::bit_of(b, j as int));
                lemma_step(after_bits(INITIAL, sent), b, j, crc);
            }
            if crc & 0x8000 != 0 {
                crc = (crc << 1) ^ 0x1021;
            } else {
                crc = crc << 1;
            }
            j = j + 1;
        }
        proof {
            assert(after.take(8 * i + 8) =~= after);
            let r = after_bits(INITIAL, after);
            assert(r ^ ((b as u16) << 16u16) == r) by (bit_vector);
        }
        i = i + 1;
    }
    assert(data@.take(data@.len() as int) =~= data@);
    crc
}

/// A register that holds the rest of a byte on top of the true register takes
/// the step that the true register takes for the byte's next bit.
proof fn lemma_step(register: u16, b: u8, j: u16, mixed: u16)
    requires
        j < 8,
        mixed == register ^ ((b as u16) << ((8 + j) as u16)),
    ensures
        (if mixed & 0x8000 != 0 {
            (mixed << 1) ^ 0x1021
        } else {
            mixed << 1
        }) == after_bit(register, bits::bit_of(b, j as int)) ^ ((b as u16) << ((9 + j) as u16)),
{
    let bit = bits::bit_of(b, j as int);
    let shift = (7 - j) as u8;
    assert(bit == (b >> shift) & 1);
    assert((if mixed & 0x8000 != 0 {
        (mixed << 1) ^ 0x1021
    } else {
        mixed << 1
    }) == (if (register >> 15) != bit as u16 {
        (register << 1) ^ 0x1021
    } else {
        register << 1
    }) ^ ((b as u16) << ((9 + j) as u16))) by (bit_vector)
        requires
            j < 8,
            shift as u16 == 7 - j,
            bit == (b >> shift) & 1,
            mixed == register ^ ((b as u16) << ((8 + j) as u16)),
    ;
}

/// A message in two parts leaves the register that the second part leaves after
/// the first.
pub proof fn lemma_after_concat(register: u16, first: Seq<u8>, second: Seq<u8>)
    ensures
        after_bits(register, first + second) == after_bits(after_bits(register, first), second),
    decreases second.len(),
{
    if second.len() == 0 {
        assert(first + second =~= first);
    } else {
        assert((first + second).drop_last() =~= first + second.drop_last());
        lemma_after_concat(register, first, second.drop_last());
    }
}

/// The two bytes of a checksum, most significant first.
pub open spec fn crc_bytes(crc: u16) -> Seq<u8> {
    seq![(crc >> 8) as u8, (crc & 0xFF) as u8]
}

/// After the first `j` bits of its own value a register holds what is left of
/// it, shifted up.
proof fn lemma_own_bits(register: u16, j: nat)
    requires
        j <= 16,
    ensures
        after_bits(register, bits::bits_of(crc_bytes(register)).take(j as int)) == register << (
        j as u16),
    decreases j,
{
    let own = bits::bits_of(crc_bytes(register));
    if j == 0 {
        assert(register << 0u16 == register) by (bit_vector);
    } else {
        let i = (j - 1) as u16;
        lemma_own_bits(register, i as nat);
        assert(own.take(j as int).drop_last() =~= own.take(i as int));
        let byte = crc_bytes(register)[i as int / 8];
        let bit = bits::bit_of(byte, i as int % 8);
        let shift = (7 - i % 8) as u8;
        assert(own.take(j as int).last() == bit);
        let left = register << i;
        assert((left >> 15) == bit as u16 && left << 1 == register << ((i + 1) as u16))
            by (bit_vector)
            requires
                i < 16,
                left == register << i,
                shift as u16 == 7 - i % 8,
                byte == (if i < 8 {
                    (register >> 8) as u8
                } else {
                    (register & 0xFF) as u8
                }),
                bit == (byte >> shift) & 1,
        ;
    }
}

/// A byte string followed by its checksum has checksum zero, and no other two
/// bytes after it give zero.
pub proof fn law_residue(data: Seq<u8>, check: u16)
    ensures
        crc_of(data + crc_bytes(check)) == 0 <==> check == crc_of(data),
{
    let crc = crc_of(data);
    bits::lemma_bits_concat(data, crc_bytes(crc));
    lemma_after_concat(INITIAL, bits::bits_of(data), bits::bits_of(crc_bytes(crc)));
    lemma_own_bits(crc, 16);
    let own = bits::bits_of(crc_bytes(crc));
    assert(own.take(16) =~= own);
    assert(crc << 16u16 == 0) by (bit_vector);
    if check != crc {
        let other = bits::bits_of(crc_bytes(check));
        bits::lemma_bits_concat(data, crc_bytes(check));
        lemma_after_concat(INITIAL, bits::bits_of(data), other);
        bits::lemma_bits_are_binary(crc_bytes(check));
        bits::lemma_bits_are_binary(crc_bytes(crc));
        if crc_of(data + crc_bytes(check)) == 0 {
            lemma_short_difference(crc, crc, own, other);
            assert forall|i: int| 0 <= i < 16 implies own[i] == other[i] by {
                let k = i as u16;
                assert(((crc ^ crc) >> ((15 - k) as u16)) & 1 == 0) by (bit_vector);
            }
            assert(own =~= other);
            bits::law_bytes_survive_bits(crc_bytes(crc));
            bits::law_bytes_survive_bits(crc_bytes(check));
            assert(crc_bytes(crc)[0] == crc_bytes(check)[0]);
            assert(crc_bytes(crc)[1] == crc_bytes(check)[1]);
            assert(crc == check) by (bit_vector)
                requires
                    (crc >> 8) as u8 == (check >> 8) as u8,
                    (crc & 0xFF) as u8 == (check & 0xFF) as u8,
            ;
        }
    }
}

/// When two messages of at most sixteen bits bring two registers to the same
/// value, the registers differed exactly where the messages do.
proof fn lemma_short_difference(left: u16, right: u16, a: Seq<u8>, b: Seq<u8>)
    requires
        a.len() == b.len() <= 16,
        forall|i: int| 0 <= i < a.len() ==> #[trigger] a[i] == 0 || a[i] == 1,
        forall|i: int| 0 <= i < b.len() ==> #[trigger] b[i] == 0 || b[i] == 1,
        after_bits(left, a) == after_bits(right, b),
    ensures
        (left ^ right) << (a.len() as u16) == 0,
        forall|i: int|
            0 <= i < a.len() ==> (#[trigger] a[i] != b[i] <==> ((left ^ right) >> ((15 - i) as u16))
                & 1 == 1),
    decreases a.len(),
{
    let n = a.len() as u16;
    let d = left ^ right;
    if n == 0 {
        assert((left ^ left) << 0u16 == 0) by (bit_vector);
    } else {
        let (a0, b0) = (a[0], b[0]);
        let (rest_a, rest_b) = (a.drop_first(), b.drop_first());
        let (left1, right1) = (after_bit(left, a0), after_bit(right, b0));
        assert(a =~= seq![a0] + rest_a && b =~= seq![b0] + rest_b);
        lemma_after_concat(left, seq![a0], rest_a);
        lemma_after_concat(right, seq![b0], rest_b);
        assert(seq![a0].drop_last() =~= Seq::<u8>::empty());
        assert(seq![b0].drop_last() =~= Seq::<u8>::empty());
        reveal_with_fuel(after_bits, 2);
        lemma_short_difference(left1, right1, rest_a, rest_b);
        let d1 = left1 ^ right1;
        let m = (n - 1) as u16;
        assert(d << n == 0 && d1 == d << 1 && (a0 != b0 <==> (d >> 15) & 1 == 1)) by (bit_vector)
            requires
                1 <= n <= 16,
                m == n - 1,
                a0 < 2,
                b0 < 2,
                d == left ^ right,
                d1 == left1 ^ right1,
                left1 == (if (left >> 15) != a0 as u16 {
                    (left << 1) ^ 0x1021
                } else {
                    left << 1
                }),
                right1 == (if (right >> 15) != b0 as u16 {
                    (right << 1) ^ 0x1021
                } else {
                    right << 1
                }),
                d1 << m == 0,
        ;
        assert forall|i: int| 0 <= i < a.len() implies (#[trigger] a[i] != b[i] <==> (d >> ((15
            - i) as u16)) & 1 == 1) by {
            if i > 0 {
                assert(a[i] == rest_a[i - 1] && b[i] == rest_b[i - 1]);
                let k = i as u16;
                assert((d1 >> ((15 - (k - 1)) as u16)) & 1 == (d >> ((15 - k) as u16)) & 1)
                    by (bit_vector)
                    requires
                        1 <= k < 16,
                        d1 == d << 1,
                ;
            }
        }
    }
}

/// The register after a message tells the registers before it apart.
proof fn lemma_injective(left: u16, right: u16, message: Seq<u8>)
    requires
        forall|i: int| 0 <= i < message.len() ==> #[trigger] message[i] == 0 || message[i] == 1,
        after_bits(left, message) == after_bits(right, message),
    ensures
        left == right,
    decreases message.len(),
{
    if message.len() > 0 {
        let bit = message.last();
        let l = after_bits(left, message.drop_last());
        let r = after_bits(right, message.drop_last());
        assert(l == r) by (bit_vector)
            requires
                bit < 2,
                (if (l >> 15) != bit as u16 {
                    (l << 1) ^ 0x1021
                } else {
                    l << 1
                }) == (if (r >> 15) != bit as u16 {
                    (r << 1) ^ 0x1021
                } else {
                    r << 1
                }),
        ;
        lemma_injective(left, right, message.drop_last());
    }
}

/// Two different byte strings of one length whose bits agree outside a run of
/// sixteen have different checksums: every error burst of at most sixteen bits
/// is detected.
pub proof fn law_burst_detected(sent: Seq<u8>, received: Seq<u8>, start: int)
    requires
        sent.len() == received.len(),
        sent != received,
        0 <= start,
        forall|i: int|
            0 <= i < 8 * sent.len() && !(start <= i < start + 16) ==> #[trigger] bits::bits_of(
                sent,
            )[i] == bits::bits_of(received)[i],
    ensures
        crc_of(sent) != crc_of(received),
{
    let a = bits::bits_of(sent);
    let b = bits::bits_of(received);
    bits::law_bytes_survive_bits(sent);
    bits::law_bytes_survive_bits(received);
    bits::lemma_bits_are_binary(sent);
    bits::lemma_bits_are_binary(received);
    let n = a.len() as int;
    let from = if start < n {
        start
    } else {
        n
    };
    let to = if start + 16 < n {
        start + 16
    } else {
        n
    };
    let (a1, a2, a3) = (a.take(from), a.subrange(from, to), a.skip(to));
    let (b1, b2, b3) = (b.take(from), b.subrange(from, to), b.skip(to));
    assert(a1 =~= b1);
    assert(a3 =~= b3);
    assert(a =~= a1 + a2 + a3 && b =~= b1 + b2 + b3);
    if crc_of(sent) == crc_of(received) {
        lemma_after_concat(INITIAL, a1 + a2, a3);
        lemma_after_concat(INITIAL, b1 + b2, b3);
        lemma_injective(after_bits(INITIAL, a1 + a2), after_bits(INITIAL, b1 + b2), a3);
        lemma_after_concat(INITIAL, a1, a2);
        lemma_after_concat(INITIAL, b1, b2);
        let r = after_bits(INITIAL, a1);
        lemma_short_difference(r, r, a2, b2);
        assert forall|i: int| 0 <= i < a2.len() implies a2[i] == b2[i] by {
            let k = i as u16;
            assert(((r ^ r) >> ((15 - k) as u16)) & 1 == 0) by (bit_vector);
        }
        assert(a2 =~= b2);
        assert(a == b);
    }
}

/// Bit `k` of a register, counted from the most significant one.
spec fn register_bit(register: u16, k: int) -> bool {
    (register >> ((15 - k) as u16)) & 1 == 1
}

/// The quotient of the division: where the polynomial was subtracted.
spec fn quotient(message: Seq<u8>) -> spec_fn(int) -> bool {
    |j: int|
        0 <= j < message.len() && (after_bits(INITIAL, message.take(j)) >> 15) != message[j] as u16
}

/// The register holds what the initial register and the subtracted polynomials
/// add up to at the sixteen positions after the message.
proof fn lemma_register_bits(message: Seq<u8>)
    requires
        forall|i: int| 0 <= i < message.len() ==> #[trigger] message[i] == 0 || message[i] == 1,
    ensures
        ({
            let (n, q) = (message.len() as int, quotient(message));
            let register = after_bits(INITIAL, message);
            forall|k: int|
                0 <= k < 16 ==> #[trigger] register_bit(register, k) == ((n + k < 16) != (q(n + k
                    - 4) != (q(n + k - 11) != q(n + k - 16))))
        }),
    decreases message.len(),
{
    let (n, q) = (message.len() as int, quotient(message));
    let register = after_bits(INITIAL, message);
    assert forall|k: int| 0 <= k < 16 implies #[trigger] register_bit(register, k) == ((n + k < 16)
        != (q(n + k - 4) != (q(n + k - 11) != q(n + k - 16)))) by {
        let s = (15 - k) as u16;
        if n == 0 {
            assert((0xFFFFu16 >> s) & 1 == 1) by (bit_vector)
                requires
                    s < 16,
            ;
        } else {
            let shorter = message.drop_last();
            let before = after_bits(INITIAL, shorter);
            let p = quotient(shorter);
            let bit = message.last();
            lemma_register_bits(shorter);
            assert forall|j: int| j != n - 1 implies #[trigger] p(j) == q(j) by {
                if 0 <= j < n - 1 {
                    assert(shorter.take(j) =~= message.take(j));
                }
            }
            assert(message.take(n - 1) =~= shorter);
            assert(q(n - 1) == ((before >> 15) != bit as u16));
            let t = (before >> 15) != bit as u16;
            let below = (s - 1) as u16;
            assert(((register >> s) & 1 == 1) == ((s > 0 && (before >> below) & 1 == 1) != (t && (s
                == 12 || s == 5 || s == 0)))) by (bit_vector)
                requires
                    s < 16,
                    s > 0 ==> below == s - 1,
                    register == (if t {
                        (before << 1) ^ 0x1021
                    } else {
                        before << 1
                    }),
            ;
            if k < 15 {
                assert(register_bit(before, k + 1) == ((before >> below) & 1 == 1));
            }
        }
    }
}

/// The checksum is the remainder of a division of polynomials with coefficients
/// modulo two. The message, its first sixteen bits inverted (those of the checksum
/// where it is shorter), and the checksum after it are together a multiple of
/// `x^16 + x^12 + x^5 + 1`, the most significant bit being the leading coefficient.
/// Returns the quotient, which is as long as the message.
pub proof fn law_checksum_is_remainder(data: Seq<u8>) -> (q: spec_fn(int) -> bool)
    ensures
        forall|i: int| i < 0 || i >= 8 * data.len() ==> !#[trigger] q(i),
        forall|i: int|
            0 <= i < 8 * data.len() ==> (((data[i / 8] >> ((7 - i % 8) as u8)) & 1 == 1) != (i
                < 16)) == ((#[trigger] q(i) != q(i - 4)) != (q(i - 11) != q(i - 16))),
        forall|i: int|
            8 * data.len() <= i < 8 * data.len() + 16 ==> (((crc_of(data) >> ((15 - (i - 8
                * data.len())) as u16)) & 1 == 1) != (i < 16)) == ((#[trigger] q(i) != q(i - 4)) != (
            q(i - 11) != q(i - 16))),
{
    let message = bits::bits_of(data);
    let n = message.len() as int;
    let q = quotient(message);
    bits::lemma_bits_are_binary(data);
    lemma_register_bits(message);
    assert forall|i: int| 0 <= i < n implies (((data[i / 8] >> ((7 - i % 8) as u8)) & 1 == 1) != (i
        < 16)) == ((#[trigger] q(i) != q(i - 4)) != (q(i - 11) != q(i - 16))) by {
        let sent = message.take(i);
        let register = after_bits(INITIAL, sent);
        let p = quotient(sent);
        lemma_register_bits(sent);
        assert forall|j: int| j < i implies #[trigger] p(j) == q(j) by {
            if 0 <= j {
                assert(sent.take(j) =~= message.take(j));
            }
        }
        assert(register_bit(register, 0) == ((i < 16) != (q(i - 4) != (q(i - 11) != q(i - 16)))));
        assert((register >> 15) & 1 == register >> 15 && register >> 15 <= 1) by (bit_vector);
        assert(message[i] == 0 || message[i] == 1);
    }
    assert forall|i: int| n <= i < n + 16 implies (((crc_of(data) >> ((15 - (i - 8
        * data.len())) as u16)) & 1 == 1) != (i < 16)) == ((#[trigger] q(i) != q(i - 4)) != (q(
        i - 11,
    ) != q(i - 16))) by {
        assert(register_bit(crc_of(data), i - n) == ((i < 16) != (q(i - 4) != (q(i - 11) != q(i
            - 16)))));
    }
    q
}

/// The two bytes of a checksum write its value in base 256, most significant byte
/// first.
pub proof fn law_checksum_bytes(crc: u16)
    ensures
        crc_bytes(crc).len() == 2,
        crc == 256 * crc_bytes(crc)[0] + crc_bytes(crc)[1],
{
    assert(crc == 256 * ((crc >> 8) as u8) + ((crc & 0xFF) as u8)) by (bit_vector);
}

} // verus!
