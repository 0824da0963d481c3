//! Bytes as bit strings, most significant bit first.

use vstd::prelude::*;

verus! {

/// Bit `j` of a byte, counted from the most significant one.
pub open spec fn bit_of(byte: u8, j: int) -> u8 {
    (byte >> ((7 - j) as u8)) & 1u8
}

/// The bits of `bytes` in order, most significant bit of each byte first.
pub open spec fn bits_of(bytes: Seq<u8>) -> Seq<u8> {
    Seq::new(8 * bytes.len(), |i: int| bit_of(bytes[i / 8], i % 8))
}

/// The number that `bits` write in base two, most significant digit first.
/// Only the lowest bit of each entry counts.
pub open spec fn number_of(bits: Seq<u8>) -> nat
    decreases bits.len(),
{
    if bits.len() == 0 {
        0
    } else {
        2 * number_of(bits.drop_last()) + (bits.last() % 2) as nat
    }
}

/// The bytes that `bits` spell, eight bits to a byte; what is left over at the
/// end is dropped.
pub open spec fn bytes_of(bits: Seq<u8>) -> Seq<u8> {
    Seq::new(bits.len() / 8, |k: int| number_of(bits.subrange(8 * k, 8 * k + 8)) as u8)
}

/// `n` digits write a number below two to the power `n`.
pub proof fn lemma_number_bound(bits: Seq<u8>)
    ensures
        number_of(bits) < vstd::arithmetic::power2::pow2(bits.len()),
    decreases bits.len(),
{
    vstd::arithmetic::power2::lemma2_to64();
    if bits.len() > 0 {
        lemma_number_bound(bits.drop_last());
        vstd::arithmetic::power2::lemma_pow2_unfold(bits.len());
    }
}

/// Expand bytes to bits, most significant bit first.
pub fn bytes_to_bits(bytes: &[u8]) -> (bits: Vec<u8>)
    requires
        8 * bytes@.len() <= isize::MAX,
    ensures
        bits@ == bits_of(bytes@),
        bits@.len() == 8 * bytes@.len(),
        forall|i: int| 0 <= i < bits@.len() ==> #[trigger] bits@[i] <= 1,
        forall|i: int|
            0 <= i < bytes@.len() ==> #[trigger] bytes@[i] == 128 * bits@[8 * i] + 64 * bits@[8 * i
                + 1] + 32 * bits@[8 * i + 2] + 16 * bits@[8 * i + 3] + 8 * bits@[8 * i + 4] + 4
                * bits@[8 * i + 5] + 2 * bits@[8 * i + 6] + bits@[8 * i + 7],
{
    let mut bits: Vec<u8> = Vec::with_capacity(bytes.len() * 8);
    let mut i: usize = 0;
    while i < bytes.len()
        invariant
            i <= bytes@.len(),
            bits@.len() == 8 * i,
            forall|k: int| 0 <= k < bits@.len() ==> bits@[k] == bits_of(bytes@)[k],
        decreases bytes@.len() - i,
    {
        let b: u8 = bytes[i];
        let mut j: u8 = 0;
        while j < 8
            invariant
                j <= 8,
                i < bytes@.len(),
                b == bytes@[i as int],
                bits@.len() == 8 * i + j,
                forall|k: int| 0 <= k < bits@.len() ==> bits@[k] == bits_of(bytes@)[k],
            decreases 8 - j,
        {
            bits.push((b >> (7 - j)) & 1);
            j = j + 1;
        }
        i = i + 1;
    }
    proof {
        law_bits_write_bytes(bytes@);
    }
    bits
}

/// Pack bits, most significant first, back into bytes. A trailing partial byte
/// is dropped.
pub fn bits_to_bytes(bits: &[u8]) -> (bytes: Vec<u8>)
    ensures
        bytes@ == bytes_of(bits@),
        bytes@.len() == bits@.len() / 8,
        forall|k: int|
            0 <= k < bytes@.len() ==> #[trigger] bytes@[k] == 128 * (bits@[8 * k] % 2) + 64 * (
            bits@[8 * k + 1] % 2) + 32 * (bits@[8 * k + 2] % 2) + 16 * (bits@[8 * k + 3] % 2) + 8
                * (bits@[8 * k + 4] % 2) + 4 * (bits@[8 * k + 5] % 2) + 2 * (bits@[8 * k + 6] % 2)
                + bits@[8 * k + 7] % 2,
{
    let n: usize = bits.len() / 8;
    let mut bytes: Vec<u8> = Vec::with_capacity(n);
    let mut k: usize = 0;
    while k < n
        invariant
            n == bits@.len() / 8,
            bits@.len() <= usize::MAX,
            k <= n,
            bytes@.len() == k,
            forall|m: int| 0 <= m < k ==> bytes@[m] == bytes_of(bits@)[m],
        decreases n - k,
    {
        let ghost chunk = bits@.subrange(8 * k as int, 8 * k as int + 8);
        let mut b: u8 = 0;
        let mut j: usize = 0;
        while j < 8
            invariant
                j <= 8,
                k < n,
                n == bits@.len() / 8,
                bits@.len() <= usize::MAX,
                chunk == bits@.subrange(8 * k as int, 8 * k as int + 8),
                b as nat == number_of(chunk.take(j as int)),
            decreases 8 - j,
        {
            let bit: u8 = bits[8 * k + j];
            proof {
                let done = chunk.take(j as int);
                assert(chunk.take(j + 1).drop_last() =~= done);
                lemma_number_bound(done);
                vstd::arithmetic::power2::lemma2_to64();
                if j < 7 {
                    vstd::arithmetic::power2::lemma_pow2_strictly_increases(j as nat, 7);
                }
                assert(b < 128 ==> (b << 1) | (bit & 1) == 2 * b + bit % 2) by (bit_vector);
            }
            b = (b << 1) | (bit & 1);
            j = j + 1;
        }
        assert(chunk.take(8) =~= chunk);
        bytes.push(b);
        k = k + 1;
    }
    proof {
        law_bits_spell_bytes(bits@);
    }
    bytes
}

/// Eight digits write the byte whose bits they are.
proof fn lemma_number_of_eight(bits: Seq<u8>)
    requires
        bits.len() == 8,
    ensures
        number_of(bits) == 128 * (bits[0] % 2) + 64 * (bits[1] % 2) + 32 * (bits[2] % 2) + 16 * (
        bits[3] % 2) + 8 * (bits[4] % 2) + 4 * (bits[5] % 2) + 2 * (bits[6] % 2) + bits[7] % 2,
        number_of(bits) < 256,
{
    reveal_with_fuel(number_of, 9);
}

/// The bits of a concatenation are the concatenated bits.
pub proof fn lemma_bits_concat(a: Seq<u8>, b: Seq<u8>)
    ensures
        bits_of(a + b) == bits_of(a) + bits_of(b),
{
    assert(bits_of(a + b) =~= bits_of(a) + bits_of(b));
}

/// Each entry of a bit string made from bytes is zero or one.
pub proof fn lemma_bits_are_binary(bytes: Seq<u8>)
    ensures
        forall|i: int|
            0 <= i < bits_of(bytes).len() ==> #[trigger] bits_of(bytes)[i] == 0 || bits_of(bytes)[i]
                == 1,
{
    assert forall|i: int| 0 <= i < bits_of(bytes).len() implies #[trigger] bits_of(bytes)[i] == 0
        || bits_of(bytes)[i] == 1 by {
        let x = bytes[i / 8] >> ((7 - i % 8) as u8);
        assert(x & 1 == 0 || x & 1 == 1) by (bit_vector);
    }
}

/// Packing the bits of some bytes gives the bytes back.
pub proof fn law_bytes_survive_bits(bytes: Seq<u8>)
    ensures
        bytes_of(bits_of(bytes)) == bytes,
{
    let bits = bits_of(bytes);
    assert forall|k: int| 0 <= k < bytes.len() implies #[trigger] bytes_of(bits)[k] == bytes[k] by {
        let chunk = bits.subrange(8 * k, 8 * k + 8);
        let b = bytes[k];
        assert forall|j: int| 0 <= j < 8 implies chunk[j] == bit_of(b, j) by {
            assert((8 * k + j) / 8 == k && (8 * k + j) % 8 == j);
        }
        lemma_number_of_eight(chunk);
        assert(b == 128 * (((b >> 7) & 1) % 2) + 64 * (((b >> 6) & 1) % 2) + 32 * (((b >> 5) & 1)
            % 2) + 16 * (((b >> 4) & 1) % 2) + 8 * (((b >> 3) & 1) % 2) + 4 * (((b >> 2) & 1) % 2)
            + 2 * (((b >> 1) & 1) % 2) + ((b >> 0) & 1) % 2) by (bit_vector);
    }
    assert(bytes_of(bits) =~= bytes);
}

/// Expanding the bytes that a whole number of bit octets spell gives the bits back.
pub proof fn law_bits_survive_bytes(bits: Seq<u8>)
    requires
        bits.len() % 8 == 0,
        forall|i: int| 0 <= i < bits.len() ==> #[trigger] bits[i] == 0 || bits[i] == 1,
    ensures
        bits_of(bytes_of(bits)) == bits,
{
    let back = bits_of(bytes_of(bits));
    assert forall|i: int| 0 <= i < bits.len() implies #[trigger] back[i] == bits[i] by {
        let k = i / 8;
        let j = i % 8;
        let chunk = bits.subrange(8 * k, 8 * k + 8);
        lemma_number_of_eight(chunk);
        let (a, b, c, d) = (chunk[0], chunk[1], chunk[2], chunk[3]);
        let (e, f, g, h) = (chunk[4], chunk[5], chunk[6], chunk[7]);
        let x = bytes_of(bits)[k];
        assert(chunk[j] == bits[i]);
        assert(a < 2 && b < 2 && c < 2 && d < 2 && e < 2 && f < 2 && g < 2 && h < 2);
        assert((x >> 7) & 1 == a && (x >> 6) & 1 == b && (x >> 5) & 1 == c && (x >> 4) & 1 == d && (
        x >> 3) & 1 == e && (x >> 2) & 1 == f && (x >> 1) & 1 == g && (x >> 0) & 1 == h)
            by (bit_vector)
            requires
                a < 2 && b < 2 && c < 2 && d < 2 && e < 2 && f < 2 && g < 2 && h < 2,
                x == 128 * a + 64 * b + 32 * c + 16 * d + 8 * e + 4 * f + 2 * g + h,
        ;
    }
    assert(back =~= bits);
}

/// One byte is the number that its eight bits write.
pub proof fn lemma_bits_of_byte(bytes: Seq<u8>, i: int)
    requires
        0 <= i < bytes.len(),
    ensures
        bytes[i] == 128 * bits_of(bytes)[8 * i] + 64 * bits_of(bytes)[8 * i + 1] + 32 * bits_of(
            bytes,
        )[8 * i + 2] + 16 * bits_of(bytes)[8 * i + 3] + 8 * bits_of(bytes)[8 * i + 4] + 4 * bits_of(
            bytes,
        )[8 * i + 5] + 2 * bits_of(bytes)[8 * i + 6] + bits_of(bytes)[8 * i + 7],
{
    let bits = bits_of(bytes);
    let chunk = bits.subrange(8 * i, 8 * i + 8);
    lemma_bits_are_binary(bytes);
    law_bytes_survive_bits(bytes);
    lemma_number_of_eight(chunk);
    assert(bytes_of(bits)[i] == bytes[i]);
    assert forall|j: int| 0 <= j < 8 implies #[trigger] chunk[j] % 2 == bits[8 * i + j] by {
        assert(bits[8 * i + j] == 0 || bits[8 * i + j] == 1);
    }
    assert(chunk[0] % 2 == bits[8 * i] && chunk[1] % 2 == bits[8 * i + 1]);
    assert(chunk[2] % 2 == bits[8 * i + 2] && chunk[3] % 2 == bits[8 * i + 3]);
    assert(chunk[4] % 2 == bits[8 * i + 4] && chunk[5] % 2 == bits[8 * i + 5]);
    assert(chunk[6] % 2 == bits[8 * i + 6] && chunk[7] % 2 == bits[8 * i + 7]);
}

/// Each byte is the number that its eight bits write in base two, most significant
/// digit first, and there are no other bits.
pub proof fn law_bits_write_bytes(bytes: Seq<u8>)
    ensures
        bits_of(bytes).len() == 8 * bytes.len(),
        forall|i: int| 0 <= i < 8 * bytes.len() ==> #[trigger] bits_of(bytes)[i] <= 1,
        forall|i: int|
            0 <= i < bytes.len() ==> #[trigger] bytes[i] == 128 * bits_of(bytes)[8 * i] + 64
                * bits_of(bytes)[8 * i + 1] + 32 * bits_of(bytes)[8 * i + 2] + 16 * bits_of(
                bytes,
            )[8 * i + 3] + 8 * bits_of(bytes)[8 * i + 4] + 4 * bits_of(bytes)[8 * i + 5] + 2
                * bits_of(bytes)[8 * i + 6] + bits_of(bytes)[8 * i + 7],
{
    let bits = bits_of(bytes);
    lemma_bits_are_binary(bytes);
    assert forall|i: int| 0 <= i < 8 * bytes.len() implies #[trigger] bits[i] <= 1 by {
        assert(bits[i] == 0 || bits[i] == 1);
    }
    assert forall|i: int| 0 <= i < bytes.len() implies #[trigger] bytes[i] == 128 * bits[8 * i] + 64
        * bits[8 * i + 1] + 32 * bits[8 * i + 2] + 16 * bits[8 * i + 3] + 8 * bits[8 * i + 4] + 4
        * bits[8 * i + 5] + 2 * bits[8 * i + 6] + bits[8 * i + 7] by {
        lemma_bits_of_byte(bytes, i);
    }
}

/// Each byte is the number that the lowest bits of eight entries write in base two,
/// most significant digit first; there are as many bytes as whole octets.
pub proof fn law_bits_spell_bytes(bits: Seq<u8>)
    ensures
        bytes_of(bits).len() == bits.len() / 8,
        forall|k: int|
            0 <= k < bits.len() / 8 ==> #[trigger] bytes_of(bits)[k] == 128 * (bits[8 * k] % 2) + 64
                * (bits[8 * k + 1] % 2) + 32 * (bits[8 * k + 2] % 2) + 16 * (bits[8 * k + 3] % 2)
                + 8 * (bits[8 * k + 4] % 2) + 4 * (bits[8 * k + 5] % 2) + 2 * (bits[8 * k + 6] % 2)
                + bits[8 * k + 7] % 2,
{
    assert forall|k: int| 0 <= k < bits.len() / 8 implies #[trigger] bytes_of(bits)[k] == 128 * (
    bits[8 * k] % 2) + 64 * (bits[8 * k + 1] % 2) + 32 * (bits[8 * k + 2] % 2) + 16 * (bits[8 * k
        + 3] % 2) + 8 * (bits[8 * k + 4] % 2) + 4 * (bits[8 * k + 5] % 2) + 2 * (bits[8 * k + 6]
        % 2) + bits[8 * k + 7] % 2 by {
        lemma_number_of_eight(bits.subrange(8 * k, 8 * k + 8));
    }
}

} // verus!
