//! Manchester line code: each bit travels as two chips of opposite level.

use vstd::prelude::*;

use crate::counting;

verus! {

/// The chips of a bit string: a one is sent as on then off, a zero as off then
/// on. Only the lowest bit of each entry counts.
pub open spec fn chips_of_bits(bits: Seq<u8>) -> Seq<u8> {
    Seq::new(
        2 * bits.len(),
        |i: int|
            if (bits[i / 2] % 2 == 1) == (i % 2 == 0) {
                1u8
            } else {
                0u8
            },
    )
}

/// Whether two chips form a code word.
pub open spec fn is_code_word(first: u8, second: u8) -> bool {
    (first == 1 && second == 0) || (first == 0 && second == 1)
}

/// The bit that two chips are read as: a code word as the bit it stands for,
/// two chips that are both on as a one, anything else as a zero.
pub open spec fn bit_of_pair(first: u8, second: u8) -> u8 {
    if first == 1 && (second == 0 || second == 1) {
        1
    } else {
        0
    }
}

/// The bits that chips are read as, two chips to a bit; an odd chip at the end
/// is dropped.
pub open spec fn bits_of_chips(chips: Seq<u8>) -> Seq<u8> {
    Seq::new(chips.len() / 2, |k: int| bit_of_pair(chips[2 * k], chips[2 * k + 1]))
}

/// The number of chip pairs that are no code word.
pub open spec fn bad_pairs(chips: Seq<u8>) -> nat {
    counting::count(chips.len() / 2, |k: int| !is_code_word(chips[2 * k], chips[2 * k + 1]))
}

/// There are at most half as many bad pairs as chips.
pub proof fn lemma_bad_pairs_bound(chips: Seq<u8>)
    ensures
        bad_pairs(chips) <= chips.len() / 2,
{
    counting::lemma_count_bounds(
        chips.len() / 2,
        |k: int| !is_code_word(chips[2 * k], chips[2 * k + 1]),
    );
}

/// Manchester-encode bits to chips: `1 -> [1,0]`, `0 -> [0,1]`.
pub fn manchester_encode(bits: &[u8]) -> (chips: Vec<u8>)
    requires
        2 * bits@.len() <= isize::MAX,
    ensures
        chips@ == chips_of_bits(bits@),
        chips@.len() == 2 * bits@.len(),
        forall|k: int|
            0 <= k < bits@.len() ==> chips@[2 * k] == #[trigger] bits@[k] % 2 && chips@[2 * k + 1]
                == 1 - bits@[k] % 2,
{
    let mut chips: Vec<u8> = Vec::with_capacity(bits.len() * 2);
    let mut i: usize = 0;
    while i < bits.len()
        invariant
            i <= bits@.len(),
            chips@.len() == 2 * i,
            forall|k: int| 0 <= k < chips@.len() ==> chips@[k] == chips_of_bits(bits@)[k],
        decreases bits@.len() - i,
    {
        let b: u8 = bits[i];
        assert(b & 1 == b % 2) by (bit_vector);
        if b & 1 == 1 {
            chips.push(1);
            chips.push(0);
        } else {
            chips.push(0);
            chips.push(1);
        }
        i = i + 1;
    }
    proof {
        law_bit_is_sent_twice(bits@);
    }
    chips
}

/// Manchester-decode chip pairs back to bits. Returns the bits and the number
/// of pairs that are no code word.
///
/// Such a pair is decoded by a fallback (`[1,1] -> 1`, `[0,0] -> 0`), and
/// counted so that callers can judge the signal.
pub fn manchester_decode(chips: &[u8]) -> (decoded: (Vec<u8>, usize))
    ensures
        decoded.0@ == bits_of_chips(chips@),
        decoded.1 == bad_pairs(chips@),
        decoded.0@.len() == chips@.len() / 2,
        forall|k: int|
            0 <= k < chips@.len() / 2 ==> #[trigger] decoded.0@[k] == if chips@[2 * k] == 1
                && chips@[2 * k + 1] <= 1 {
                1u8
            } else {
                0u8
            },
        decoded.1 == Set::new(
            |k: int| 0 <= k < chips@.len() / 2 && chips@[2 * k] + chips@[2 * k + 1] != 1,
        ).len(),
{
    let n: usize = chips.len() / 2;
    let mut bits: Vec<u8> = Vec::with_capacity(n);
    let mut errors: usize = 0;
    let mut k: usize = 0;
    let ghost bad = |k: int| !is_code_word(chips@[2 * k], chips@[2 * k + 1]);
    while k < n
        invariant
            n == chips@.len() / 2,
            chips@.len() <= usize::MAX,
            k <= n,
            bad == (|k: int| !is_code_word(chips@[2 * k], chips@[2 * k + 1])),
            bits@.len() == k,
            forall|m: int| 0 <= m < k ==> bits@[m] == bits_of_chips(chips@)[m],
            errors == counting::count(k as nat, bad),
            errors <= k,
        decreases n - k,
    {
        let first: u8 = chips[2 * k];
        let second: u8 = chips[2 * k + 1];
        if first == 1 && second == 0 {
            bits.push(1);
        } else if first == 0 && second == 1 {
            bits.push(0);
        } else if first == 1 && second == 1 {
            bits.push(1);
            errors = errors + 1;
        } else {
            bits.push(0);
            errors = errors + 1;
        }
        k = k + 1;
    }
    proof {
        law_pair_is_read(chips@);
        law_bad_pairs_are_counted(chips@);
    }
    (bits, errors)
}

/// The chips of a concatenation are the concatenated chips.
pub proof fn lemma_chips_concat(a: Seq<u8>, b: Seq<u8>)
    ensures
        chips_of_bits(a + b) == chips_of_bits(a) + chips_of_bits(b),
{
    assert(chips_of_bits(a + b) =~= chips_of_bits(a) + chips_of_bits(b));
}

/// Decoding the chips of a bit string gives its bits back, without an error.
pub proof fn law_bits_survive_chips(bits: Seq<u8>)
    ensures
        bits_of_chips(chips_of_bits(bits)) == Seq::new(bits.len(), |i: int| (bits[i] % 2) as u8),
        (forall|i: int| 0 <= i < bits.len() ==> #[trigger] bits[i] == 0 || bits[i] == 1)
            ==> bits_of_chips(chips_of_bits(bits)) == bits,
        bad_pairs(chips_of_bits(bits)) == 0,
{
    let chips = chips_of_bits(bits);
    let bad = |k: int| !is_code_word(chips[2 * k], chips[2 * k + 1]);
    assert forall|k: int| 0 <= k < bits.len() implies !#[trigger] bad(k) && bits_of_chips(chips)[k]
        == bits[k] % 2 by {
        assert((2 * k) / 2 == k && (2 * k + 1) / 2 == k);
    }
    assert forall|k: int| 0 <= k < bits.len() implies #[trigger] bits_of_chips(chips)[k] == bits[k]
        % 2 by {
        assert(!bad(k));
    }
    counting::lemma_count_bounds(chips.len() / 2, bad);
    assert(bits_of_chips(chips) =~= Seq::new(bits.len(), |i: int| (bits[i] % 2) as u8));
    if forall|i: int| 0 <= i < bits.len() ==> #[trigger] bits[i] == 0 || bits[i] == 1 {
        assert(bits_of_chips(chips) =~= bits);
    }
}

/// A chip string of even length decodes without an error exactly when it is the
/// encoding of the bits it decodes to. So a single wrong chip in a pair is
/// always counted.
pub proof fn law_no_error_means_encoded(chips: Seq<u8>)
    requires
        chips.len() % 2 == 0,
    ensures
        bad_pairs(chips) == 0 <==> chips == chips_of_bits(bits_of_chips(chips)),
{
    let bits = bits_of_chips(chips);
    let bad = |k: int| !is_code_word(chips[2 * k], chips[2 * k + 1]);
    counting::lemma_count_bounds(chips.len() / 2, bad);
    if bad_pairs(chips) == 0 {
        assert forall|i: int| 0 <= i < chips.len() implies chips[i] == #[trigger] chips_of_bits(
            bits,
        )[i] by {
            assert(!bad(i / 2));
        }
        assert(chips =~= chips_of_bits(bits));
    }
    law_bits_survive_chips(bits);
}

/// The level changes at least every two chips: no three neighbouring chips of
/// an encoding are equal. The two chips of one bit always differ.
pub proof fn law_transitions(bits: Seq<u8>, i: int)
    requires
        0 <= i,
    ensures
        i + 2 < 2 * bits.len() ==> !(chips_of_bits(bits)[i] == chips_of_bits(bits)[i + 1]
            && chips_of_bits(bits)[i + 1] == chips_of_bits(bits)[i + 2]),
        i < bits.len() ==> chips_of_bits(bits)[2 * i] != chips_of_bits(bits)[2 * i + 1],
{
    assert((2 * i) / 2 == i && (2 * i + 1) / 2 == i);
}

/// Half of the chips of an encoding are on, whatever the bits.
pub proof fn law_half_power(bits: Seq<u8>)
    ensures
        counting::count(2 * bits.len(), |i: int| chips_of_bits(bits)[i] == 1) == bits.len(),
    decreases bits.len(),
{
    let chips = chips_of_bits(bits);
    let on = |i: int| chips[i] == 1;
    if bits.len() > 0 {
        let rest = bits.drop_last();
        let fewer = chips_of_bits(rest);
        law_half_power(rest);
        let n = (2 * bits.len() - 2) as nat;
        assert forall|i: int| 0 <= i < n implies #[trigger] on(i) == (fewer[i] == 1) by {
            assert(rest[i / 2] == bits[i / 2]);
        }
        counting::lemma_count_agree(n, on, |i: int| fewer[i] == 1);
        law_transitions(bits, bits.len() - 1);
        reveal_with_fuel(counting::count, 3);
        assert(counting::count(2 * bits.len(), on) == counting::count(n, on) + 1);
    }
}

/// A bit is sent as its own level and then the opposite one.
pub proof fn law_bit_is_sent_twice(bits: Seq<u8>)
    ensures
        chips_of_bits(bits).len() == 2 * bits.len(),
        forall|k: int|
            0 <= k < bits.len() ==> chips_of_bits(bits)[2 * k] == #[trigger] bits[k] % 2
                && chips_of_bits(bits)[2 * k + 1] == 1 - bits[k] % 2,
{
    assert forall|k: int| 0 <= k < bits.len() implies chips_of_bits(bits)[2 * k]
        == #[trigger] bits[k] % 2 && chips_of_bits(bits)[2 * k + 1] == 1 - bits[k] % 2 by {
        assert((2 * k) / 2 == k && (2 * k + 1) / 2 == k);
    }
}

/// Whatever its position, a pair of chips that are on or off is read as its first
/// chip, also where the second does not differ from it. Any other pair is read as
/// a zero.
pub proof fn law_pair_is_read(chips: Seq<u8>)
    ensures
        bits_of_chips(chips).len() == chips.len() / 2,
        forall|k: int|
            0 <= k < chips.len() / 2 && chips[2 * k] <= 1 && chips[2 * k + 1] <= 1
                ==> #[trigger] bits_of_chips(chips)[k] == chips[2 * k],
        forall|k: int|
            0 <= k < chips.len() / 2 && (chips[2 * k] > 1 || chips[2 * k + 1] > 1)
                ==> #[trigger] bits_of_chips(chips)[k] == 0,
{
}

/// The number of bad pairs is the size of the set of pairs in which not exactly
/// one chip is on and the other off.
pub proof fn law_bad_pairs_are_counted(chips: Seq<u8>)
    ensures
        Set::new(
            |k: int| 0 <= k < chips.len() / 2 && chips[2 * k] + chips[2 * k + 1] != 1,
        ).finite(),
        bad_pairs(chips) == Set::new(
            |k: int| 0 <= k < chips.len() / 2 && chips[2 * k] + chips[2 * k + 1] != 1,
        ).len(),
{
    let bad = |k: int| !is_code_word(chips[2 * k], chips[2 * k + 1]);
    counting::law_count_is_size(chips.len() / 2, bad);
    assert(Set::new(|k: int| 0 <= k < chips.len() / 2 && bad(k)) =~= Set::new(
        |k: int| 0 <= k < chips.len() / 2 && chips[2 * k] + chips[2 * k + 1] != 1,
    ));
}

} // verus!
