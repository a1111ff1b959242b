//! The Internet checksum: a ones'-complement sum of 16-bit words.
use vstd::prelude::*;

use crate::bytes::{be16, be16_bytes, overwrite};

verus! {

/// The sum of the big-endian words of `s`; an odd last byte counts as the more
/// significant half of a word.
pub open spec fn word_sum(s: Seq<u8>) -> nat
    decreases s.len(),
{
    if s.len() == 0 {
        0
    } else if s.len() == 1 {
        (s[0] * 256) as nat
    } else {
        (be16(s, 0) + word_sum(s.skip(2))) as nat
    }
}

/// A sum with its carries folded in: the number of 1 to 65535 that is congruent
/// to it modulo 65535, or zero for an empty sum.
pub open spec fn folded(sum: nat) -> int {
    if sum == 0 {
        0
    } else if sum % 65535 == 0 {
        65535
    } else {
        (sum % 65535) as int
    }
}

/// The ones' complement of a folded sum.
pub open spec fn complement(sum: nat) -> int {
    65535 - folded(sum)
}

/// The Internet checksum of `s`.
pub open spec fn checksum_of(s: Seq<u8>) -> int {
    complement(word_sum(s))
}

/// `s` with its checksum in the zeroed field at `at`.
pub open spec fn summed(s: Seq<u8>, at: int) -> Seq<u8> {
    overwrite(s, at, be16_bytes(checksum_of(s) as u16))
}

/// The checksum of nothing but a valid message is zero: its word sum is a
/// positive multiple of 65535.
pub proof fn lemma_valid(sum: nat)
    ensures
        complement(sum) == 0 <==> (sum > 0 && sum % 65535 == 0),
{
}

/// The complement of a sum completes it to a valid message.
pub proof fn lemma_complement_completes(sum: nat)
    ensures
        0 <= complement(sum) <= 65535,
        complement((sum + complement(sum)) as nat) == 0,
{
    let total = sum + complement(sum);
    if sum == 0 {
        assert(total == 65535);
    } else if sum % 65535 == 0 {
        assert(total == sum);
    } else {
        assert(total == sum - sum % 65535 + 65535);
        assert((total % 65535) == 0);
    }
}

/// Adding the largest word to a valid message leaves it valid.
pub proof fn lemma_negative_zero(sum: nat)
    requires
        sum > 0 ==> sum % 65535 == 0,
    ensures
        complement((sum + 65535) as nat) == 0,
{
}

/// The sum of words is at most 65535 for every two bytes.
pub proof fn lemma_word_sum_bound(s: Seq<u8>)
    ensures
        word_sum(s) <= 65535 * s.len(),
    decreases s.len(),
{
    if s.len() > 1 {
        lemma_word_sum_bound(s.skip(2));
    }
}

/// A message of even length followed by another sums to both sums.
pub proof fn lemma_word_sum_concat(a: Seq<u8>, b: Seq<u8>)
    requires
        a.len() % 2 == 0,
    ensures
        word_sum(a + b) == word_sum(a) + word_sum(b),
    decreases a.len(),
{
    if a.len() == 0 {
        assert(a + b =~= b);
    } else {
        lemma_word_sum_concat(a.skip(2), b);
        assert((a + b).skip(2) =~= a.skip(2) + b);
        assert((a + b)[0] == a[0] && (a + b)[1] == a[1]);
    }
}

/// The sum of one word.
pub proof fn lemma_word_sum_word(s: Seq<u8>)
    requires
        s.len() == 2,
    ensures
        word_sum(s) == be16(s, 0),
{
    assert(word_sum(s.skip(2)) == 0);
}

/// The sum of two words.
pub proof fn lemma_word_sum_two_words(s: Seq<u8>)
    requires
        s.len() == 4,
    ensures
        word_sum(s) == be16(s, 0) + be16(s, 2),
{
    lemma_word_sum_word(s.skip(2));
    assert(s.skip(2)[0] == s[2] && s.skip(2)[1] == s[3]);
}

/// A zero word at an even place adds nothing: writing `v` there adds `v`.
pub proof fn lemma_word_sum_put(s: Seq<u8>, at: int, v: u16)
    requires
        0 <= at,
        at % 2 == 0,
        at + 2 <= s.len(),
        s[at] == 0,
        s[at + 1] == 0,
    ensures
        word_sum(overwrite(s, at, be16_bytes(v))) == word_sum(s) + v,
{
    let head = s.subrange(0, at);
    let tail = s.subrange(at + 2, s.len() as int);
    let zero = s.subrange(at, at + 2);
    assert(s =~= head + (zero + tail));
    assert(overwrite(s, at, be16_bytes(v)) =~= head + (be16_bytes(v) + tail));
    lemma_word_sum_concat(head, zero + tail);
    lemma_word_sum_concat(head, be16_bytes(v) + tail);
    lemma_word_sum_concat(zero, tail);
    lemma_word_sum_concat(be16_bytes(v), tail);
    lemma_word_sum_word(zero);
    lemma_word_sum_word(be16_bytes(v));
}

/// Writing a message's checksum into its zeroed checksum field makes the
/// message valid: its checksum is then zero.
pub proof fn lemma_checksum_completes(s: Seq<u8>, at: int)
    requires
        0 <= at,
        at % 2 == 0,
        at + 2 <= s.len(),
        s[at] == 0,
        s[at + 1] == 0,
    ensures
        checksum_of(summed(s, at)) == 0,
{
    lemma_complement_completes(word_sum(s));
    lemma_word_sum_put(s, at, checksum_of(s) as u16);
}

/// Internet checksum, including odd-length payloads. Returns zero when a
/// complete checksummed message is valid.
pub fn checksum(bytes: &[u8]) -> (sum: u16)
    ensures
        sum == checksum_of(bytes@),
{
    finish_sum(sum_words(bytes))
}

/// Adds up the big-endian words of `bytes`.
pub fn sum_words(bytes: &[u8]) -> (sum: u128)
    ensures
        sum == word_sum(bytes@),
        sum <= 65535 * bytes@.len(),
{
    let mut sum: u128 = 0;
    let mut i: usize = 0;
    proof {
        assert(bytes@.skip(0) =~= bytes@);
        lemma_word_sum_bound(bytes@);
    }
    while i < bytes.len() && bytes.len() - i >= 2
        invariant
            i <= bytes@.len(),
            word_sum(bytes@) == sum + word_sum(bytes@.skip(i as int)),
            word_sum(bytes@) <= 65535 * bytes@.len(),
        decreases bytes@.len() - i,
    {
        let ghost rest = bytes@.skip(i as int);
        assert(rest.skip(2) =~= bytes@.skip(i + 2));
        assert(be16(rest, 0) == bytes@[i as int] * 256 + bytes@[i + 1]);
        sum = sum + (bytes[i] as u128 * 256 + bytes[i + 1] as u128);
        i += 2;
    }
    let ghost rest = bytes@.skip(i as int);
    if i < bytes.len() {
        assert(rest.len() == 1);
        sum = sum + bytes[i] as u128 * 256;
    }
    sum
}

/// Folds the carries of `sum` into 16 bits and complements the result.
pub fn finish_sum(sum: u128) -> (folded_sum: u16)
    ensures
        folded_sum == complement(sum as nat),
{
    let mut rest: u128 = sum;
    while rest >= 65536
        invariant
            rest % 65535 == sum % 65535,
            rest == 0 <==> sum == 0,
        decreases rest,
    {
        let next: u128 = rest % 65536 + rest / 65536;
        assert(rest == (rest / 65536) * 65536 + rest % 65536);
        assert(rest - next == (rest / 65536) * 65535);
        proof {
            let q: int = (rest / 65536) as int;
            vstd::arithmetic::div_mod::lemma_mod_multiples_vanish(q, next as int, 65535);
            assert(65535 * q + next == rest);
        }
        rest = next;
    }
    proof {
        if rest < 65535 {
            assert(rest % 65535 == rest);
        }
    }
    65535 - rest as u16
}

} // verus!
