//! The Internet checksum: the one's-complement sum of 16-bit big-endian words.

use vstd::prelude::*;

verus! {

/// One's-complement addition of two 16-bit values: the carry out of the top
/// bit comes back in at the bottom.
pub open spec fn ones_add(x: nat, y: nat) -> nat {
    if x + y > 0xffff {
        (x + y - 0xffff) as nat
    } else {
        x + y
    }
}

/// The 16-bit word number `k` of `s`, first byte high. A last byte without a
/// partner stands as the high half of its word.
pub open spec fn word_at(s: Seq<u8>, k: int) -> nat {
    if 2 * k + 1 < s.len() {
        s[2 * k] as nat * 256 + s[2 * k + 1] as nat
    } else {
        s[2 * k] as nat * 256
    }
}

/// The one's-complement sum of the first `k` words of `s`.
pub open spec fn ones_sum(s: Seq<u8>, k: nat) -> nat
    decreases k,
{
    if k == 0 {
        0
    } else {
        ones_add(ones_sum(s, (k - 1) as nat), word_at(s, k - 1))
    }
}

/// The number of 16-bit words that the bytes of `s` fill, a lone last byte
/// counting as one.
pub open spec fn word_count(s: Seq<u8>) -> nat {
    ((s.len() + 1) / 2) as nat
}

/// The one's-complement sum of all the words of `s`.
pub open spec fn internet_sum(s: Seq<u8>) -> nat {
    ones_sum(s, word_count(s))
}

/// A sum of 16-bit words stays a 16-bit value.
pub proof fn lemma_ones_sum_bound(s: Seq<u8>, k: nat)
    ensures
        ones_sum(s, k) <= 0xffff,
    decreases k,
{
    if k > 0 {
        lemma_ones_sum_bound(s, (k - 1) as nat);
    }
}

/// The sum of the first `k` words depends on the first `2k` bytes alone, as
/// long as both sequences end their last word the same way.
pub proof fn lemma_ones_sum_prefix(s: Seq<u8>, t: Seq<u8>, k: nat)
    requires
        2 * k <= s.len(),
        2 * k <= t.len(),
        forall|j: int| 0 <= j < 2 * k ==> s[j] == t[j],
    ensures
        ones_sum(s, k) == ones_sum(t, k),
    decreases k,
{
    if k > 0 {
        lemma_ones_sum_prefix(s, t, (k - 1) as nat);
    }
}

/// One's-complement addition does not depend on the order of its operands.
pub proof fn lemma_ones_add_commutative(x: nat, y: nat)
    ensures
        ones_add(x, y) == ones_add(y, x),
{
}

/// One's-complement addition of 16-bit values may be grouped either way.
pub proof fn lemma_ones_add_associative(x: nat, y: nat, z: nat)
    requires
        x <= 0xffff,
        y <= 0xffff,
        z <= 0xffff,
    ensures
        ones_add(ones_add(x, y), z) == ones_add(x, ones_add(y, z)),
{
}

/// `s` with its word number `c` taken as zero.
pub open spec fn without_word(s: Seq<u8>, c: int) -> Seq<u8> {
    Seq::new(
        s.len(),
        |j: int|
            if j == 2 * c || j == 2 * c + 1 {
                0u8
            } else {
                s[j]
            },
    )
}

/// The sum of words that include word `c` is the sum of the words without
/// it, plus that word.
pub proof fn lemma_ones_sum_with_word(s: Seq<u8>, c: int, k: nat)
    requires
        0 <= c < k <= word_count(s),
        2 * c + 1 < s.len(),
    ensures
        ones_sum(s, k) == ones_add(ones_sum(without_word(s, c), k), word_at(s, c)),
    decreases k,
{
    let z = without_word(s, c);
    lemma_ones_sum_bound(z, k);
    lemma_ones_sum_bound(z, (k - 1) as nat);
    lemma_ones_sum_bound(s, (k - 1) as nat);
    if k - 1 == c {
        lemma_ones_sum_same_before(s, z, c, c as nat);
        assert(word_at(z, c) == 0);
    } else {
        lemma_ones_sum_with_word(s, c, (k - 1) as nat);
        assert(word_at(z, k - 1) == word_at(s, k - 1));
    }
}

/// Up to word `c` the sums of `s` and of `s` without word `c` agree.
proof fn lemma_ones_sum_same_before(s: Seq<u8>, z: Seq<u8>, c: int, k: nat)
    requires
        z == without_word(s, c),
        k <= c,
        2 * c + 1 < s.len(),
    ensures
        ones_sum(s, k) == ones_sum(z, k),
    decreases k,
{
    if k > 0 {
        lemma_ones_sum_same_before(s, z, c, (k - 1) as nat);
        assert(word_at(z, k - 1) == word_at(s, k - 1));
    }
}

/// A word that is the complement of the sum of the other words brings the
/// sum of all words to all ones.
pub proof fn lemma_complement_completes(s: Seq<u8>, c: int)
    requires
        0 <= c < word_count(s),
        2 * c + 1 < s.len(),
        word_at(s, c) == 0xffff - internet_sum(without_word(s, c)),
    ensures
        internet_sum(s) == 0xffff,
{
    lemma_ones_sum_with_word(s, c, word_count(s));
    lemma_ones_sum_bound(without_word(s, c), word_count(s));
}

/// Where the sum of all words is all ones, a word that is not all ones
/// itself is the complement of the sum of the other words.
pub proof fn lemma_complete_has_complement(s: Seq<u8>, c: int)
    requires
        0 <= c < word_count(s),
        2 * c + 1 < s.len(),
        internet_sum(s) == 0xffff,
        word_at(s, c) != 0xffff,
    ensures
        word_at(s, c) == 0xffff - internet_sum(without_word(s, c)),
{
    lemma_ones_sum_with_word(s, c, word_count(s));
    lemma_ones_sum_bound(without_word(s, c), word_count(s));
}

/// One's-complement addition with carry wrapped around, on 16-bit values.
pub fn ones_complement_add(x: u16, y: u16) -> (r: u16)
    ensures
        r == ones_add(x as nat, y as nat),
{
    let wide: u32 = x as u32 + y as u32;
    if wide > 0xffff {
        (wide - 0xffff) as u16
    } else {
        wide as u16
    }
}

/// The bitwise complement of a 16-bit value.
pub fn complement(x: u16) -> (r: u16)
    ensures
        r == 0xffff - x,
{
    assert(!x == 0xffffu16 - x) by (bit_vector);
    !x
}

} // verus!
