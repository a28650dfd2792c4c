//! Numbers and their binary digits.

use vstd::arithmetic::div_mod::lemma_div_denominator;
use vstd::arithmetic::power2::{
    lemma2_to64, lemma_pow2_pos, lemma_pow2_strictly_increases, lemma_pow2_unfold, pow2,
};
use vstd::prelude::*;

verus! {

/// The number that a sequence of binary digits writes, the most significant
/// first.  A digit may be any number; it counts with the power of two of its
/// place.
pub open spec fn bits_value(bits: Seq<int>) -> int
    decreases bits.len(),
{
    if bits.len() == 0 {
        0
    } else {
        2 * bits_value(bits.drop_last()) + bits.last()
    }
}

/// The binary digit of `x` that counts two to the power `place`.
pub open spec fn bit_of(x: int, place: nat) -> int {
    (x / (pow2(place) as int)) % 2
}

/// `bits` are the lowest `bits.len()` binary digits of `x`, the most
/// significant first.
pub open spec fn is_bits_of(bits: Seq<u32>, x: int) -> bool {
    forall|i: int| 0 <= i < bits.len() ==> #[trigger] bits[i] == bit_of(x, (bits.len() - 1 - i) as nat)
}

/// The largest number of which two to its power is at most `n`.
pub open spec fn bits_of(n: int) -> nat {
    choose|k: nat| #[trigger] pow2(k) <= n < pow2(k + 1)
}

/// There is one number only of which two to its power is at most `n` and
/// two to the power of the next number is more.
pub proof fn lemma_bits_of(n: int, k: nat)
    requires
        pow2(k) <= n < pow2(k + 1),
    ensures
        bits_of(n) == k,
{
    let c = bits_of(n);
    if c < k {
        if c + 1 < k {
            lemma_pow2_strictly_increases(c + 1, k);
        }
    } else if k < c {
        if k + 1 < c {
            lemma_pow2_strictly_increases(k + 1, c);
        }
    }
}

/// Every number from 1 on lies between two to some power and two to the
/// next power.
pub proof fn lemma_bits_exist(n: int)
    requires
        n >= 1,
    ensures
        pow2(bits_of(n)) <= n < pow2(bits_of(n) + 1),
    decreases n,
{
    if n == 1 {
        lemma2_to64();
        assert(pow2(0) <= n < pow2(0 + 1));
    } else {
        let half = n / 2;
        lemma_bits_exist(half);
        let k = bits_of(half);
        lemma_pow2_unfold(k + 1);
        lemma_pow2_unfold(k + 2);
        assert(pow2(k + 1) <= n < pow2(k + 1 + 1));
    }
}

/// Every digit is 0 or 1.
pub open spec fn is_binary(bits: Seq<int>) -> bool {
    forall|i: int| 0 <= i < bits.len() ==> 0 <= #[trigger] bits[i] <= 1
}

/// As many binary digits write a number below two to the power of their
/// count.
pub proof fn lemma_bits_value_range(bits: Seq<int>)
    requires
        is_binary(bits),
    ensures
        0 <= bits_value(bits) < pow2(bits.len()),
    decreases bits.len(),
{
    if bits.len() == 0 {
        lemma2_to64();
    } else {
        lemma_bits_value_range(bits.drop_last());
        lemma_pow2_unfold(bits.len());
        assert(0 <= bits.last() <= 1);
    }
}

/// The binary digits that write a number are the binary digits of that
/// number.
pub proof fn lemma_bit_of_bits_value(bits: Seq<int>, i: int)
    requires
        is_binary(bits),
        0 <= i < bits.len(),
    ensures
        bit_of(bits_value(bits), (bits.len() - 1 - i) as nat) == bits[i],
    decreases bits.len(),
{
    let rest = bits.drop_last();
    let y = bits_value(rest);
    let x = bits_value(bits);
    let place = (bits.len() - 1 - i) as nat;
    lemma_bits_value_range(rest);
    assert(0 <= bits.last() <= 1);
    assert(x == 2 * y + bits.last());
    if place == 0 {
        lemma2_to64();
    } else {
        lemma_bit_of_bits_value(rest, i);
        let lower = pow2((place - 1) as nat) as int;
        lemma_pow2_unfold(place);
        lemma_pow2_pos((place - 1) as nat);
        lemma_div_denominator(x, 2, lower);
        assert(x / 2 == y);
        assert(rest[i] == bits[i]);
    }
}

} // verus!
