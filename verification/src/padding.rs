//! The power-of-two sizing policy of the leaf level: the padded width for a
//! given number of real elements, and the padding step that repeats a tail of
//! the elements until the count reaches that width.

use vstd::prelude::*;
use vstd::arithmetic::power2::pow2;
use vstd::arithmetic::power2::lemma_pow2_unfold;

verus! {

/// The smallest power of two that is at least `n` (1 when `n <= 1`).
pub open spec fn next_pow2(n: nat) -> nat
    decreases n,
{
    if n <= 1 {
        1
    } else {
        2 * next_pow2((n + 1) / 2)
    }
}

/// The padded width is a power of two, is at least the element count, and is
/// less than twice the element count: the padding deficit never reaches the
/// count of elements already present.
pub proof fn lemma_next_pow2_bounds(n: nat)
    requires
        1 <= n,
    ensures
        n <= next_pow2(n),
        next_pow2(n) < 2 * n,
        exists|e: nat| next_pow2(n) == pow2(e),
    decreases n,
{
    if n <= 1 {
        assert(next_pow2(n) == pow2(0)) by {
            vstd::arithmetic::power2::lemma2_to64();
        }
    } else {
        let m = ((n + 1) / 2) as nat;
        lemma_next_pow2_bounds(m);
        let e = choose|e: nat| next_pow2(m) == pow2(e);
        assert(next_pow2(n) == pow2(e + 1)) by {
            lemma_pow2_unfold(e + 1);
        }
        // next_pow2(n) >= 2 * m >= n
        assert(2 * m >= n);
        // strictness: next_pow2(m) < 2 * m, and both sides are integers, so
        // next_pow2(m) <= 2 * m - 1; when n is odd, 2 * m - 1 == n, and a
        // power of two equal to an odd n >= 3 is impossible.
        if n % 2 == 0 {
            assert(2 * m == n);
        } else {
            assert(2 * m == n + 1);
            if next_pow2(m) == n {
                // n == pow2(e) is odd and at least 3, so e >= 1 and pow2(e) is even
                assert(pow2(e) % 2 == 0) by {
                    if e == 0 {
                        vstd::arithmetic::power2::lemma2_to64();
                        assert(false);
                    } else {
                        lemma_pow2_unfold(e);
                    }
                }
                assert(false);
            }
        }
    }
}

/// Computes the padded width for `n` real elements: the smallest power of two
/// that is at least `n`.
pub fn padded_width(n: usize) -> (w: usize)
    requires
        1 <= n,
        n <= usize::MAX / 2 + 1,
    ensures
        w == next_pow2(n as nat),
    decreases n,
{
    if n <= 1 {
        1
    } else {
        let m = (n + 1) / 2;
        proof {
            lemma_next_pow2_bounds(m as nat);
        }
        let half = padded_width(m);
        2 * half
    }
}

/// Pads the element sequence up to the next power of two by repeating the
/// trailing elements: the deficit `d` is filled with copies of the last `d`
/// elements, in order.
pub fn extend_elements(elements: &mut Vec<&str>)
    requires
        1 <= old(elements).len(),
        old(elements).len() <= usize::MAX / 2 + 1,
    ensures
        final(elements)@.len() == next_pow2(old(elements)@.len()),
        old(elements)@.is_prefix_of(final(elements)@),
        forall|j: int|
            old(elements)@.len() <= j < final(elements)@.len() ==> final(elements)@[j] == old(
            elements)@[j - (final(elements)@.len() - old(elements)@.len())],
{
    let n = elements.len();
    proof {
        lemma_next_pow2_bounds(n as nat);
    }
    let w = padded_width(n);
    let diff = w - n;
    let start = n - diff;
    let mut k: usize = 0;
    while k < diff
        invariant
            n == old(elements)@.len(),
            start == n - diff,
            diff < n,
            k <= diff,
            elements@.len() == n + k,
            old(elements)@.is_prefix_of(elements@),
            forall|j: int| n <= j < n + k ==> elements@[j] == old(elements)@[j - diff],
        decreases diff - k,
    {
        let repeated = elements[start + k];
        elements.push(repeated);
        k = k + 1;
    }
}

} // verus!
