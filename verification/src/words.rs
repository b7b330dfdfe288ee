//! Machine words as remainders of unbounded counters.
//!
//! The positions and sequence numbers of a queue only ever grow. A word of shared memory holds such
//! a counter modulo the range of `usize`; the lemmas here relate the words to the counters.

use vstd::arithmetic::div_mod::*;
use vstd::arithmetic::power2::*;
use vstd::bits::*;
use vstd::prelude::*;

verus! {

/// The number of values of a word.
pub open spec fn modulus() -> int {
    usize::MAX + 1
}

/// The word that stands for the counter `n`.
pub open spec fn word(n: int) -> usize {
    (n % modulus()) as usize
}

/// The distance from the word `b` forward to the word `a`, read as a signed number: below half of
/// the range it counts forwards, above it counts backwards.
pub open spec fn signed_gap(a: usize, b: usize) -> int {
    let gap = (a - b) % modulus();
    if gap <= isize::MAX {
        gap
    } else {
        gap - modulus()
    }
}

/// A word stands for itself.
pub proof fn lemma_word_of_usize(x: usize)
    ensures
        word(x as int) == x,
{
    lemma_small_mod(x as nat, modulus() as nat);
}

/// A counter that fits in a word stands for itself.
pub proof fn lemma_word_small(n: int)
    requires
        0 <= n <= usize::MAX,
    ensures
        word(n) == n,
{
    lemma_small_mod(n as nat, modulus() as nat);
}

/// Counters less than a full range apart have different words, unless they are equal.
pub proof fn lemma_word_distinct(a: int, b: int)
    requires
        word(a) == word(b),
        -modulus() < a - b < modulus(),
    ensures
        a == b,
{
    let m = modulus();
    lemma_fundamental_div_mod(a, m);
    lemma_fundamental_div_mod(b, m);
    let q = a / m - b / m;
    assert(a - b == m * q) by (nonlinear_arith)
        requires
            a == m * (a / m) + a % m,
            b == m * (b / m) + b % m,
            a % m == b % m,
            q == a / m - b / m,
    ;
    assert(q == 0) by (nonlinear_arith)
        requires
            a - b == m * q,
            -m < a - b < m,
            m > 0,
    ;
}

/// Adding to the word of a counter gives the word of the sum.
pub proof fn lemma_word_add(n: int, k: int)
    ensures
        word(word(n) + k) == word(n + k),
{
    let m = modulus();
    lemma_fundamental_div_mod(n, m);
    lemma_mod_multiples_vanish(n / m, n % m + k, m);
    assert(m * (n / m) + (n % m + k) == n + k);
}

/// Wrapping addition of two words.
pub proof fn lemma_wrapping_add(x: usize, y: usize)
    ensures
        x.wrapping_add(y) == word(x + y),
{
    let m = modulus();
    if x + y > usize::MAX {
        lemma_fundamental_div_mod_converse(x + y, m, 1, x + y - m);
    } else {
        lemma_word_small(x + y);
    }
}

/// Wrapping subtraction of two words.
pub proof fn lemma_wrapping_sub(x: usize, y: usize)
    ensures
        x.wrapping_sub(y) == word(x - y),
{
    let m = modulus();
    if x < y {
        lemma_fundamental_div_mod_converse(x - y, m, -1, x - y + m);
    } else {
        lemma_word_small(x - y);
    }
}

/// Multiplying the word of a counter gives the word of the product.
pub proof fn lemma_word_mul(k: int, n: int)
    ensures
        word(k * word(n)) == word(k * n),
{
    lemma_mul_mod_noop_right(k, n, modulus());
}

/// The signed gap between the words of two counters is the difference of the counters, as long as
/// that fits in half of the range.
pub proof fn lemma_signed_gap(a: int, b: int)
    requires
        isize::MIN <= a - b <= isize::MAX,
    ensures
        signed_gap(word(a), word(b)) == a - b,
{
    let m = modulus();
    assert(usize::MAX == 2 * isize::MAX + 1);
    assert(isize::MIN == -isize::MAX - 1);
    lemma_word_difference(a, b);
    if a >= b {
        lemma_small_mod((a - b) as nat, m as nat);
    } else {
        lemma_fundamental_div_mod_converse(a - b, m, -1, a - b + m);
    }
}

/// The difference of two words is congruent to the difference of the counters.
pub proof fn lemma_word_difference(a: int, b: int)
    ensures
        (word(a) - word(b)) % modulus() == (a - b) % modulus(),
{
    lemma_sub_mod_noop(a, b, modulus());
}

/// The signed gap is zero exactly where the words are equal.
pub proof fn lemma_signed_gap_zero(a: usize, b: usize)
    ensures
        signed_gap(a, b) == 0 <==> a == b,
{
    lemma_wrapping_sub(a, b);
}

/// The range of a word is a power of two.
pub proof fn lemma_modulus_pow2()
    ensures
        modulus() == pow2(usize::BITS as nat),
        usize::BITS == 32 || usize::BITS == 64,
{
    lemma2_to64();
    lemma2_to64_rest();
}

/// A power of two that fits in a word has an exponent below the number of bits.
pub proof fn lemma_pow2_exponent(n: usize) -> (e: nat)
    requires
        is_pow2(n as int),
    ensures
        e < usize::BITS,
        n == pow2(e),
{
    is_pow2_equiv(n as int);
    let e = choose|i: nat| vstd::arithmetic::power::pow(2, i) == n as int;
    lemma_pow2(e);
    lemma_modulus_pow2();
    if e >= usize::BITS {
        if e > usize::BITS {
            lemma_pow2_strictly_increases(usize::BITS as nat, e);
        }
        assert(false);
    }
    e
}

/// Masking with one less than a power of two takes the remainder.
pub proof fn lemma_mask_is_mod(x: usize, n: usize)
    requires
        is_pow2(n as int),
    ensures
        n > 0,
        x & ((n - 1) as usize) == x % n,
{
    let e = lemma_pow2_exponent(n);
    lemma_usize_low_bits_mask_is_mod(x, e);
    lemma_pow2_pos(e);
    assert(low_bits_mask(e) == pow2(e) - 1);
}

/// A power of two that fits in a word divides the range, and is at most half of it.
pub proof fn lemma_pow2_divides_modulus(n: usize)
    requires
        is_pow2(n as int),
    ensures
        n > 0,
        modulus() % n as int == 0,
        2 * n <= modulus(),
{
    let e = lemma_pow2_exponent(n);
    lemma_modulus_pow2();
    let rest = (usize::BITS - e) as nat;
    lemma_pow2_adds(e, rest);
    lemma_pow2_pos(e);
    lemma_pow2_unfold(rest);
    lemma_pow2_pos((rest - 1) as nat);
    lemma_mod_multiples_basic(pow2(rest) as int, n as int);
    assert(pow2(rest) * n == modulus()) by (nonlinear_arith)
        requires
            pow2(e) * pow2(rest) == modulus(),
            n == pow2(e),
    ;
    assert(2 * n <= modulus()) by (nonlinear_arith)
        requires
            pow2(rest) * n == modulus(),
            pow2(rest) >= 2,
            n >= 0,
    ;
}

/// The remainder of a counter by a power of two can be taken from its word.
pub proof fn lemma_word_mod(n: int, d: usize)
    requires
        is_pow2(d as int),
    ensures
        d > 0,
        word(n) as int % d as int == n % d as int,
{
    lemma_pow2_divides_modulus(d);
    let m = modulus();
    let c = m / d as int;
    lemma_fundamental_div_mod(m, d as int);
    lemma_fundamental_div_mod(n, m);
    lemma_mod_multiples_vanish(c * (n / m), n % m, d as int);
    assert(d as int * (c * (n / m)) == m * (n / m)) by (nonlinear_arith)
        requires
            m == d as int * c,
    ;
}

} // verus!
