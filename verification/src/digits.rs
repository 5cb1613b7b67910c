//! Decimal digits of machine integers: how many there are, and the digit at
//! a position counted from the most significant one.

use vstd::arithmetic::power::{lemma_pow0, lemma_pow_adds, lemma_pow_increases, lemma_pow_positive, pow};
use vstd::prelude::*;

verus! {

/// Ten to the power `e`.
pub open spec fn pow10(e: nat) -> int {
    pow(10, e)
}

/// The number of decimal digits of `n`; zero has one digit.
pub open spec fn digit_count(n: nat) -> nat
    decreases n,
{
    if n < 10 {
        1
    } else {
        1 + digit_count(n / 10)
    }
}

/// The digit of `n` at position `k`, where position 1 is the most
/// significant digit. Zero has the digit 0 at every position.
pub open spec fn digit_at(n: nat, k: nat) -> int
    recommends
        1 <= k,
        n > 0 ==> k <= digit_count(n),
{
    if n == 0 {
        0
    } else {
        (n as int / pow10((digit_count(n) - k) as nat)) % 10
    }
}

/// The decimal digits of `n`, the most significant first.
pub open spec fn digits_of(n: nat) -> Seq<int> {
    Seq::new(digit_count(n), |i: int| digit_at(n, (i + 1) as nat))
}

/// The last `len` decimal digits of `v`, the most significant first; zeros
/// stand in front where `v` has fewer digits.
pub open spec fn padded_digits(v: nat, len: nat) -> Seq<int> {
    Seq::new(len, |i: int| (v as int / pow10((len - 1 - i) as nat)) % 10)
}

/// Powers of ten are positive, and the next one is ten times as large.
pub proof fn lemma_pow10_step(e: nat)
    ensures
        pow10(e) > 0,
        pow10(e + 1) == 10 * pow10(e),
        pow10(0) == 1,
{
    lemma_pow_positive(10, e);
    lemma_pow0(10);
    reveal(pow);
}

/// The powers of ten multiply as their exponents add.
pub proof fn lemma_pow10_adds(a: nat, b: nat)
    ensures
        pow10(a + b) == pow10(a) * pow10(b),
        pow10(a) > 0,
        pow10(b) > 0,
{
    lemma_pow_adds(10, a, b);
    lemma_pow_positive(10, a);
    lemma_pow_positive(10, b);
}

/// A larger exponent gives no smaller power of ten.
pub proof fn lemma_pow10_increases(a: nat, b: nat)
    requires
        a <= b,
    ensures
        0 < pow10(a) <= pow10(b),
{
    lemma_pow_increases(10, a, b);
    lemma_pow_positive(10, a);
}

/// A number lies below the power of ten of its digit count, and a positive
/// one reaches the power before.
pub proof fn lemma_digit_count_bounds(n: nat)
    ensures
        digit_count(n) >= 1,
        n < pow10(digit_count(n)),
        n > 0 ==> pow10((digit_count(n) - 1) as nat) <= n,
    decreases n,
{
    if n < 10 {
        lemma_pow10_step(0);
    } else {
        lemma_digit_count_bounds(n / 10);
        let d = digit_count(n / 10);
        lemma_pow10_step(d);
        lemma_pow10_step((d - 1) as nat);
    }
}

/// Padding a number to its own digit count gives its digits.
pub proof fn lemma_padded_to_own_length(v: nat)
    ensures
        padded_digits(v, digit_count(v)) == digits_of(v),
{
    let d = digit_count(v);
    assert forall|i: int| 0 <= i < d implies padded_digits(v, d)[i] == digits_of(v)[i] by {
        if v == 0 {
            lemma_pow10_step((d - 1 - i) as nat);
            assert(0int / pow10((d - 1 - i) as nat) == 0) by (nonlinear_arith)
                requires
                    pow10((d - 1 - i) as nat) > 0,
            ;
        }
    }
    assert(padded_digits(v, d) =~= digits_of(v));
}

/// Ten to the power `e`, where that fits the machine word.
pub fn power_of_ten(e: u32) -> (r: usize)
    requires
        pow10(e as nat) <= usize::MAX,
    ensures
        r == pow10(e as nat),
{
    let mut r: usize = 1;
    let mut i: u32 = 0;
    proof {
        lemma_pow10_step(0);
    }
    while i < e
        invariant
            i <= e,
            r == pow10(i as nat),
            pow10(e as nat) <= usize::MAX,
        decreases e - i,
    {
        proof {
            lemma_pow10_step(i as nat);
            lemma_pow10_increases((i + 1) as nat, e as nat);
        }
        r = r * 10;
        i = i + 1;
    }
    r
}

/// The number of decimal digits of `n`.
pub fn count_digits(n: usize) -> (d: u32)
    ensures
        d == digit_count(n as nat),
        1 <= d <= 20,
{
    let mut d: u32 = 1;
    let mut rest: usize = n;
    proof {
        lemma_pow10_step(0);
        assert(pow10((d - 1) as nat) == 1);
        assert(rest * 1 == n);
    }
    while rest >= 10
        invariant
            1 <= d <= 20,
            digit_count(n as nat) == d - 1 + digit_count(rest as nat),
            rest * pow10((d - 1) as nat) <= n,
        decreases rest,
    {
        proof {
            let p = pow10((d - 1) as nat);
            lemma_pow10_step((d - 1) as nat);
            assert((rest / 10) * (10 * p) <= rest * p) by (nonlinear_arith)
                requires
                    p > 0,
                    rest >= 0,
            ;
            if d == 20 {
                lemma_pow10_twenty();
                assert(10 * p <= rest * p) by (nonlinear_arith)
                    requires
                        p > 0,
                        rest >= 10,
                ;
                lemma_pow10_step(19);
            }
        }
        rest = rest / 10;
        d = d + 1;
    }
    d
}

/// Ten to the twentieth exceeds every machine word.
proof fn lemma_pow10_twenty()
    ensures
        pow10(20) > usize::MAX,
{
    reveal_with_fuel(pow, 21);
    assert(pow10(20) == 100000000000000000000int);
}

/// A machine word has at most twenty digits.
pub proof fn lemma_digit_count_of_word(n: usize)
    ensures
        1 <= digit_count(n as nat) <= 20,
{
    lemma_digit_count_bounds(n as nat);
    lemma_pow10_twenty();
    let d = digit_count(n as nat);
    if d > 20 {
        lemma_pow10_increases(20, (d - 1) as nat);
    }
}

/// The digit of `source` at position `digit`, counted from the most
/// significant digit, which has position 1.
pub fn extract_digit(source: usize, digit: u32) -> (r: usize)
    requires
        digit > 0,
        source > 0 ==> digit <= digit_count(source as nat),
    ensures
        r == digit_at(source as nat, digit as nat),
        r < 10,
{
    let offset: u32 = match source {
        0 => 0,
        s => count_digits(s) - digit,
    };
    proof {
        lemma_pow10_step(0);
        if source > 0 {
            lemma_digit_count_bounds(source as nat);
            lemma_pow10_increases(offset as nat, (digit_count(source as nat) - 1) as nat);
        }
    }
    (source / power_of_ten(offset)) % 10
}

} // verus!
