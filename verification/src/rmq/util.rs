//! Small helpers shared by the structures: the minimum of a slice and the
//! integer logarithm with its powers of two.
use vstd::prelude::*;
use crate::rmq::range_min::{range_min, seq_min};

verus! {

/// Minimum of a slice, `u64::MAX` when it is empty.
pub fn min_of(xs: &[u64]) -> (m: u64)
    ensures
        m == seq_min(xs@),
{
    let mut m: u64 = u64::MAX;
    let mut i: usize = 0;
    while i < xs.len()
        invariant
            i <= xs@.len(),
            m == range_min(xs@, 0, i as int),
        decreases xs@.len() - i,
    {
        m = m.min(xs[i]);
        i = i + 1;
    }
    m
}

/// `2^k`.
pub open spec fn exp2(k: nat) -> nat
    decreases k,
{
    if k == 0 {
        1
    } else {
        2 * exp2((k - 1) as nat)
    }
}

/// `floor(log2(n))` for `n >= 1` (and 0 for `n <= 1`).
pub open spec fn log2(n: nat) -> nat
    decreases n,
{
    if n <= 1 {
        0
    } else {
        1 + log2(n / 2)
    }
}

/// `2^k` is positive.
pub proof fn lemma_exp2_positive(k: nat)
    ensures
        exp2(k) >= 1,
    decreases k,
{
    if k > 0 {
        lemma_exp2_positive((k - 1) as nat);
    }
}

/// `2^k` grows with `k`.
pub proof fn lemma_exp2_monotonic(a: nat, b: nat)
    requires
        a <= b,
    ensures
        1 <= exp2(a) <= exp2(b),
    decreases b,
{
    lemma_exp2_positive(a);
    if b > a {
        lemma_exp2_monotonic(a, (b - 1) as nat);
    }
}

/// `2^log2(n) <= n < 2^(log2(n) + 1)` for every `n >= 1`.
pub proof fn lemma_log2_bounds(n: nat)
    requires
        n >= 1,
    ensures
        exp2(log2(n)) <= n < exp2(log2(n) + 1),
    decreases n,
{
    if n > 1 {
        lemma_log2_bounds(n / 2);
        assert(exp2(log2(n)) == 2 * exp2(log2(n / 2)));
        assert(exp2(log2(n) + 1) == 2 * exp2(log2(n / 2) + 1));
    } else {
        assert(exp2(1) == 2 * exp2(0));
    }
}

/// A power of two no larger than `n` has an exponent of at most `log2(n)`.
pub proof fn lemma_log2_is_largest(n: nat, k: nat)
    requires
        exp2(k) <= n,
    ensures
        k <= log2(n),
{
    lemma_exp2_monotonic(0, k);
    lemma_log2_bounds(n);
    if k > log2(n) {
        lemma_exp2_monotonic(log2(n) + 1, k);
    }
}

/// Our `2^k` is vstd's `pow2(k)`.
pub proof fn lemma_exp2_is_pow2(k: nat)
    ensures
        exp2(k) == vstd::arithmetic::power2::pow2(k),
    decreases k,
{
    if k == 0 {
        vstd::arithmetic::power2::lemma2_to64();
    } else {
        lemma_exp2_is_pow2((k - 1) as nat);
        vstd::arithmetic::power2::lemma_pow2_unfold(k);
    }
}

/// `1 << k` is `2^k` when it fits.
pub proof fn lemma_shl_is_exp2(k: usize)
    requires
        exp2(k as nat) <= usize::MAX,
    ensures
        k < usize::BITS,
        (1usize << k) == exp2(k as nat),
{
    lemma_exp2_is_pow2(k as nat);
    if k >= usize::BITS {
        lemma_exp2_monotonic(usize::BITS as nat, k as nat);
        lemma_exp2_is_pow2(usize::BITS as nat);
        vstd::arithmetic::power2::lemma2_to64();
        assert(false);
    }
    vstd::bits::lemma_usize_shl_is_mul(1, k);
}

/// `floor(log2(x))`, as `usize::ilog2` computes it.
pub fn ilog2(x: usize) -> (k: usize)
    requires
        x >= 1,
    ensures
        k == log2(x as nat),
        exp2(k as nat) <= x < exp2(k as nat + 1),
        k < 64,
{
    let mut y: usize = x;
    let mut k: usize = 0;
    assert(exp2(0) == 1);
    while y > 1
        invariant
            1 <= y <= x,
            k + log2(y as nat) == log2(x as nat),
            k <= 64,
            exp2(k as nat) * y <= x,
        decreases y,
    {
        proof {
            assert(exp2(k as nat + 1) * (y / 2) <= exp2(k as nat) * y) by (nonlinear_arith)
                requires exp2(k as nat + 1) == 2 * exp2(k as nat);
            lemma_exp2_monotonic(0, k as nat);
            if k >= 64 {
                lemma_exp2_monotonic(64, k as nat);
                lemma_exp2_is_pow2(64);
                vstd::arithmetic::power2::lemma2_to64_rest();
                assert(exp2(k as nat) * y >= exp2(k as nat)) by (nonlinear_arith)
                    requires y >= 1;
                assert(false);
            }
        }
        y = y / 2;
        k = k + 1;
    }
    proof {
        lemma_log2_bounds(x as nat);
        if k >= 64 {
            lemma_exp2_monotonic(64, k as nat);
            lemma_exp2_is_pow2(64);
            vstd::arithmetic::power2::lemma2_to64_rest();
        }
    }
    k
}

/// The character of a decimal digit.
pub open spec fn digit_char(d: nat) -> char {
    if d == 0 { '0' }
    else if d == 1 { '1' }
    else if d == 2 { '2' }
    else if d == 3 { '3' }
    else if d == 4 { '4' }
    else if d == 5 { '5' }
    else if d == 6 { '6' }
    else if d == 7 { '7' }
    else if d == 8 { '8' }
    else { '9' }
}

/// The decimal digits of `n`, most significant first, without leading zeros.
pub open spec fn decimal(n: nat) -> Seq<char>
    decreases n,
{
    if n < 10 {
        seq![digit_char(n)]
    } else {
        decimal(n / 10).push(digit_char(n % 10))
    }
}

/// The character of a digit `d < 10`, as a string.
fn digit_str(d: usize) -> (r: &'static str)
    requires
        d < 10,
    ensures
        r@ == seq![digit_char(d as nat)],
{
    if d == 0 {
        proof {
            reveal_strlit("0");
        }
        "0"
    } else if d == 1 {
        proof {
            reveal_strlit("1");
        }
        "1"
    } else if d == 2 {
        proof {
            reveal_strlit("2");
        }
        "2"
    } else if d == 3 {
        proof {
            reveal_strlit("3");
        }
        "3"
    } else if d == 4 {
        proof {
            reveal_strlit("4");
        }
        "4"
    } else if d == 5 {
        proof {
            reveal_strlit("5");
        }
        "5"
    } else if d == 6 {
        proof {
            reveal_strlit("6");
        }
        "6"
    } else if d == 7 {
        proof {
            reveal_strlit("7");
        }
        "7"
    } else if d == 8 {
        proof {
            reveal_strlit("8");
        }
        "8"
    } else {
        proof {
            reveal_strlit("9");
        }
        "9"
    }
}

/// The decimal digits of `n` as a string, as `Display` writes a `usize`.
fn decimal_string(n: usize) -> (r: String)
    ensures
        r@ == decimal(n as nat),
    decreases n,
{
    if n < 10 {
        String::from_str(digit_str(n))
    } else {
        let mut r = decimal_string(n / 10);
        r.append(digit_str(n % 10));
        r
    }
}

/// `base<s>`, the name of a structure with block size `s`.
pub(crate) fn sized_name(base: &str, s: usize) -> (r: String)
    ensures
        r@ == base@ + seq!['<'] + decimal(s as nat) + seq!['>'],
{
    let digits = decimal_string(s);
    let mut r = String::from_str(base);
    r.append("<");
    r.append(digits.as_str());
    r.append(">");
    proof {
        reveal_strlit("<");
        reveal_strlit(">");
    }
    r
}

/// The digit `d` is written as the character with code `0x30 + d`
/// (`'0'` to `'9'`).
pub proof fn lemma_digit_char_code(d: nat)
    requires
        d < 10,
    ensures
        digit_char(d) as u32 == 0x30 + d,
{
}

/// `decimal(n)` spells `n` in base ten: only the characters `'0'` to `'9'`,
/// the last one the digit `n % 10`, before it the spelling of `n / 10` (or
/// nothing when `n < 10`), and a leading `'0'` only for `n == 0`.
pub proof fn lemma_decimal_spelling(n: nat)
    ensures
        decimal(n).len() >= 1,
        forall|i: int| 0 <= i < decimal(n).len() ==> 0x30 <= #[trigger] (decimal(n)[i] as u32) <= 0x39,
        decimal(n).last() as u32 == 0x30 + n % 10,
        n < 10 ==> decimal(n).len() == 1,
        n >= 10 ==> decimal(n).drop_last() == decimal(n / 10),
        decimal(n)[0] as u32 == 0x30 ==> n == 0,
    decreases n,
{
    if n >= 10 {
        lemma_decimal_spelling(n / 10);
        assert(decimal(n)[0] == decimal(n / 10)[0]);
    }
}

} // verus!
