//! Powers of 10 and 1024, decimal digit sequences, and the
//! round-half-to-even division that the formatter is specified with.

use vstd::prelude::*;

verus! {

/// 10 to the power `e`.
pub open spec fn pow10(e: nat) -> nat
    decreases e,
{
    if e == 0 {
        1
    } else {
        10 * pow10((e - 1) as nat)
    }
}

/// 1024 to the power `l`: the size of one unit of binary-prefix level `l`
/// in bytes per second.
pub open spec fn pow1024(l: nat) -> nat
    decreases l,
{
    if l == 0 {
        1
    } else {
        1024 * pow1024((l - 1) as nat)
    }
}

pub proof fn lemma_pow10_pos(e: nat)
    ensures
        pow10(e) >= 1,
    decreases e,
{
    if e > 0 {
        lemma_pow10_pos((e - 1) as nat);
    }
}

pub proof fn lemma_pow1024_pos(l: nat)
    ensures
        pow1024(l) >= 1,
    decreases l,
{
    if l > 0 {
        lemma_pow1024_pos((l - 1) as nat);
    }
}

/// Executable power of 10; the exponents the parser needs stay within `u64`.
pub fn pow10_u64(e: u32) -> (r: u64)
    requires
        e <= 19,
    ensures
        r == pow10(e as nat),
{
    let mut r: u64 = 1;
    let mut i: u32 = 0;
    while i < e
        invariant
            i <= e <= 19,
            r == pow10(i as nat),
        decreases e - i,
    {
        proof {
            lemma_pow10_mono(i as nat, 18);
            reveal_with_fuel(pow10, 20);
            assert(pow10(18) == 1_000_000_000_000_000_000);
        }
        r = r * 10;
        i = i + 1;
    }
    r
}

/// `pow10` grows with its exponent.
pub proof fn lemma_pow10_mono(a: nat, b: nat)
    requires
        a <= b,
    ensures
        pow10(a) <= pow10(b),
    decreases b,
{
    if a < b {
        lemma_pow10_mono(a, (b - 1) as nat);
        lemma_pow10_pos((b - 1) as nat);
    }
}

/// Executable power of 1024; level 4 (tebi) is the largest used.
pub fn pow1024_u64(l: u32) -> (r: u64)
    requires
        l <= 4,
    ensures
        r == pow1024(l as nat),
{
    let mut r: u64 = 1;
    let mut i: u32 = 0;
    while i < l
        invariant
            i <= l <= 4,
            r == pow1024(i as nat),
        decreases l - i,
    {
        proof {
            lemma_pow1024_mono(i as nat, 3);
            reveal_with_fuel(pow1024, 5);
            assert(pow1024(3) == 0x4000_0000);
        }
        r = r * 1024;
        i = i + 1;
    }
    r
}

/// `pow1024` grows with its exponent.
pub proof fn lemma_pow1024_mono(a: nat, b: nat)
    requires
        a <= b,
    ensures
        pow1024(a) <= pow1024(b),
    decreases b,
{
    if a < b {
        lemma_pow1024_mono(a, (b - 1) as nat);
        lemma_pow1024_pos((b - 1) as nat);
    }
}

/// If `0 <= a < d * b` then `a / d < b`.
pub proof fn lemma_div_below(a: int, d: int, b: int)
    requires
        d >= 1,
        0 <= a,
        a < d * b,
    ensures
        a / d < b,
{
    vstd::arithmetic::div_mod::lemma_fundamental_div_mod(a, d);
    assert(a / d < b) by (nonlinear_arith)
        requires
            d >= 1,
            a == d * (a / d) + a % d,
            0 <= a % d < d,
            a < d * b,
    {
    }
}

/// Division of `v` by `m`, rounded to the nearest integer with ties going
/// to the even quotient.
pub open spec fn rhe(v: int, m: int) -> int
    recommends
        v >= 0,
        m >= 1,
{
    let q = v / m;
    let r = v % m;
    if 2 * r > m || (2 * r == m && q % 2 == 1) {
        q + 1
    } else {
        q
    }
}

/// The decimal digit sequence of `n`, most significant digit first,
/// without leading zeros (`0` is written as a single `'0'`).
pub open spec fn dec_rep(n: nat) -> Seq<char>
    decreases n,
{
    if n < 10 {
        seq![digit_char(n as int)]
    } else {
        dec_rep(n / 10).push(digit_char((n % 10) as int))
    }
}

/// The character for one decimal digit.
pub open spec fn digit_char(d: int) -> char {
    if d == 0 {
        '0'
    } else if d == 1 {
        '1'
    } else if d == 2 {
        '2'
    } else if d == 3 {
        '3'
    } else if d == 4 {
        '4'
    } else if d == 5 {
        '5'
    } else if d == 6 {
        '6'
    } else if d == 7 {
        '7'
    } else if d == 8 {
        '8'
    } else {
        '9'
    }
}

/// A number below `10^e` has at most `e` decimal digits.
pub proof fn lemma_dec_rep_len_le(n: nat, e: nat)
    requires
        n < pow10(e),
        e >= 1,
    ensures
        dec_rep(n).len() <= e,
    decreases e,
{
    if n >= 10 {
        assert(pow10(e) == 10 * pow10((e - 1) as nat));
        lemma_div_below(n as int, 10, pow10((e - 1) as nat) as int);
        if e == 1 {
            lemma_pow10_pos(0);
            assert(false);
        }
        lemma_dec_rep_len_le(n / 10, (e - 1) as nat);
    }
}

/// A single decimal digit as a string slice.
pub fn digit_str(d: u64) -> (r: &'static str)
    requires
        d < 10,
    ensures
        r@ == seq![digit_char(d as int)],
{
    proof {
        reveal_strlit("0");
        reveal_strlit("1");
        reveal_strlit("2");
        reveal_strlit("3");
        reveal_strlit("4");
        reveal_strlit("5");
        reveal_strlit("6");
        reveal_strlit("7");
        reveal_strlit("8");
        reveal_strlit("9");
    }
    let r = if d == 0 {
        "0"
    } else if d == 1 {
        "1"
    } else if d == 2 {
        "2"
    } else if d == 3 {
        "3"
    } else if d == 4 {
        "4"
    } else if d == 5 {
        "5"
    } else if d == 6 {
        "6"
    } else if d == 7 {
        "7"
    } else if d == 8 {
        "8"
    } else {
        "9"
    };
    proof {
        assert(r@ =~= seq![digit_char(d as int)]);
    }
    r
}

/// Renders `n` in decimal.
pub fn u64_to_string(n: u64) -> (r: String)
    ensures
        r@ == dec_rep(n as nat),
    decreases n,
{
    if n < 10 {
        String::from_str(digit_str(n))
    } else {
        let mut s = u64_to_string(n / 10);
        s.append(digit_str(n % 10));
        proof {
            assert(s@ =~= dec_rep(n as nat));
        }
        s
    }
}

} // verus!
