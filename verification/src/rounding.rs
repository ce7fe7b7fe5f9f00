//! The digit-by-digit rounding pass of decimal mode.
//!
//! Dropping the lowest decimal digit of an already-rounded value cannot
//! simply round again: a chain of trailing `5` digits must resolve
//! against the original value. The pass therefore carries a direction
//! flag (`-1`: the kept value is below the original, `0`: exact, `1`:
//! above). [`cascade_inv`] captures that state, [`lemma_cascade_step`]
//! shows one dropped digit preserves it, and the invariant itself pins
//! the kept value to [`rhe`] of the original: rounding digit by digit
//! equals one round-half-to-even against the original value.

use vstd::prelude::*;
use vstd::arithmetic::div_mod::{lemma_fundamental_div_mod, lemma_fundamental_div_mod_converse};
use crate::numeric::rhe;

verus! {

/// After dropping the digits below `m` of an original value `v`, the
/// kept value `r` is `v` rounded half-to-even at `m`, and `dir` records
/// which side of `v * 1/m` it lies on.
pub open spec fn cascade_inv(v: int, m: int, r: int, dir: int) -> bool {
    let q = v / m;
    let rm = v % m;
    if 2 * rm < m {
        r == q && dir == (if rm == 0 {
            0int
        } else {
            -1int
        })
    } else if 2 * rm > m {
        r == q + 1 && dir == 1
    } else if q % 2 == 0 {
        r == q && dir == -1
    } else {
        r == q + 1 && dir == 1
    }
}

/// The invariant pins the kept value: it is round-half-to-even of the
/// original at the dropped magnitude.
pub proof fn lemma_inv_is_rhe(v: int, m: int, r: int, dir: int)
    requires
        m >= 1,
        v >= 0,
        cascade_inv(v, m, r, dir),
    ensures
        r == rhe(v, m),
{
}

/// On an exact half, round-half-to-even keeps an even value: ties go to
/// the even neighbour.
pub proof fn lemma_tie_rounds_to_even(v: int, m: int)
    requires
        m >= 2,
        m % 2 == 0,
        v >= 0,
        2 * (v % m) == m,
    ensures
        rhe(v, m) % 2 == 0,
{
}

/// One step of the pass: dropping the lowest digit of the kept value,
/// with the direction rule of the source, preserves [`cascade_inv`] at
/// ten times the magnitude.
pub proof fn lemma_cascade_step(v: int, m: int, r: int, dir: int, r2: int, dir2: int)
    requires
        m >= 1,
        v >= 0,
        cascade_inv(v, m, r, dir),
        ({
            let d = r % 10;
            let q10 = r / 10;
            &&& r2 == (if d <= 4 {
                q10
            } else if d == 5 {
                if dir == 0 {
                    if q10 % 2 == 1 {
                        q10 + 1
                    } else {
                        q10
                    }
                } else if dir == -1 {
                    q10 + 1
                } else {
                    q10
                }
            } else {
                q10 + 1
            })
            &&& dir2 == (if d == 0 {
                dir
            } else if d <= 4 {
                -1int
            } else if d == 5 {
                if dir == 0 {
                    if q10 % 2 == 1 {
                        1int
                    } else {
                        -1int
                    }
                } else if dir == -1 {
                    1int
                } else {
                    -1int
                }
            } else {
                1int
            })
        }),
    ensures
        cascade_inv(v, 10 * m, r2, dir2),
{
    let q = v / m;
    let rm = v % m;
    let e = q % 10;
    let qq = q / 10;
    lemma_fundamental_div_mod(v, m);
    lemma_fundamental_div_mod(q, 10);
    // v = (10*m)*qq + (e*m + rm), with the parenthesized part in [0, 10*m)
    assert(0 <= e * m + rm < 10 * m) by (nonlinear_arith)
        requires
            0 <= e <= 9,
            0 <= rm < m,
    {
    }
    assert(v == (10 * m) * qq + (e * m + rm)) by (nonlinear_arith)
        requires
            v == m * q + rm,
            q == 10 * qq + e,
    {
    }
    lemma_fundamental_div_mod_converse(v, 10 * m, qq, e * m + rm);
    let rmm = e * m + rm;
    assert(v / (10 * m) == qq && v % (10 * m) == rmm);
    assert(q % 2 == e % 2) by (nonlinear_arith)
        requires
            q == 10 * qq + e,
            0 <= e <= 9,
    {
    }
    if 2 * rm < m || (2 * rm == m && q % 2 == 0) {
        // r == q: the kept value was not rounded up, and 2*rm <= m
        assert(r == q && 2 * rm <= m);
        assert(r % 10 == e && r / 10 == qq) by {
            lemma_fundamental_div_mod_converse(r, 10, qq, e);
        }
        if e <= 4 {
            assert(2 * rmm < 10 * m) by (nonlinear_arith)
                requires
                    rmm == e * m + rm,
                    0 <= e <= 4,
                    2 * rm <= m,
                    m >= 1,
            {
            }
            if e == 0 {
                assert(rmm == rm) by (nonlinear_arith)
                    requires
                        rmm == e * m + rm,
                        e == 0,
                {
                }
            } else {
                assert(rmm > 0) by (nonlinear_arith)
                    requires
                        rmm == e * m + rm,
                        e >= 1,
                        m >= 1,
                        rm >= 0,
                {
                }
            }
        } else if e == 5 {
            assert(2 * rmm == 10 * m + 2 * rm) by (nonlinear_arith)
                requires
                    rmm == 5 * m + rm,
            {
            }
            if rm == 0 {
                // exact tie at the larger magnitude: parity of qq decides
            } else {
                // already below the original: the tie resolves upward
                assert(2 * rmm > 10 * m);
            }
        } else {
            assert(2 * rmm > 10 * m) by (nonlinear_arith)
                requires
                    rmm == e * m + rm,
                    e >= 6,
                    m >= 1,
                    rm >= 0,
                    2 * rm <= m,
            {
            }
        }
    } else {
        // r == q + 1 and dir == 1: rounded up, with 2*rm >= m
        assert(r == q + 1 && dir == 1 && 2 * rm >= m && rm >= 1);
        if e <= 8 {
            assert(r == 10 * qq + (e + 1));
            assert(r % 10 == e + 1 && r / 10 == qq) by {
                lemma_fundamental_div_mod_converse(r, 10, qq, e + 1);
            }
            if e <= 3 {
                // dropped digit at most 4: strictly below half, nonzero
                assert(2 * rmm < 10 * m && rmm > 0) by (nonlinear_arith)
                    requires
                        rmm == e * m + rm,
                        0 <= e <= 3,
                        1 <= rm < m,
                        m >= 1,
                {
                }
            } else if e == 4 {
                // dropped digit 5 after a round-up: strictly below half
                assert(2 * rmm < 10 * m && rmm > 0) by (nonlinear_arith)
                    requires
                        rmm == 4 * m + rm,
                        1 <= rm < m,
                        m >= 1,
                {
                }
            } else {
                assert(2 * rmm > 10 * m) by (nonlinear_arith)
                    requires
                        rmm == e * m + rm,
                        e >= 5,
                        2 * rm >= m,
                        m >= 1,
                        2 * rm == m ==> e % 2 == 1,
                {
                }
            }
        } else {
            // e == 9: the increment carries into the next digit
            assert(r == 10 * (qq + 1) + 0);
            assert(r % 10 == 0 && r / 10 == qq + 1) by {
                lemma_fundamental_div_mod_converse(r, 10, qq + 1, 0);
            }
            assert(2 * rmm > 10 * m) by (nonlinear_arith)
                requires
                    rmm == 9 * m + rm,
                    2 * rm >= m,
                    m >= 1,
            {
            }
        }
    }
}

/// Bounds the rounded remainder: with fewer than twice as many binary
/// steps as decimal digits, rounding cannot reach the next whole unit.
pub proof fn lemma_rhe_upper(v: int, m: int, cap: int)
    requires
        m >= 1,
        cap >= 1,
        m < 2 * cap,
        0 <= v <= (m - 1) * cap,
    ensures
        0 <= rhe(v, m) < cap,
{
    lemma_fundamental_div_mod(v, m);
    vstd::arithmetic::div_mod::lemma_div_pos_is_pos(v, m);
    assert(v < m * cap) by (nonlinear_arith)
        requires
            v <= (m - 1) * cap,
            m >= 1,
            cap >= 1,
    {
    }
    crate::numeric::lemma_div_below(v, m, cap);
    let q = v / m;
    let rm = v % m;
    if q == cap - 1 {
        assert(rm <= m - cap) by (nonlinear_arith)
            requires
                v == m * q + rm,
                q == cap - 1,
                v <= (m - 1) * cap,
        {
        }
        assert(2 * rm < m);
    }
}

} // verus!
