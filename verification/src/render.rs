//! The unit-decomposer/renderer: turns a `Bandwidth` back into text in
//! the binary prefix system.
//!
//! Both display modes first round the magnitude to whole bytes per second
//! (`(bits + 4) / 8`) and split that into base-1024 components, largest
//! unit first. Itemized mode prints every nonzero component; decimal mode
//! prints the largest nonzero component with a decimal fraction for
//! everything below it, rounding half to even.

use vstd::prelude::*;
use vstd::arithmetic::div_mod::{
    lemma_fundamental_div_mod, lemma_fundamental_div_mod_converse, lemma_mod_mod,
};
use vstd::arithmetic::mul::lemma_mul_inequality;
use bandwidth::Bandwidth;
use crate::bwext::bw_bits;
use crate::numeric::{
    pow10, pow1024, rhe, dec_rep, pow10_u64, pow1024_u64, u64_to_string, lemma_pow10_pos,
    lemma_pow1024_pos, lemma_pow10_mono, lemma_pow1024_mono,
};
use crate::units::{unit_name, unit_name_str};

verus! {

/// The whole bytes per second a magnitude is displayed as: rounded from
/// bits at the single-bit granularity, half up.
pub open spec fn total_bytes(bits: nat) -> nat {
    (bits + 4) / 8
}

/// The base-1024 component of `bytes` at unit level `j`; level 4 keeps
/// everything above it.
pub open spec fn comp_at(bytes: nat, j: int) -> nat {
    if j >= 4 {
        bytes / pow1024(4)
    } else {
        (bytes % pow1024((j + 1) as nat)) / pow1024(j as nat)
    }
}

/// The anchor: the largest unit level with a nonzero component (level 0
/// when the value is zero).
pub open spec fn anchor(bytes: nat) -> int {
    if comp_at(bytes, 4) > 0 {
        4
    } else if comp_at(bytes, 3) > 0 {
        3
    } else if comp_at(bytes, 2) > 0 {
        2
    } else if comp_at(bytes, 1) > 0 {
        1
    } else {
        0
    }
}

/// The nonzero components at levels `j` and below, largest first, as
/// `(level, count)` pairs.
pub open spec fn item_list_from(bytes: nat, j: int) -> Seq<(int, nat)>
    decreases j + 1,
{
    if j < 0 {
        Seq::empty()
    } else if comp_at(bytes, j) > 0 {
        seq![(j, comp_at(bytes, j))] + item_list_from(bytes, j - 1)
    } else {
        item_list_from(bytes, j - 1)
    }
}

/// All nonzero components of `bytes`, largest first.
pub open spec fn item_list(bytes: nat) -> Seq<(int, nat)> {
    item_list_from(bytes, 4)
}

/// The text of a list of components; after the first one, every item is
/// preceded by a single space.
pub open spec fn render_rest(items: Seq<(int, nat)>, started: bool) -> Seq<char>
    decreases items.len(),
{
    if items.len() == 0 {
        Seq::empty()
    } else {
        (if started {
            " "@
        } else {
            Seq::<char>::empty()
        }) + dec_rep(items[0].1) + unit_name(items[0].0) + render_rest(items.drop_first(), true)
    }
}

/// What itemized rendering of a magnitude means.
pub open spec fn fmt_integer_spec(bits: nat) -> Seq<char> {
    if bits == 0 {
        "0B/s"@
    } else {
        render_rest(item_list(total_bytes(bits)), false)
    }
}

/// The requested precision, as the specification sees it.
pub open spec fn prec_view(p: Option<usize>) -> Option<int> {
    match p {
        Some(x) => Some(x as int),
        None => None,
    }
}

/// `k` zero characters.
pub open spec fn zero_pad(k: nat) -> Seq<char>
    decreases k,
{
    if k == 0 {
        Seq::empty()
    } else {
        zero_pad((k - 1) as nat) + seq!['0']
    }
}

/// The decimal digits of `n`, left-padded with zeros to width `w`.
pub open spec fn pad_dec(n: nat, w: nat) -> Seq<char> {
    if dec_rep(n).len() >= w {
        dec_rep(n)
    } else {
        zero_pad((w - dec_rep(n).len()) as nat) + dec_rep(n)
    }
}

/// Removes trailing decimal zeros of `n`, narrowing the width with them.
pub open spec fn strip_zeros(n: nat, z: nat) -> (nat, nat)
    decreases n,
{
    if n > 0 && n % 10 == 0 {
        strip_zeros(
            n / 10,
            if z > 0 {
                (z - 1) as nat
            } else {
                0
            },
        )
    } else {
        (n, z)
    }
}

/// What decimal rendering of a magnitude means: the anchor component,
/// then everything below it as a decimal fraction, rounded half-to-even
/// at the base-1024 boundary and (under a requested precision) again at
/// the dropped decimal digits — both roundings relative to the exact
/// value. A precision rounding that carries out of the fraction
/// increments the integer part.
pub open spec fn decimal_tail(value: nat, rem1: int, zeros: int, idx: int, prec: Option<
    int,
>) -> Seq<char> {
    match prec {
        Some(p) => {
            let k = if p < zeros {
                (zeros - p) as nat
            } else {
                0
            };
            let rem2 = rhe(rem1, pow10(k) as int);
            let zeros2 = zeros - k;
            if p == 0 && rem2 > 0 {
                dec_rep((value + rem2) as nat) + unit_name(idx)
            } else if zeros2 != 0 && rem2 == pow10(zeros2 as nat) {
                // the rounding carried out of the fraction: it increments
                // the integer part, and the fraction is all zeros
                dec_rep((value + 1) as nat) + "."@ + pad_dec(0, zeros2 as nat) + unit_name(idx)
            } else if zeros2 != 0 || rem2 != 0 {
                dec_rep(value) + "."@ + pad_dec(rem2 as nat, zeros2 as nat) + unit_name(idx)
            } else {
                dec_rep(value) + unit_name(idx)
            }
        },
        None => {
            if rem1 != 0 {
                let sz = strip_zeros(rem1 as nat, zeros as nat);
                dec_rep(value) + "."@ + pad_dec(sz.0, sz.1) + unit_name(idx)
            } else {
                dec_rep(value) + unit_name(idx)
            }
        },
    }
}

pub open spec fn fmt_decimal_spec(bits: nat, prec: Option<int>) -> Seq<char> {
    if bits == 0 {
        "0B/s"@
    } else {
        let bytes = total_bytes(bits);
        let idx = anchor(bytes);
        decimal_tail(
            comp_at(bytes, idx),
            rhe(
                ((bytes % pow1024(idx as nat)) * pow10((3 * idx) as nat)) as int,
                pow1024(idx as nat) as int,
            ),
            3 * idx,
            idx,
            prec,
        )
    }
}

/// A wrapper that renders a [`Bandwidth`] in the binary prefix system.
#[derive(Clone)]
pub struct FormattedBinaryBandwidth(pub Bandwidth);

/// Wraps a magnitude for display.
pub fn format_binary_bandwidth(val: Bandwidth) -> (r: FormattedBinaryBandwidth)
    ensures
        r.0 == val,
{
    FormattedBinaryBandwidth(val)
}

/// The five base-1024 components of a byte count, smallest first, plus
/// the facts the rendering needs about them.
fn decompose(b: &Bandwidth) -> (r: (u64, u64, u64, u64, u64, u128))
    ensures
        r.0 == comp_at(total_bytes(bw_bits(*b)), 0),
        r.1 == comp_at(total_bytes(bw_bits(*b)), 1),
        r.2 == comp_at(total_bytes(bw_bits(*b)), 2),
        r.3 == comp_at(total_bytes(bw_bits(*b)), 3),
        r.4 == comp_at(total_bytes(bw_bits(*b)), 4),
        r.0 < 1024 && r.1 < 1024 && r.2 < 1024 && r.3 < 1024,
        r.4 < 0x8_0000_0000_0000,
        r.5 == total_bytes(bw_bits(*b)),
        r.5 < 0x8_0000_0000_0000_0000_0000_0000,
{
    let g = b.as_gbps();
    let sub = b.subgbps_bps();
    proof {
        lemma_fundamental_div_mod(bw_bits(*b) as int, 1_000_000_000);
    }
    proof {
        lemma_mul_inequality(g as int, u64::MAX as int, 1_000_000_000);
    }
    let bits: u128 = (g as u128) * 1_000_000_000 + (sub as u128);
    let bytes: u128 = (bits + 4) / 8;
    let ghost by = total_bytes(bw_bits(*b));
    proof {
        reveal_with_fuel(pow1024, 5);
        assert(pow1024(4) == 0x100_0000_0000);
        assert(pow1024(3) == 0x4000_0000);
        assert(pow1024(2) == 0x10_0000);
        assert(pow1024(1) == 1024);
        assert(by == bytes);
        crate::numeric::lemma_div_below(
            bits as int + 4,
            8,
            0x8_0000_0000_0000_0000_0000_0000,
        );
        crate::numeric::lemma_div_below(bytes as int, 0x100_0000_0000, 0x8_0000_0000_0000);
    }
    let t4 = (bytes / 0x100_0000_0000) as u64;
    let r4 = (bytes % 0x100_0000_0000) as u64;
    let t3 = r4 / 0x4000_0000;
    let r3 = r4 % 0x4000_0000;
    let t2 = r3 / 0x10_0000;
    let r2 = r3 % 0x10_0000;
    let t1 = r2 / 1024;
    let t0 = r2 % 1024;
    proof {
        reveal_with_fuel(pow1024, 5);
        lemma_mod_mod(by as int, 0x4000_0000, 1024);
        lemma_mod_mod(by as int, 0x10_0000, 1024);
        lemma_mod_mod(by as int, 1024, 1024);
        assert(r3 == by % 0x4000_0000);
        assert(r2 == by % 0x10_0000);
        assert(t0 == by % 1024);
        assert((by as int % 1024) / 1 == by as int % 1024);
    }
    (t0, t1, t2, t3, t4, bytes)
}

impl FormattedBinaryBandwidth {
    /// Renders every nonzero component, largest unit first, separated by
    /// single spaces; a zero magnitude renders as `"0B/s"`.
    pub fn fmt_integer(&self) -> (r: String)
        ensures
            r@ == fmt_integer_spec(bw_bits(self.0)),
    {
        let g = self.0.as_gbps();
        let sub = self.0.subgbps_bps();
        if g == 0 && sub == 0 {
            proof {
                lemma_fundamental_div_mod(bw_bits(self.0) as int, 1_000_000_000);
            }
            return String::from_str("0B/s");
        }
        proof {
            assert(bw_bits(self.0) != 0);
        }
        let (t0, t1, t2, t3, t4, _bytes) = decompose(&self.0);
        let ghost by = total_bytes(bw_bits(self.0));
        let mut out = String::new();
        let mut started = false;
        let mut jj: usize = 5;
        while jj > 0
            invariant
                jj <= 5,
                t0 == comp_at(by, 0) && t1 == comp_at(by, 1) && t2 == comp_at(by, 2) && t3
                    == comp_at(by, 3) && t4 == comp_at(by, 4),
                render_rest(item_list(by), false) == out@ + render_rest(
                    item_list_from(by, jj as int - 1),
                    started,
                ),
                !started ==> out@ == Seq::<char>::empty(),
            decreases jj,
        {
            jj = jj - 1;
            let j = jj;
            let v: u64 = if j == 4 {
                t4
            } else if j == 3 {
                t3
            } else if j == 2 {
                t2
            } else if j == 1 {
                t1
            } else {
                t0
            };
            if v > 0 {
                let ghost before = out@;
                if started {
                    out.append(" ");
                }
                let num = u64_to_string(v);
                out.append(num.as_str());
                out.append(unit_name_str(j as u32));
                proof {
                    let items = item_list_from(by, j as int);
                    assert(items == seq![(j as int, v as nat)] + item_list_from(by, j as int - 1));
                    assert(items[0] == (j as int, v as nat));
                    assert(items.drop_first() =~= item_list_from(by, j as int - 1));
                    assert(out@ + render_rest(item_list_from(by, j as int - 1), true) =~= before
                        + render_rest(items, started));
                }
                started = true;
            }
        }
        proof {
            assert(render_rest(item_list_from(by, -1), started) == Seq::<char>::empty());
            assert(out@ =~= render_rest(item_list(by), false));
        }
        out
    }

    /// Renders the largest nonzero component with a decimal fraction for
    /// everything below it. Without a requested precision the fraction is
    /// exact with trailing zeros stripped; under one, the dropped decimal
    /// digits round half-to-even against the exact value, and a rounding
    /// that carries out of the fraction increments the integer part; a
    /// zero magnitude renders as `"0B/s"` either way.
    #[verifier::rlimit(100)]
    pub fn fmt_decimal(&self, precision: Option<usize>) -> (r: String)
        ensures
            r@ == fmt_decimal_spec(bw_bits(self.0), prec_view(precision)),
    {
        let g = self.0.as_gbps();
        let sub = self.0.subgbps_bps();
        if g == 0 && sub == 0 {
            proof {
                lemma_fundamental_div_mod(bw_bits(self.0) as int, 1_000_000_000);
            }
            return String::from_str("0B/s");
        }
        proof {
            assert(bw_bits(self.0) != 0);
        }
        let (t0, t1, t2, t3, t4, bytes) = decompose(&self.0);
        let ghost by = total_bytes(bw_bits(self.0));
        let idx: u32 = if t4 > 0 {
            4
        } else if t3 > 0 {
            3
        } else if t2 > 0 {
            2
        } else if t1 > 0 {
            1
        } else {
            0
        };
        proof {
            assert(idx as int == anchor(by));
        }
        let value0: u64 = if idx == 4 {
            t4
        } else if idx == 3 {
            t3
        } else if idx == 2 {
            t2
        } else if idx == 1 {
            t1
        } else {
            t0
        };
        let rem: u128 = anchor_fraction(bytes, idx);
        let r = render_tail(value0, rem, 3 * idx, idx, precision);
        proof {
            assert(r@ == fmt_decimal_spec(bw_bits(self.0), prec_view(precision)));
        }
        r
    }
}

/// Renders the anchor component and the rounded fraction under the
/// requested precision (or exactly, with trailing zeros stripped).
#[verifier::rlimit(100)]
fn render_tail(value0: u64, rem_in: u128, zeros0: u32, idx: u32, precision: Option<usize>) -> (r:
    String)
    requires
        idx <= 4,
        zeros0 == 3 * idx,
        value0 < 0x8_0000_0000_0000,
        rem_in < pow10(zeros0 as nat),
    ensures
        r@ == decimal_tail(
            value0 as nat,
            rem_in as int,
            zeros0 as int,
            idx as int,
            prec_view(precision),
        ),
{
    let ghost srem1 = rem_in as int;
    let mut rem: u128 = rem_in;
    let mut zeros: u32 = zeros0;
    let mut value: u64 = value0;
    proof {
        lemma_pow10_mono(zeros0 as nat, 12);
        reveal_with_fuel(pow10, 13);
        assert(pow10(12) == 1_000_000_000_000);
        assert(rem < 1_000_000_000_000);
    }
    match precision {
        Some(p) => {
            let rz = cascade_round(rem, zeros, p);
            rem = rz.0;
            zeros = rz.1;
            if p == 0 && rem > 0 {
                proof {
                    assert(zeros == 0);
                    crate::numeric::lemma_div_below(
                        srem1,
                        pow10(zeros0 as nat) as int,
                        1,
                    );
                    assert(rem as int <= 1);
                }
                value = value + (rem as u64);
                rem = 0;
                render_decimal(value, 0, zeros, idx)
            } else {
                let bound = pow10_u64(zeros);
                if zeros != 0 && rem == bound as u128 {
                    value = value + 1;
                    render_decimal(value, 0, zeros, idx)
                } else {
                    render_decimal(value, rem as u64, zeros, idx)
                }
            }
        },
        None => {
            if rem != 0 {
                while rem % 10 == 0
                    invariant
                        rem > 0,
                        zeros <= zeros0 <= 12,
                        rem < pow10(zeros as nat),
                        strip_zeros(rem as nat, zeros as nat) == strip_zeros(
                            srem1 as nat,
                            zeros0 as nat,
                        ),
                    decreases rem,
                {
                    proof {
                        assert(zeros >= 1) by {
                            reveal_with_fuel(pow10, 2);
                        }
                        assert(pow10(zeros as nat) == 10 * pow10((zeros - 1) as nat));
                        crate::numeric::lemma_div_below(
                            rem as int,
                            10,
                            pow10((zeros - 1) as nat) as int,
                        );
                    }
                    rem = rem / 10;
                    zeros = zeros - 1;
                }
                proof {
                    lemma_pow10_mono(zeros as nat, 12);
                }
                render_decimal(value, rem as u64, zeros, idx)
            } else {
                render_decimal(value, 0, 0, idx)
            }
        },
    }
}

/// Round-half-to-even division by an even power of two, the way the
/// renderer computes it: add half, divide, and take the tie back when it
/// landed on an odd quotient.
fn rhe_pow2(scaled: u128, m: u64) -> (r: u128)
    requires
        m >= 2,
        m % 2 == 0,
        scaled < 0x1_0000_0000_0000_0000_0000_0000,
    ensures
        r as int == rhe(scaled as int, m as int),
        r <= scaled,
{
    let rounding: u64 = m / 2;
    let loss: u128 = scaled % (m as u128);
    let mut rem = (scaled + rounding as u128) / (m as u128);
    proof {
        let v = scaled as int;
        let mi = m as int;
        let q = v / mi;
        let rm = v % mi;
        lemma_fundamental_div_mod(v, mi);
        if rm < mi / 2 {
            lemma_fundamental_div_mod_converse(v + mi / 2, mi, q, rm + mi / 2);
        } else {
            assert(v + mi / 2 == mi * (q + 1) + (rm + mi / 2 - mi)) by (nonlinear_arith)
                requires
                    v == mi * q + rm,
            {
            }
            lemma_fundamental_div_mod_converse(v + mi / 2, mi, q + 1, rm + mi / 2 - mi);
        }
        assert(2 * q <= v) by (nonlinear_arith)
            requires
                v == mi * q + rm,
                mi >= 2,
                rm >= 0,
                q >= 0,
        {
        }
    }
    if loss == rounding as u128 && rem % 2 == 1 {
        rem = rem - 1;
    }
    rem
}

/// The precision pass: drops decimal digits of `rem_in` one at a time,
/// half-to-even against the original value, until at most `p` remain of
/// the `zeros0` fractional digits. Returns the rounded remainder and the
/// width that is left.
fn cascade_round(rem_in: u128, zeros0: u32, p: usize) -> (r: (u128, u32))
    requires
        zeros0 <= 12,
        rem_in < pow10(zeros0 as nat),
    ensures
        r.1 as int == (if (p as int) < zeros0 as int {
            p as int
        } else {
            zeros0 as int
        }),
        r.0 as int == rhe(rem_in as int, pow10((zeros0 - r.1) as nat) as int),
        r.0 <= rem_in,
{
    let ghost v = rem_in as int;
    let mut rem = rem_in;
    let mut zeros = zeros0;
    let mut dir: i8 = 0;
    proof {
        lemma_fundamental_div_mod_converse(v, 1, v, 0);
        assert(crate::rounding::cascade_inv(v, pow10(0) as int, rem as int, 0));
    }
    while p < zeros as usize
        invariant
            zeros <= zeros0 <= 12,
            v == rem_in < pow10(zeros0 as nat),
            0 <= rem as int <= v,
            dir == 0 || dir == 1 || dir == -1,
            crate::rounding::cascade_inv(
                v,
                pow10((zeros0 - zeros) as nat) as int,
                rem as int,
                dir as int,
            ),
            (p as int) < zeros0 as int ==> zeros as int >= p as int,
            (p as int) >= zeros0 as int ==> zeros == zeros0,
        decreases zeros,
    {
        let d = (rem % 10) as u32;
        let q10 = rem / 10;
        let ghost old_rem = rem as int;
        let ghost old_dir = dir as int;
        if d == 0 {
            rem = q10;
        } else if d <= 4 {
            rem = q10;
            dir = -1;
        } else if d == 5 {
            if dir == 0 {
                if q10 % 2 == 1 {
                    rem = q10 + 1;
                    dir = 1;
                } else {
                    rem = q10;
                    dir = -1;
                }
            } else if dir == -1 {
                rem = q10 + 1;
                dir = 1;
            } else {
                rem = q10;
                dir = -1;
            }
        } else {
            rem = q10 + 1;
            dir = 1;
        }
        proof {
            let k = (zeros0 - zeros) as nat;
            lemma_pow10_pos(k);
            assert(pow10(k + 1) == 10 * pow10(k));
            crate::rounding::lemma_cascade_step(
                v,
                pow10(k) as int,
                old_rem,
                old_dir,
                rem as int,
                dir as int,
            );
            assert(rem as int <= v) by {
                let m2 = pow10(k + 1) as int;
                lemma_fundamental_div_mod(v, m2);
                assert(2 * (v / m2) <= v) by (nonlinear_arith)
                    requires
                        v == m2 * (v / m2) + v % m2,
                        m2 >= 10,
                        v % m2 >= 0,
                        v / m2 >= 0,
                {
                }
            }
        }
        zeros = zeros - 1;
    }
    proof {
        let k = (zeros0 - zeros) as nat;
        lemma_pow10_pos(k);
        crate::rounding::lemma_inv_is_rhe(v, pow10(k) as int, rem as int, dir as int);
    }
    (rem, zeros)
}

/// The decimal fraction below the anchor: everything under unit level
/// `idx`, rescaled to `3 * idx` decimal digits with the binary shift
/// rounded half to even.
fn anchor_fraction(bytes: u128, idx: u32) -> (r: u128)
    requires
        idx <= 4,
        bytes < 0x8_0000_0000_0000_0000_0000_0000,
    ensures
        r as int == rhe(
            ((bytes as nat % pow1024(idx as nat)) * pow10((3 * idx) as nat)) as int,
            pow1024(idx as nat) as int,
        ),
        r < pow10((3 * idx) as nat),
{
    let p1024 = pow1024_u64(idx);
    proof {
        lemma_pow1024_pos(idx as nat);
        lemma_pow1024_mono(idx as nat, 4);
        lemma_pow10_mono((3 * idx) as nat, 12);
        reveal_with_fuel(pow1024, 5);
        reveal_with_fuel(pow10, 13);
        assert(pow1024(4) == 0x100_0000_0000);
        assert(pow10(12) == 1_000_000_000_000);
    }
    let rem0: u64 = (bytes % (p1024 as u128)) as u64;
    let p1000 = pow10_u64(3 * idx);
    proof {
        lemma_mul_inequality(rem0 as int, 0x100_0000_0000, p1000 as int);
        lemma_mul_inequality(p1000 as int, 1_000_000_000_000, 0x100_0000_0000);
        assert(0x100_0000_0000 * p1000 as int == p1000 as int * 0x100_0000_0000)
            by (nonlinear_arith);
    }
    let scaled: u128 = (rem0 as u128) * (p1000 as u128);
    let ghost srem1 = rhe(scaled as int, pow1024(idx as nat) as int);
    proof {
        lemma_pow10_pos((3 * idx) as nat);
        if idx == 0 {
            assert(srem1 == scaled) by {
                lemma_fundamental_div_mod_converse(scaled as int, 1, scaled as int, 0);
            }
        } else {
            assert(scaled <= (p1024 as int - 1) * p1000 as int) by (nonlinear_arith)
                requires
                    scaled == rem0 as int * p1000 as int,
                    rem0 as int <= p1024 as int - 1,
                    p1000 >= 1,
            {
            }
            assert((p1024 as int) < 2 * (p1000 as int)) by {
                reveal_with_fuel(pow1024, 5);
                reveal_with_fuel(pow10, 13);
            }
            crate::rounding::lemma_rhe_upper(scaled as int, p1024 as int, p1000 as int);
        }
    }
    if idx == 0 {
        proof {
            assert(rem0 == 0);
        }
        0
    } else {
        proof {
            assert(p1024 % 2 == 0 && p1024 >= 2) by {
                reveal_with_fuel(pow1024, 5);
            }
        }
        rhe_pow2(scaled, p1024)
    }
}

/// The length of the decimal digit text of `n`.
fn dec_len(n: u64) -> (r: usize)
    ensures
        r == dec_rep(n as nat).len(),
        1 <= r <= 20,
    decreases n,
{
    proof {
        reveal_with_fuel(pow10, 21);
        assert(pow10(20) == 100_000_000_000_000_000_000);
        crate::numeric::lemma_dec_rep_len_le(n as nat, 20);
    }
    if n < 10 {
        1
    } else {
        1 + dec_len(n / 10)
    }
}

/// Renders `value`, a fraction of `rem` padded to `zeros` digits (omitted
/// when both are zero), and the unit name.
fn render_decimal(value: u64, rem: u64, zeros: u32, idx: u32) -> (r: String)
    requires
        idx <= 4,
        zeros <= 12,
    ensures
        r@ == dec_rep(value as nat) + (if zeros != 0 || rem != 0 {
            "."@ + pad_dec(rem as nat, zeros as nat)
        } else {
            Seq::<char>::empty()
        }) + unit_name(idx as int),
{
    let mut out = u64_to_string(value);
    let ghost head = out@;
    if zeros != 0 || rem != 0 {
        out.append(".");
        let dl = dec_len(rem);
        let mut k: usize = if (zeros as usize) > dl {
            zeros as usize - dl
        } else {
            0
        };
        let ghost kk = k as nat;
        while k > 0
            invariant
                k <= kk,
                out@ == head + "."@ + zero_pad((kk - k) as nat),
            decreases k,
        {
            out.append("0");
            proof {
                assert("0"@ =~= seq!['0']) by {
                    reveal_strlit("0");
                }
                assert(zero_pad((kk - k + 1) as nat) =~= zero_pad((kk - k) as nat) + seq!['0']);
                assert(out@ =~= head + "."@ + zero_pad((kk - k + 1) as nat));
            }
            k = k - 1;
        }
        let num = u64_to_string(rem);
        out.append(num.as_str());
        proof {
            assert(zero_pad(0) == Seq::<char>::empty());
            assert(out@ =~= head + "."@ + pad_dec(rem as nat, zeros as nat));
        }
    }
    out.append(unit_name_str(idx));
    proof {
        assert(out@ =~= dec_rep(value as nat) + (if zeros != 0 || rem != 0 {
            "."@ + pad_dec(rem as nat, zeros as nat)
        } else {
            Seq::<char>::empty()
        }) + unit_name(idx as int));
    }
    out
}

} // verus!
