//! The lexer/accumulator: scans a text of one or more rate-spans
//! (`<integer>[.<fraction>]<unit-alias>`, separated by whitespace or by
//! nothing) and folds each span into a running `Bandwidth` total.
//!
//! The whole scan is specified by [`lex`], a state machine over the
//! character sequence; [`parse_binary_bandwidth`] returns exactly what
//! that specification says, value and error alike.

use vstd::prelude::*;
use vstd::string::StringSliceAdditionalSpecFns;
use vstd::arithmetic::div_mod::{
    lemma_fundamental_div_mod, lemma_fundamental_div_mod_converse, lemma_div_pos_is_pos,
};
use vstd::arithmetic::mul::lemma_mul_inequality;
use bandwidth::Bandwidth;
use crate::bwext::{bw_bits, bw_max};
use crate::chars::{
    is_ws, is_digit, digit_val, is_unit_char, byte_at, ws_char, digit_char_test, digit_value,
    unit_char_test, utf8_len_of, utf8_len,
};
use crate::errors::{Error, ErrView};
use crate::numeric::{pow10, pow1024, pow10_u64, pow1024_u64, lemma_pow10_pos, lemma_pow1024_pos};
use crate::units::unit_level;
use crate::units::resolve_unit;

verus! {

/// How many significant fractional digits a number may carry; digits
/// beyond this many are read and discarded.
pub const FRACTION_PART_LIMIT: u32 = 18;

/// The whole bytes per second that the fractional part of a span is
/// worth at a unit level: rounded to the nearest, ties away from zero.
pub open spec fn frac_bytes(frac: int, cnt: nat, level: nat) -> int {
    (frac * pow1024(level) + pow10(cnt) / 2) / pow10(cnt) as int
}

/// The bits per second one rate-span is worth.
pub open spec fn span_bits(n: int, frac: int, cnt: nat, level: nat) -> int {
    8 * (n * pow1024(level) + frac_bytes(frac, cnt, level))
}

/// The lexer's position-independent state: what has been read of the
/// current span, and the total folded so far (in bits per second).
pub enum LexState {
    /// Between spans (skipping whitespace, expecting a first digit);
    /// `first` until the first digit of the input.
    Start { first: bool, total: int },
    /// Inside the number of a span.
    Num { n: int, dec: bool, frac: int, cnt: nat, total: int },
    /// Inside the unit text of a span, which began at character `start`.
    Unit { n: int, frac: int, cnt: nat, start: int, total: int },
}

/// Orders the states so that the one same-position transition
/// (number to unit) decreases.
pub open spec fn lex_rank(st: LexState) -> int {
    match st {
        LexState::Num { .. } => 1,
        _ => 0,
    }
}

/// Folds the span whose unit text is `s[start..end]` into `total`:
/// resolves the alias and adds the span's bits per second, or fails.
pub open spec fn finish_span(
    s: Seq<char>,
    start: int,
    end: int,
    n: int,
    frac: int,
    cnt: nat,
    total: int,
) -> Result<int, ErrView> {
    let u = s.subrange(start, end);
    match unit_level(u) {
        Some(l) => {
            let bits = span_bits(n, frac, cnt, l as nat);
            if total + bits > bw_max() {
                Err(ErrView::Overflow)
            } else {
                Ok(total + bits)
            }
        },
        None => {
            if u.len() == 0 {
                Err(ErrView::UnitNeeded { offset: byte_at(s, start), value: n })
            } else {
                Err(
                    ErrView::UnknownUnit {
                        start: byte_at(s, start),
                        end: byte_at(s, end),
                        unit: u,
                        value: n,
                    },
                )
            }
        },
    }
}

/// One scan of `s` from character `i` in state `st`: the resulting total
/// in bits per second, or the first error.
pub open spec fn lex(s: Seq<char>, i: int, st: LexState) -> Result<int, ErrView>
    decreases s.len() - i, lex_rank(st),
{
    if i < 0 || i > s.len() {
        Err(ErrView::Empty)
    } else {
        match st {
            LexState::Start { first, total } => {
                if i == s.len() {
                    if first {
                        Err(ErrView::Empty)
                    } else {
                        Ok(total)
                    }
                } else {
                    let c = s[i];
                    if is_ws(c) {
                        lex(s, i + 1, st)
                    } else if is_digit(c) {
                        lex(
                            s,
                            i + 1,
                            LexState::Num { n: digit_val(c), dec: false, frac: 0, cnt: 0, total },
                        )
                    } else {
                        Err(ErrView::InvalidCharacter(byte_at(s, i)))
                    }
                }
            },
            LexState::Num { n, dec, frac, cnt, total } => {
                if i == s.len() {
                    Err(ErrView::UnitNeeded { offset: byte_at(s, i), value: n })
                } else {
                    let c = s[i];
                    if is_digit(c) {
                        if dec {
                            if cnt >= FRACTION_PART_LIMIT {
                                lex(s, i + 1, st)
                            } else {
                                lex(
                                    s,
                                    i + 1,
                                    LexState::Num {
                                        n,
                                        dec,
                                        frac: frac * 10 + digit_val(c),
                                        cnt: cnt + 1,
                                        total,
                                    },
                                )
                            }
                        } else {
                            let n2 = n * 10 + digit_val(c);
                            if n2 > u64::MAX {
                                Err(ErrView::Overflow)
                            } else {
                                lex(s, i + 1, LexState::Num { n: n2, dec, frac, cnt, total })
                            }
                        }
                    } else if is_ws(c) || c == '_' {
                        lex(s, i + 1, st)
                    } else if c == '.' {
                        if dec {
                            Err(ErrView::InvalidCharacter(byte_at(s, i)))
                        } else {
                            lex(s, i + 1, LexState::Num { n, dec: true, frac, cnt, total })
                        }
                    } else if is_unit_char(c) {
                        lex(s, i, LexState::Unit { n, frac, cnt, start: i, total })
                    } else {
                        Err(ErrView::InvalidCharacter(byte_at(s, i)))
                    }
                }
            },
            LexState::Unit { n, frac, cnt, start, total } => {
                if i == s.len() {
                    finish_span(s, start, i, n, frac, cnt, total)
                } else {
                    let c = s[i];
                    if is_digit(c) {
                        match finish_span(s, start, i, n, frac, cnt, total) {
                            Err(e) => Err(e),
                            Ok(t2) => lex(
                                s,
                                i + 1,
                                LexState::Num {
                                    n: digit_val(c),
                                    dec: false,
                                    frac: 0,
                                    cnt: 0,
                                    total: t2,
                                },
                            ),
                        }
                    } else if is_ws(c) {
                        match finish_span(s, start, i, n, frac, cnt, total) {
                            Err(e) => Err(e),
                            Ok(t2) => lex(s, i + 1, LexState::Start { first: false, total: t2 }),
                        }
                    } else if is_unit_char(c) {
                        lex(s, i + 1, st)
                    } else {
                        Err(ErrView::InvalidCharacter(byte_at(s, i)))
                    }
                }
            },
        }
    }
}

/// What parsing a whole text means.
pub open spec fn parse_spec(s: Seq<char>) -> Result<int, ErrView> {
    lex(s, 0, LexState::Start { first: true, total: 0 })
}

/// Converts the fractional part of a span to whole bytes per second at a
/// unit level, rounding to the nearest with ties away from zero.
///
/// The pair `(fraction, fraction_cnt)` encodes the digits captured after
/// the decimal point: `fraction` holds `fraction_cnt` decimal digits, so
/// it lies below `10^fraction_cnt`.
pub fn parse_binary_fraction(fraction: u64, fraction_cnt: u32, unit: u32) -> (r: Result<u64, Error>)
    requires
        fraction_cnt <= FRACTION_PART_LIMIT,
        unit <= 4,
        fraction < pow10(fraction_cnt as nat),
    ensures
        r matches Ok(v) && v == frac_bytes(fraction as int, fraction_cnt as nat, unit as nat),
        r matches Ok(v) && v <= pow1024(unit as nat),
{
    let p10 = pow10_u64(fraction_cnt);
    let p1024 = pow1024_u64(unit);
    let rounding = p10 / 2;
    proof {
        lemma_pow10_pos(fraction_cnt as nat);
        lemma_pow1024_pos(unit as nat);
        crate::numeric::lemma_pow10_mono(fraction_cnt as nat, 18);
        crate::numeric::lemma_pow1024_mono(unit as nat, 4);
        reveal_with_fuel(pow10, 19);
        reveal_with_fuel(pow1024, 5);
        assert(pow10(18) == 1_000_000_000_000_000_000);
        assert(pow1024(4) == 0x100_0000_0000);
        lemma_mul_inequality(fraction as int, 1_000_000_000_000_000_000, p1024 as int);
        lemma_mul_inequality(p1024 as int, 0x100_0000_0000, 1_000_000_000_000_000_000);
        assert(1_000_000_000_000_000_000 * p1024 as int == p1024 as int * 1_000_000_000_000_000_000)
            by (nonlinear_arith);
        lemma_frac_bytes_bound(fraction as int, p10 as int, p1024 as int);
    }
    let shifted: u128 = (fraction as u128) * (p1024 as u128);
    let wide: u128 = (shifted + rounding as u128) / (p10 as u128);
    Ok(wide as u64)
}

/// Where the scan is within the current span.
enum Mode {
    Start,
    Num,
    Unit,
}

/// The [`LexState`] a set of scanner variables stands for.
spec fn st_of(
    mode: Mode,
    first: bool,
    n: u64,
    dec: bool,
    frac: u64,
    cnt: u32,
    ustart: int,
    total: nat,
) -> LexState {
    match mode {
        Mode::Start => LexState::Start { first, total: total as int },
        Mode::Num => LexState::Num {
            n: n as int,
            dec,
            frac: frac as int,
            cnt: cnt as nat,
            total: total as int,
        },
        Mode::Unit => LexState::Unit {
            n: n as int,
            frac: frac as int,
            cnt: cnt as nat,
            start: ustart,
            total: total as int,
        },
    }
}

/// Folds one finished span into the running total, exactly as
/// [`finish_span`] says.
fn apply_span(
    s: &str,
    n: u64,
    frac: u64,
    cnt: u32,
    start: usize,
    end: usize,
    start_off: usize,
    end_off: usize,
    total: Bandwidth,
) -> (r: Result<Bandwidth, Error>)
    requires
        start <= end <= s@.len(),
        cnt <= FRACTION_PART_LIMIT,
        frac < pow10(cnt as nat),
        start_off == byte_at(s@, start as int),
        end_off == byte_at(s@, end as int),
        bw_bits(total) <= bw_max(),
    ensures
        match finish_span(
            s@,
            start as int,
            end as int,
            n as int,
            frac as int,
            cnt as nat,
            bw_bits(total) as int,
        ) {
            Ok(t2) => r matches Ok(b) && bw_bits(b) == t2,
            Err(e) => r matches Err(err) && err@ == e,
        },
{
    match resolve_unit(s, start, end) {
        None => {
            if end == start {
                proof {
                    assert(s@.subrange(start as int, end as int).len() == 0);
                }
                Err(Error::UnitNeeded { offset: start_off, value: n })
            } else {
                let u = String::from_str(s.substring_char(start, end));
                Err(
                    Error::UnknownBinaryUnit {
                        start: start_off,
                        end: end_off,
                        unit: u,
                        value: n,
                    },
                )
            }
        },
        Some(level) => {
            let fb = match parse_binary_fraction(frac, cnt, level) {
                Ok(v) => v,
                Err(e) => {
                    return Err(e);
                },
            };
            let p1024 = pow1024_u64(level);
            proof {
                crate::numeric::lemma_pow1024_mono(level as nat, 4);
                reveal_with_fuel(pow1024, 5);
                assert(pow1024(4) == 0x100_0000_0000);
                lemma_mul_inequality(n as int, u64::MAX as int, p1024 as int);
                lemma_mul_inequality(p1024 as int, 0x100_0000_0000, u64::MAX as int);
                assert(u64::MAX as int * p1024 as int == p1024 as int * u64::MAX as int)
                    by (nonlinear_arith);
            }
            let bytes: u128 = (n as u128) * (p1024 as u128) + (fb as u128);
            let bits: u128 = bytes * 8;
            let ghost sbits = span_bits(n as int, frac as int, cnt as nat, level as nat);
            proof {
                assert(bits == sbits);
            }
            let gbps128 = bits / 1_000_000_000;
            let sub = (bits % 1_000_000_000) as u32;
            proof {
                lemma_fundamental_div_mod(bits as int, 1_000_000_000);
            }
            if gbps128 > u64::MAX as u128 {
                proof {
                    lemma_mul_inequality(
                        u64::MAX as int + 1,
                        gbps128 as int,
                        1_000_000_000,
                    );
                }
                Err(Error::NumberOverflow)
            } else {
                let nb = Bandwidth::new(gbps128 as u64, sub);
                match total.checked_add(nb) {
                    Some(t) => Ok(t),
                    None => Err(Error::NumberOverflow),
                }
            }
        },
    }
}

/// Parses one or more rate-spans written in the binary prefix system
/// (`"9TiBps 420GiBps"`, `"150.024KiB/s"`) into their exact total.
///
/// Returns precisely what [`parse_spec`] ascribes to the text: the summed
/// magnitude in bits per second on success, and otherwise the first
/// error, with its byte offsets, offending substring and partial value.
pub fn parse_binary_bandwidth(s: &str) -> (r: Result<Bandwidth, Error>)
    ensures
        match parse_spec(s@) {
            Ok(bits) => r matches Ok(b) && bw_bits(b) == bits,
            Err(e) => r matches Err(err) && err@ == e,
        },
{
    let len = s.unicode_len();
    let blen = s.as_bytes().len();
    proof {
        crate::chars::lemma_byte_at_total(s@);
        assert(s.spec_bytes() == vstd::utf8::encode_utf8(s@));
    }
    let mut i: usize = 0;
    let mut off: usize = 0;
    let mut first: bool = true;
    let mut n: u64 = 0;
    let mut dec: bool = false;
    let mut frac: u64 = 0;
    let mut cnt: u32 = 0;
    let mut ustart: usize = 0;
    let mut ustart_off: usize = 0;
    let mut mode = Mode::Start;
    let mut total = Bandwidth::new(0, 0);
    while i < len
        invariant
            len == s@.len(),
            blen == byte_at(s@, s@.len() as int),
            i <= len,
            off == byte_at(s@, i as int),
            bw_bits(total) <= bw_max(),
            cnt <= FRACTION_PART_LIMIT,
            frac < pow10(cnt as nat),
            mode matches Mode::Unit ==> ustart <= i && ustart_off == byte_at(s@, ustart as int),
            parse_spec(s@) == lex(
                s@,
                i as int,
                st_of(mode, first, n, dec, frac, cnt, ustart as int, bw_bits(total)),
            ),
        decreases len - i, lex_rank(st_of(mode, first, n, dec, frac, cnt, ustart as int, bw_bits(total))),
    {
        let c = s.get_char(i);
        let clen = utf8_len_of(c);
        proof {
            crate::chars::lemma_byte_at_mono(s@, i + 1, s@.len() as int);
            assert(byte_at(s@, i as int + 1) == off + utf8_len(s@[i as int]));
        }
        match mode {
            Mode::Start => {
                if ws_char(c) {
                    i = i + 1;
                    off = off + clen as usize;
                } else if digit_char_test(c) {
                    n = digit_value(c) as u64;
                    dec = false;
                    frac = 0;
                    cnt = 0;
                    mode = Mode::Num;
                    i = i + 1;
                    off = off + clen as usize;
                } else {
                    return Err(Error::InvalidCharacter(off));
                }
            },
            Mode::Num => {
                if digit_char_test(c) {
                    let d = digit_value(c) as u64;
                    if dec {
                        if cnt < FRACTION_PART_LIMIT {
                            proof {
                                crate::numeric::lemma_pow10_mono(cnt as nat, 17);
                                reveal_with_fuel(pow10, 19);
                                assert(pow10(17) == 100_000_000_000_000_000);
                                assert(pow10((cnt + 1) as nat) == 10 * pow10(cnt as nat));
                            }
                            frac = frac * 10 + d;
                            cnt = cnt + 1;
                        }
                        i = i + 1;
                        off = off + clen as usize;
                    } else {
                        let t = (n as u128) * 10 + (d as u128);
                        if t > u64::MAX as u128 {
                            return Err(Error::NumberOverflow);
                        }
                        n = t as u64;
                        i = i + 1;
                        off = off + clen as usize;
                    }
                } else if ws_char(c) || c == '_' {
                    i = i + 1;
                    off = off + clen as usize;
                } else if c == '.' {
                    if dec {
                        return Err(Error::InvalidCharacter(off));
                    }
                    dec = true;
                    i = i + 1;
                    off = off + clen as usize;
                } else if unit_char_test(c) {
                    ustart = i;
                    ustart_off = off;
                    mode = Mode::Unit;
                } else {
                    return Err(Error::InvalidCharacter(off));
                }
            },
            Mode::Unit => {
                if digit_char_test(c) {
                    match apply_span(s, n, frac, cnt, ustart, i, ustart_off, off, total) {
                        Ok(t2) => {
                            total = t2;
                            n = digit_value(c) as u64;
                            dec = false;
                            frac = 0;
                            cnt = 0;
                            mode = Mode::Num;
                            i = i + 1;
                            off = off + clen as usize;
                        },
                        Err(e) => {
                            return Err(e);
                        },
                    }
                } else if ws_char(c) {
                    match apply_span(s, n, frac, cnt, ustart, i, ustart_off, off, total) {
                        Ok(t2) => {
                            total = t2;
                            first = false;
                            mode = Mode::Start;
                            i = i + 1;
                            off = off + clen as usize;
                        },
                        Err(e) => {
                            return Err(e);
                        },
                    }
                } else if unit_char_test(c) {
                    i = i + 1;
                    off = off + clen as usize;
                } else {
                    return Err(Error::InvalidCharacter(off));
                }
            },
        }
    }
    match mode {
        Mode::Start => {
            if first {
                Err(Error::Empty)
            } else {
                Ok(total)
            }
        },
        Mode::Num => Err(Error::UnitNeeded { offset: off, value: n }),
        Mode::Unit => {
            match apply_span(s, n, frac, cnt, ustart, i, ustart_off, off, total) {
                Ok(t) => Ok(t),
                Err(e) => Err(e),
            }
        },
    }
}

/// `(f * p + p10/2) / p10 <= p` whenever `f < p10`.
proof fn lemma_frac_bytes_bound(f: int, p10: int, p: int)
    requires
        0 <= f < p10,
        p >= 1,
    ensures
        (f * p + p10 / 2) / p10 <= p,
        (f * p + p10 / 2) / p10 >= 0,
{
    lemma_mul_inequality(f, p10 - 1, p);
    assert((p10 - 1) * p == p10 * p - p) by (nonlinear_arith);
    assert(f * p + p10 / 2 < p10 * p + p10) by {
        assert(p10 / 2 + p < p10 + p);
    }
    assert((f * p + p10 / 2) / p10 < p + 1) by {
        assert(p10 * (p + 1) == p10 * p + p10) by (nonlinear_arith);
        lemma_div_bound(f * p + p10 / 2, p10, p + 1);
    }
    lemma_div_pos_is_pos(f * p + p10 / 2, p10);
}

/// If `0 <= a < d * b` then `a / d < b`.
proof fn lemma_div_bound(a: int, d: int, b: int)
    requires
        d >= 1,
        0 <= a,
        a < d * b,
    ensures
        a / d < b,
{
    lemma_fundamental_div_mod(a, d);
    assert(a / d < b) by (nonlinear_arith)
        requires
            d >= 1,
            a == d * (a / d) + a % d,
            0 <= a % d < d,
            a < d * b,
    {
    }
}

} // verus!
