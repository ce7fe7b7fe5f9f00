//! Laws of the library, stated and proved over the same specification
//! functions that the executable contracts use.

use vstd::prelude::*;
use crate::bwext::bw_max;
use crate::chars::{is_digit, digit_val, is_ws, is_unit_char};
use crate::errors::ErrView;
use crate::numeric::{pow10, pow1024, dec_rep, digit_char, lemma_pow1024_pos, lemma_pow10_pos};
use crate::parse::{parse_spec, lex, finish_span, span_bits, LexState};
use crate::render::{fmt_integer_spec, fmt_decimal_spec, item_list, item_list_from, comp_at};
use crate::units::unit_level;

verus! {

/// A zero magnitude renders as `"0B/s"` in both display modes, whatever
/// precision is requested.
pub proof fn lemma_zero_renders(prec: Option<int>)
    ensures
        fmt_integer_spec(0) == "0B/s"@,
        fmt_decimal_spec(0, prec) == "0B/s"@,
{
}

/// Itemized mode prints only nonzero components, each at most once, in
/// strictly descending unit order.
pub proof fn lemma_item_list_sound(bytes: nat)
    ensures
        forall|i: int|
            0 <= i < item_list(bytes).len() ==> (#[trigger] item_list(bytes)[i]).1 > 0,
        forall|i: int|
            0 <= i < item_list(bytes).len() ==> 0 <= (#[trigger] item_list(bytes)[i]).0 <= 4,
        forall|i: int, j: int|
            0 <= i < j < item_list(bytes).len() ==> (#[trigger] item_list(bytes)[i]).0 > (
            #[trigger] item_list(bytes)[j]).0,
        forall|i: int|
            0 <= i < item_list(bytes).len() ==> (#[trigger] item_list(bytes)[i]).1 == comp_at(
                bytes,
                item_list(bytes)[i].0,
            ),
{
    lemma_item_list_from_sound(bytes, 4);
}

/// The component list below level `j` holds exactly the nonzero
/// components, in strictly descending level order.
proof fn lemma_item_list_from_sound(bytes: nat, j: int)
    requires
        j <= 4,
    ensures
        forall|i: int|
            0 <= i < item_list_from(bytes, j).len() ==> (#[trigger] item_list_from(bytes, j)[i]).1
                > 0,
        forall|i: int|
            0 <= i < item_list_from(bytes, j).len() ==> 0 <= (#[trigger] item_list_from(
                bytes,
                j,
            )[i]).0 <= j,
        forall|i: int, k: int|
            0 <= i < k < item_list_from(bytes, j).len() ==> (#[trigger] item_list_from(
                bytes,
                j,
            )[i]).0 > (#[trigger] item_list_from(bytes, j)[k]).0,
        forall|i: int|
            0 <= i < item_list_from(bytes, j).len() ==> (#[trigger] item_list_from(bytes, j)[i]).1
                == comp_at(bytes, item_list_from(bytes, j)[i].0),
    decreases j + 1,
{
    if j >= 0 {
        lemma_item_list_from_sound(bytes, j - 1);
        if comp_at(bytes, j) > 0 {
            let items = item_list_from(bytes, j);
            let rest = item_list_from(bytes, j - 1);
            assert(items == seq![(j, comp_at(bytes, j))] + rest);
            assert(items[0] == (j, comp_at(bytes, j)));
            assert forall|i: int| 0 <= i < items.len() implies ((#[trigger] items[i]).1 > 0 && 0
                <= items[i].0 <= j && items[i].1 == comp_at(bytes, items[i].0)) by {
                if i > 0 {
                    assert(items[i] == rest[i - 1]);
                }
            }
            assert forall|i: int, k: int| 0 <= i < k < items.len() implies (#[trigger] items[i]).0
                > (#[trigger] items[k]).0 by {
                assert(items[k] == rest[k - 1]);
                if i > 0 {
                    assert(items[i] == rest[i - 1]);
                } else {
                    assert(rest[k - 1].0 <= j - 1);
                }
            }
        } else {
            assert(item_list_from(bytes, j) == item_list_from(bytes, j - 1));
        }
    } else {
        assert(item_list_from(bytes, j).len() == 0);
    }
}

/// Every position of `d` holds a decimal digit.
pub open spec fn all_digits(d: Seq<char>) -> bool {
    forall|j: int| 0 <= j < d.len() ==> is_digit(#[trigger] d[j])
}

/// The number a digit string denotes, read left to right.
pub open spec fn digits_val(d: Seq<char>) -> int
    decreases d.len(),
{
    if d.len() == 0 {
        0
    } else {
        digit_val(d[0]) * pow10((d.len() - 1) as nat) + digits_val(d.drop_first())
    }
}

/// `digit_char` really writes the digit down.
proof fn lemma_digit_char_val(x: int)
    requires
        0 <= x <= 9,
    ensures
        is_digit(digit_char(x)),
        digit_val(digit_char(x)) == x,
{
}

/// Appending a digit multiplies the value by ten and adds it.
proof fn lemma_digits_val_push(d: Seq<char>, c: char)
    ensures
        digits_val(d.push(c)) == 10 * digits_val(d) + digit_val(c),
    decreases d.len(),
{
    if d.len() == 0 {
        assert(d.push(c) =~= seq![c]);
        assert(seq![c].drop_first().len() == 0);
        assert(digits_val(seq![c]) == digit_val(c) * pow10(0) + digits_val(seq![c].drop_first()));
        assert(digit_val(c) * pow10(0) == digit_val(c)) by (nonlinear_arith)
            requires
                pow10(0) == 1,
        ;
    } else {
        let dp = d.push(c);
        assert(dp.drop_first() =~= d.drop_first().push(c));
        lemma_digits_val_push(d.drop_first(), c);
        let l = d.len() as int;
        assert(pow10(l as nat) == 10 * pow10((l - 1) as nat));
        assert(digit_val(d[0]) * (10 * pow10((l - 1) as nat)) == 10 * (digit_val(d[0]) * pow10(
            (l - 1) as nat,
        ))) by (nonlinear_arith);
    }
}

/// The decimal digits of `n` are digits and denote `n`.
pub proof fn lemma_dec_rep_digits(n: nat)
    ensures
        all_digits(dec_rep(n)),
        digits_val(dec_rep(n)) == n,
        dec_rep(n).len() >= 1,
    decreases n,
{
    if n < 10 {
        lemma_digit_char_val(n as int);
        assert(dec_rep(n).drop_first().len() == 0);
        assert(digits_val(dec_rep(n)) == digit_val(digit_char(n as int)) * pow10(0)
            + digits_val(dec_rep(n).drop_first()));
        assert(digit_val(digit_char(n as int)) * pow10(0) == digit_val(digit_char(n as int)))
            by (nonlinear_arith)
            requires
                pow10(0) == 1,
        ;
    } else {
        lemma_dec_rep_digits(n / 10);
        lemma_digit_char_val((n % 10) as int);
        lemma_digits_val_push(dec_rep(n / 10), digit_char((n % 10) as int));
        assert forall|j: int| 0 <= j < dec_rep(n).len() implies is_digit(
            #[trigger] dec_rep(n)[j],
        ) by {
            if j < dec_rep(n / 10).len() {
                assert(dec_rep(n)[j] == dec_rep(n / 10)[j]);
            }
        }
    }
}

/// Scanning a digit string from the number state accumulates its value.
proof fn lemma_scan_digits(s: Seq<char>, i: int, d: Seq<char>, n0: int, total: int)
    requires
        0 <= i,
        i + d.len() <= s.len(),
        s.subrange(i, i + d.len()) == d,
        all_digits(d),
        0 <= n0,
        n0 * pow10(d.len()) + digits_val(d) <= u64::MAX,
    ensures
        lex(s, i, LexState::Num { n: n0, dec: false, frac: 0, cnt: 0, total }) == lex(
            s,
            i + d.len(),
            LexState::Num {
                n: n0 * pow10(d.len()) + digits_val(d),
                dec: false,
                frac: 0,
                cnt: 0,
                total,
            },
        ),
    decreases d.len(),
{
    lemma_pow10_pos(d.len());
    if d.len() == 0 {
        assert(n0 * pow10(0) + digits_val(d) == n0) by (nonlinear_arith)
            requires
                digits_val(d) == 0,
        ;
    } else {
        let c = d[0];
        assert(c == s.subrange(i, i + d.len())[0]);
        assert(digits_val(d) >= 0) by {
            lemma_digits_val_nonneg(d);
        }
        let n1 = n0 * 10 + digit_val(c);
        let l1 = (d.len() - 1) as nat;
        lemma_pow10_pos(l1);
        assert(n0 * pow10(d.len()) + digits_val(d) == n1 * pow10(l1) + digits_val(
            d.drop_first(),
        )) by (nonlinear_arith)
            requires
                pow10(d.len()) == 10 * pow10(l1),
                digits_val(d) == digit_val(d[0]) * pow10(l1) + digits_val(d.drop_first()),
                n1 == n0 * 10 + digit_val(d[0]),
        ;
        assert(digits_val(d.drop_first()) >= 0) by {
            lemma_digits_val_nonneg(d.drop_first());
        }
        assert(n1 <= n1 * pow10(l1)) by (nonlinear_arith)
            requires
                pow10(l1) >= 1,
                n1 >= 0,
        ;
        assert(s.subrange(i + 1, i + d.len()) =~= d.drop_first());
        assert(!is_ws(c) && c != '_' && c != '.') by {
            assert(is_digit(c));
        }
        lemma_scan_digits(s, i + 1, d.drop_first(), n1, total);
    }
}

/// A digit string denotes a nonnegative number.
proof fn lemma_digits_val_nonneg(d: Seq<char>)
    requires
        all_digits(d),
    ensures
        digits_val(d) >= 0,
    decreases d.len(),
{
    if d.len() > 0 {
        lemma_digits_val_nonneg(d.drop_first());
        lemma_pow10_pos((d.len() - 1) as nat);
        assert(digit_val(d[0]) * pow10((d.len() - 1) as nat) >= 0) by (nonlinear_arith)
            requires
                digit_val(d[0]) >= 0,
                pow10((d.len() - 1) as nat) >= 0,
        ;
    }
}

/// Scanning unit characters up to the end of the input folds the span.
proof fn lemma_scan_unit(s: Seq<char>, start: int, j: int, n: int, frac: int, cnt: nat, total: int)
    requires
        0 <= start <= j <= s.len(),
        forall|k: int| j <= k < s.len() ==> is_unit_char(#[trigger] s[k]),
    ensures
        lex(s, j, LexState::Unit { n, frac, cnt, start, total }) == finish_span(
            s,
            start,
            s.len() as int,
            n,
            frac,
            cnt,
            total,
        ),
    decreases s.len() - j,
{
    if j < s.len() {
        assert(!is_digit(s[j]) && !is_ws(s[j])) by {
            assert(is_unit_char(s[j]));
        }
        lemma_scan_unit(s, start, j + 1, n, frac, cnt, total);
    }
}

/// Every character of a base alias is a letter or `/`.
proof fn lemma_suffix_chars(u: Seq<char>)
    requires
        crate::units::suffix_ok(u),
    ensures
        u.len() >= 3,
        forall|j: int| 0 <= j < u.len() ==> is_unit_char(#[trigger] u[j]),
{
    reveal_strlit("Bps");
    reveal_strlit("Byte/s");
    reveal_strlit("B/s");
    reveal_strlit("ops");
    reveal_strlit("o/s");
    if u == "Bps"@ {
        assert forall|j: int| 0 <= j < u.len() implies is_unit_char(#[trigger] u[j]) by {
            assert(u[0] == 'B' && u[1] == 'p' && u[2] == 's');
        }
    } else if u == "Byte/s"@ {
        assert forall|j: int| 0 <= j < u.len() implies is_unit_char(#[trigger] u[j]) by {
            assert(u[0] == 'B' && u[1] == 'y' && u[2] == 't' && u[3] == 'e' && u[4] == '/'
                && u[5] == 's');
        }
    } else if u == "B/s"@ {
        assert forall|j: int| 0 <= j < u.len() implies is_unit_char(#[trigger] u[j]) by {
            assert(u[0] == 'B' && u[1] == '/' && u[2] == 's');
        }
    } else if u == "ops"@ {
        assert forall|j: int| 0 <= j < u.len() implies is_unit_char(#[trigger] u[j]) by {
            assert(u[0] == 'o' && u[1] == 'p' && u[2] == 's');
        }
    } else {
        assert forall|j: int| 0 <= j < u.len() implies is_unit_char(#[trigger] u[j]) by {
            assert(u[0] == 'o' && u[1] == '/' && u[2] == 's');
        }
    }
}

/// Every character of a recognized alias is a letter or `/`.
proof fn lemma_alias_chars(u: Seq<char>)
    requires
        unit_level(u) is Some,
    ensures
        u.len() >= 3,
        forall|j: int| 0 <= j < u.len() ==> is_unit_char(#[trigger] u[j]),
{
    if crate::units::suffix_ok(u) {
        lemma_suffix_chars(u);
    } else {
        let rest = u.subrange(2, u.len() as int);
        lemma_suffix_chars(rest);
        assert forall|j: int| 0 <= j < u.len() implies is_unit_char(#[trigger] u[j]) by {
            if j >= 2 {
                assert(u[j] == rest[j - 2]);
            }
        }
    }
}

/// Parsing a single integer rate-span `"{n}{u}"` yields exactly
/// `n * 1024^level * 8` bits per second: no rounding is involved when
/// there is no fractional part.
pub proof fn lemma_parse_integer_span(n: nat, u: Seq<char>, l: int)
    requires
        unit_level(u) == Some(l),
        n <= u64::MAX,
        8 * (n as int) * (pow1024(l as nat) as int) <= bw_max(),
    ensures
        parse_spec(dec_rep(n) + u) == Ok::<int, ErrView>(8 * (n as int) * (pow1024(l as nat) as int)),
{
    let d = dec_rep(n);
    let cat = d + u;
    lemma_dec_rep_digits(n);
    lemma_alias_chars(u);
    lemma_digits_val_nonneg(d);
    // the first character starts the number
    assert(cat[0] == d[0] && is_digit(d[0]));
    assert(parse_spec(cat) == lex(
        cat,
        1,
        LexState::Num { n: digit_val(cat[0]), dec: false, frac: 0, cnt: 0, total: 0 },
    ));
    // the remaining digits accumulate to n
    let rest = d.drop_first();
    assert(cat.subrange(1, 1 + rest.len() as int) =~= rest);
    assert(digit_val(d[0]) * pow10(rest.len()) + digits_val(rest) == digits_val(d));
    lemma_scan_digits(cat, 1, rest, digit_val(d[0]), 0);
    // the unit characters finish the span at the end of the input
    let dl = d.len() as int;
    assert(cat[dl] == u[0] && is_unit_char(u[0]));
    assert forall|k: int| dl <= k < cat.len() implies is_unit_char(#[trigger] cat[k]) by {
        assert(cat[k] == u[k - dl]);
    }
    assert(lex(cat, dl, LexState::Num { n: n as int, dec: false, frac: 0, cnt: 0, total: 0 })
        == lex(cat, dl, LexState::Unit { n: n as int, frac: 0, cnt: 0, start: dl, total: 0 }));
    lemma_scan_unit(cat, dl, dl, n as int, 0, 0, 0);
    // the span folds to exactly its integer value
    assert(cat.subrange(dl, cat.len() as int) =~= u);
    lemma_pow1024_pos(l as nat);
    assert(crate::parse::frac_bytes(0, 0, l as nat) == 0) by {
        assert(0 * pow1024(l as nat) == 0) by (nonlinear_arith);
        assert(pow10(0) / 2 == 0);
        assert(0int / 1 == 0);
    }
    assert(span_bits(n as int, 0, 0, l as nat) == 8 * (n as int) * (pow1024(l as nat) as int)) by (nonlinear_arith)
        requires
            crate::parse::frac_bytes(0, 0, l as nat) == 0,
            span_bits(n as int, 0, 0, l as nat) == 8 * ((n as int) * (pow1024(l as nat) as int) + crate::parse::frac_bytes(0, 0, l as nat)),
    ;
}

/// Scanning fraction digits accumulates them while the cap is not
/// reached.
proof fn lemma_scan_frac(s: Seq<char>, i: int, h: Seq<char>, n: int, frac0: int, cnt0: nat, total: int)
    requires
        0 <= i,
        i + h.len() <= s.len(),
        s.subrange(i, i + h.len()) == h,
        all_digits(h),
        0 <= frac0,
        cnt0 + h.len() <= crate::parse::FRACTION_PART_LIMIT,
        frac0 * pow10(h.len()) + digits_val(h) <= u64::MAX,
    ensures
        lex(s, i, LexState::Num { n, dec: true, frac: frac0, cnt: cnt0, total }) == lex(
            s,
            i + h.len(),
            LexState::Num {
                n,
                dec: true,
                frac: frac0 * pow10(h.len()) + digits_val(h),
                cnt: (cnt0 + h.len()) as nat,
                total,
            },
        ),
    decreases h.len(),
{
    lemma_pow10_pos(h.len());
    if h.len() == 0 {
        assert(frac0 * pow10(0) + digits_val(h) == frac0) by (nonlinear_arith)
            requires
                digits_val(h) == 0,
        ;
    } else {
        let c = h[0];
        assert(c == s.subrange(i, i + h.len())[0]);
        lemma_digits_val_nonneg(h);
        lemma_digits_val_nonneg(h.drop_first());
        let f1 = frac0 * 10 + digit_val(c);
        let l1 = (h.len() - 1) as nat;
        lemma_pow10_pos(l1);
        assert(frac0 * pow10(h.len()) + digits_val(h) == f1 * pow10(l1) + digits_val(
            h.drop_first(),
        )) by (nonlinear_arith)
            requires
                pow10(h.len()) == 10 * pow10(l1),
                digits_val(h) == digit_val(h[0]) * pow10(l1) + digits_val(h.drop_first()),
                f1 == frac0 * 10 + digit_val(h[0]),
        ;
        assert(f1 <= f1 * pow10(l1)) by (nonlinear_arith)
            requires
                pow10(l1) >= 1,
                f1 >= 0,
        ;
        assert(s.subrange(i + 1, i + h.len()) =~= h.drop_first());
        lemma_scan_frac(s, i + 1, h.drop_first(), n, f1, cnt0 + 1, total);
    }
}

/// Once the cap is reached, further fraction digits leave the scan
/// state untouched.
proof fn lemma_skip_frac(s: Seq<char>, i: int, h: Seq<char>, n: int, frac: int, cnt: nat, total: int)
    requires
        0 <= i,
        i + h.len() <= s.len(),
        s.subrange(i, i + h.len()) == h,
        all_digits(h),
        cnt >= crate::parse::FRACTION_PART_LIMIT,
    ensures
        lex(s, i, LexState::Num { n, dec: true, frac, cnt, total }) == lex(
            s,
            i + h.len(),
            LexState::Num { n, dec: true, frac, cnt, total },
        ),
    decreases h.len(),
{
    if h.len() > 0 {
        assert(h[0] == s.subrange(i, i + h.len())[0]);
        assert(s.subrange(i + 1, i + h.len()) =~= h.drop_first());
        lemma_skip_frac(s, i + 1, h.drop_first(), n, frac, cnt, total);
    }
}

/// Closing a span at the end of either of two texts gives the same
/// outcome when the unit text read is the same and is a known alias.
proof fn lemma_finish_same(
    s1: Seq<char>,
    s2: Seq<char>,
    start1: int,
    start2: int,
    n: int,
    frac: int,
    cnt: nat,
    total: int,
)
    requires
        0 <= start1 <= s1.len(),
        0 <= start2 <= s2.len(),
        s1.subrange(start1, s1.len() as int) == s2.subrange(start2, s2.len() as int),
        unit_level(s1.subrange(start1, s1.len() as int)) is Some,
    ensures
        finish_span(s1, start1, s1.len() as int, n, frac, cnt, total) == finish_span(
            s2,
            start2,
            s2.len() as int,
            n,
            frac,
            cnt,
            total,
        ),
{
}

/// Fractional digits beyond the cap are discarded: with `h` already as
/// long as the cap allows, any further digits before the unit leave the
/// parse unchanged.
pub proof fn lemma_fraction_truncated(a: nat, h: Seq<char>, extra: Seq<char>, u: Seq<char>)
    requires
        all_digits(h),
        all_digits(extra),
        h.len() == crate::parse::FRACTION_PART_LIMIT,
        digits_val(h) <= u64::MAX,
        a <= u64::MAX,
        unit_level(u) is Some,
    ensures
        parse_spec(dec_rep(a) + "."@ + h + extra + u) == parse_spec(dec_rep(a) + "."@ + h + u),
{
    reveal_strlit(".");
    let d = dec_rep(a);
    let long = d + "."@ + h + extra + u;
    let short = d + "."@ + h + u;
    lemma_dec_rep_digits(a);
    lemma_digits_val_nonneg(d);
    lemma_digits_val_nonneg(h);
    lemma_alias_chars(u);
    let dl = d.len() as int;
    let hl = h.len() as int;
    let el = extra.len() as int;
    // both texts agree up to the end of the capped fraction
    assert(long.subrange(0, dl) =~= d);
    assert(short.subrange(0, dl) =~= d);
    assert(long[dl] == '.' && short[dl] == '.');
    assert(!is_digit('.') && !is_ws('.') && !is_unit_char('.') && '.' != '_');
    // the integer digits accumulate to a in both
    assert(long[0] == d[0] && short[0] == d[0] && is_digit(d[0]));
    let rest = d.drop_first();
    assert(long.subrange(1, 1 + rest.len() as int) =~= rest);
    assert(short.subrange(1, 1 + rest.len() as int) =~= rest);
    assert(digit_val(d[0]) * pow10(rest.len()) + digits_val(rest) == digits_val(d));
    lemma_scan_digits(long, 1, rest, digit_val(d[0]), 0);
    lemma_scan_digits(short, 1, rest, digit_val(d[0]), 0);
    // the decimal point switches both scans into fraction mode
    // the capped digits accumulate identically in both
    assert(long.subrange(dl + 1, dl + 1 + hl) =~= h);
    assert(short.subrange(dl + 1, dl + 1 + hl) =~= h);
    assert(0 * pow10(h.len()) + digits_val(h) == digits_val(h)) by (nonlinear_arith);
    lemma_scan_frac(long, dl + 1, h, a as int, 0, 0, 0);
    lemma_scan_frac(short, dl + 1, h, a as int, 0, 0, 0);
    let stf = LexState::Num {
        n: a as int,
        dec: true,
        frac: digits_val(h),
        cnt: h.len(),
        total: 0,
    };
    // the extra digits are skipped in the longer text
    assert(long.subrange(dl + 1 + hl, dl + 1 + hl + el) =~= extra);
    lemma_skip_frac(long, dl + 1 + hl, extra, a as int, digits_val(h), h.len(), 0);
    // the unit text closes the same span in both
    assert(long.subrange(dl + 1 + hl + el, long.len() as int) =~= u);
    assert(short.subrange(dl + 1 + hl, short.len() as int) =~= u);
    assert(long[dl + 1 + hl + el] == u[0] && is_unit_char(u[0]));
    assert(short[dl + 1 + hl] == u[0]);
    assert forall|k: int| dl + 1 + hl + el <= k < long.len() implies is_unit_char(
        #[trigger] long[k],
    ) by {
        assert(long[k] == u[k - (dl + 1 + hl + el)]);
    }
    assert forall|k: int| dl + 1 + hl <= k < short.len() implies is_unit_char(
        #[trigger] short[k],
    ) by {
        assert(short[k] == u[k - (dl + 1 + hl)]);
    }
    lemma_scan_unit(long, dl + 1 + hl + el, dl + 1 + hl + el, a as int, digits_val(h), h.len(), 0);
    lemma_scan_unit(short, dl + 1 + hl, dl + 1 + hl, a as int, digits_val(h), h.len(), 0);
    lemma_finish_same(long, short, dl + 1 + hl + el, dl + 1 + hl, a as int, digits_val(h), h.len(), 0);
    // chain the steps on each text
    let st1 = LexState::Num { n: digit_val(d[0]), dec: false, frac: 0, cnt: 0, total: 0 };
    let stn = LexState::Num { n: a as int, dec: false, frac: 0, cnt: 0, total: 0 };
    let std_ = LexState::Num { n: a as int, dec: true, frac: 0, cnt: 0, total: 0 };
    assert(parse_spec(long) == lex(long, 1, st1));
    assert(parse_spec(short) == lex(short, 1, st1));
    assert(lex(long, 1, st1) == lex(long, dl, stn));
    assert(lex(short, 1, st1) == lex(short, dl, stn));
    assert(lex(long, dl, stn) == lex(long, dl + 1, std_));
    assert(lex(short, dl, stn) == lex(short, dl + 1, std_));
    assert(lex(long, dl + 1, std_) == lex(long, dl + 1 + hl, stf));
    assert(lex(short, dl + 1, std_) == lex(short, dl + 1 + hl, stf));
    assert(lex(long, dl + 1 + hl, stf) == lex(long, dl + 1 + hl + el, stf));
    let stu_long = LexState::Unit {
        n: a as int,
        frac: digits_val(h),
        cnt: h.len(),
        start: dl + 1 + hl + el,
        total: 0,
    };
    let stu_short = LexState::Unit {
        n: a as int,
        frac: digits_val(h),
        cnt: h.len(),
        start: dl + 1 + hl,
        total: 0,
    };
    assert(lex(long, dl + 1 + hl + el, stf) == lex(long, dl + 1 + hl + el, stu_long));
    assert(lex(short, dl + 1 + hl, stf) == lex(short, dl + 1 + hl, stu_short));
}

/// Scanning a digit string whose value no longer fits stops with an
/// overflow error while still among the digits.
proof fn lemma_scan_digits_overflow(s: Seq<char>, i: int, d: Seq<char>, n0: int, total: int)
    requires
        0 <= i,
        i + d.len() <= s.len(),
        s.subrange(i, i + d.len()) == d,
        all_digits(d),
        0 <= n0 <= u64::MAX,
        n0 * pow10(d.len()) + digits_val(d) > u64::MAX,
    ensures
        lex(s, i, LexState::Num { n: n0, dec: false, frac: 0, cnt: 0, total }) == Err::<
            int,
            ErrView,
        >(ErrView::Overflow),
    decreases d.len(),
{
    lemma_pow10_pos(d.len());
    if d.len() == 0 {
        assert(n0 * pow10(0) > u64::MAX) by (nonlinear_arith)
            requires
                digits_val(d) == 0,
                n0 * pow10(0) + digits_val(d) > u64::MAX,
        ;
        assert(false) by (nonlinear_arith)
            requires
                n0 * pow10(0) > u64::MAX,
                pow10(0) == 1,
                n0 <= u64::MAX,
        ;
    } else {
        let c = d[0];
        assert(c == s.subrange(i, i + d.len())[0]);
        let n1 = n0 * 10 + digit_val(c);
        let l1 = (d.len() - 1) as nat;
        lemma_pow10_pos(l1);
        lemma_digits_val_nonneg(d.drop_first());
        assert(n0 * pow10(d.len()) + digits_val(d) == n1 * pow10(l1) + digits_val(
            d.drop_first(),
        )) by (nonlinear_arith)
            requires
                pow10(d.len()) == 10 * pow10(l1),
                digits_val(d) == digit_val(d[0]) * pow10(l1) + digits_val(d.drop_first()),
                n1 == n0 * 10 + digit_val(d[0]),
        ;
        if n1 > u64::MAX {
        } else {
            assert(s.subrange(i + 1, i + d.len()) =~= d.drop_first());
            lemma_scan_digits_overflow(s, i + 1, d.drop_first(), n1, total);
        }
    }
}

/// An integer literal that exceeds the accumulator's range is rejected
/// with the overflow error, before anything after it is even read.
pub proof fn lemma_overflow_rejected(d: Seq<char>, rest: Seq<char>)
    requires
        all_digits(d),
        d.len() >= 1,
        digits_val(d) > u64::MAX,
    ensures
        parse_spec(d + rest) == Err::<int, ErrView>(ErrView::Overflow),
{
    let cat = d + rest;
    lemma_digits_val_nonneg(d);
    assert(cat[0] == d[0] && is_digit(d[0]));
    let tail = d.drop_first();
    assert(cat.subrange(1, 1 + tail.len() as int) =~= tail);
    assert(digit_val(d[0]) * pow10(tail.len()) + digits_val(tail) == digits_val(d));
    lemma_scan_digits_overflow(cat, 1, tail, digit_val(d[0]), 0);
}

/// The same rejection for a span in the middle of the input: completed
/// spans before it do not save an integer literal that exceeds the
/// accumulator's range.
pub proof fn lemma_overflow_rejected_mid(s1: Seq<char>, d: Seq<char>, rest: Seq<char>, v1: int)
    requires
        parse_spec(s1) == Ok::<int, ErrView>(v1),
        all_digits(d),
        d.len() >= 1,
        digits_val(d) > u64::MAX,
    ensures
        parse_spec(s1 + " "@ + (d + rest)) == Err::<int, ErrView>(ErrView::Overflow),
{
    reveal_strlit(" ");
    let s2 = d + rest;
    let cat = s1 + " "@ + s2;
    let base = s1.len() as int + 1;
    assert(cat.subrange(0, s1.len() as int) =~= s1);
    assert(cat[s1.len() as int] == ' ');
    assert(is_ws(' '));
    assert(cat.subrange(base, cat.len() as int) =~= s2);
    let st0 = LexState::Start { first: true, total: 0 };
    lemma_lex_total_lower(s1, 0, st0);
    lemma_lex_extend(s1, cat, 0, st0);
    let stv = LexState::Start { first: false, total: v1 };
    lemma_lex_shift(cat, s2, base, 0, stv);
    // the scan of the rest alone hits the overflow among the digits
    lemma_digits_val_nonneg(d);
    assert(s2[0] == d[0] && is_digit(d[0]));
    let tail = d.drop_first();
    assert(s2.subrange(1, 1 + tail.len() as int) =~= tail);
    assert(digit_val(d[0]) * pow10(tail.len()) + digits_val(tail) == digits_val(d));
    lemma_scan_digits_overflow(s2, 1, tail, digit_val(d[0]), v1);
}

/// The running total a lexer state carries.
pub open spec fn total_of(st: LexState) -> int {
    match st {
        LexState::Start { total, .. } => total,
        LexState::Num { total, .. } => total,
        LexState::Unit { total, .. } => total,
    }
}

/// The same state with `delta` added to its running total.
pub open spec fn add_total(st: LexState, delta: int) -> LexState {
    match st {
        LexState::Start { first, total } => LexState::Start { first, total: total + delta },
        LexState::Num { n, dec, frac, cnt, total } => LexState::Num {
            n,
            dec,
            frac,
            cnt,
            total: total + delta,
        },
        LexState::Unit { n, frac, cnt, start, total } => LexState::Unit {
            n,
            frac,
            cnt,
            start,
            total: total + delta,
        },
    }
}

/// The same state with its unit-start position moved by `delta`.
pub open spec fn shift_start(st: LexState, delta: int) -> LexState {
    match st {
        LexState::Unit { n, frac, cnt, start, total } => LexState::Unit {
            n,
            frac,
            cnt,
            start: start + delta,
            total,
        },
        _ => st,
    }
}

/// The states the scan can actually be in at position `i`.
pub open spec fn wf_st(st: LexState, i: int) -> bool {
    match st {
        LexState::Start { first, total } => total >= 0,
        LexState::Num { n, dec, frac, cnt, total } => n >= 0 && frac >= 0 && total >= 0,
        LexState::Unit { n, frac, cnt, start, total } => n >= 0 && frac >= 0 && total >= 0 && 0
            <= start <= i,
    }
}

/// A span is worth a nonnegative number of bits per second.
proof fn lemma_span_bits_nonneg(n: int, frac: int, cnt: nat, level: nat)
    requires
        n >= 0,
        frac >= 0,
    ensures
        span_bits(n, frac, cnt, level) >= 0,
{
    lemma_pow10_pos(cnt);
    lemma_pow1024_pos(level);
    assert(n * pow1024(level) >= 0) by (nonlinear_arith)
        requires
            n >= 0,
            pow1024(level) >= 1,
    ;
    assert(frac * pow1024(level) >= 0) by (nonlinear_arith)
        requires
            frac >= 0,
            pow1024(level) >= 1,
    ;
    vstd::arithmetic::div_mod::lemma_div_pos_is_pos(
        frac * pow1024(level) + pow10(cnt) / 2,
        pow10(cnt) as int,
    );
}

/// A successful scan never loses what the total already held.
proof fn lemma_lex_total_lower(s: Seq<char>, i: int, st: LexState)
    requires
        0 <= i <= s.len(),
        wf_st(st, i),
        lex(s, i, st) is Ok,
    ensures
        lex(s, i, st)->Ok_0 >= total_of(st),
    decreases s.len() - i, crate::parse::lex_rank(st),
{
    match st {
        LexState::Start { first, total } => {
            if i < s.len() {
                let c = s[i];
                if is_ws(c) {
                    lemma_lex_total_lower(s, i + 1, st);
                } else if is_digit(c) {
                    lemma_lex_total_lower(
                        s,
                        i + 1,
                        LexState::Num { n: digit_val(c), dec: false, frac: 0, cnt: 0, total },
                    );
                }
            }
        },
        LexState::Num { n, dec, frac, cnt, total } => {
            if i < s.len() {
                let c = s[i];
                if is_digit(c) {
                    if dec {
                        if cnt >= crate::parse::FRACTION_PART_LIMIT {
                            lemma_lex_total_lower(s, i + 1, st);
                        } else {
                            lemma_lex_total_lower(
                                s,
                                i + 1,
                                LexState::Num {
                                    n,
                                    dec,
                                    frac: frac * 10 + digit_val(c),
                                    cnt: cnt + 1,
                                    total,
                                },
                            );
                        }
                    } else {
                        let n2 = n * 10 + digit_val(c);
                        if n2 <= u64::MAX {
                            lemma_lex_total_lower(
                                s,
                                i + 1,
                                LexState::Num { n: n2, dec, frac, cnt, total },
                            );
                        }
                    }
                } else if is_ws(c) || c == '_' {
                    lemma_lex_total_lower(s, i + 1, st);
                } else if c == '.' {
                    if !dec {
                        lemma_lex_total_lower(
                            s,
                            i + 1,
                            LexState::Num { n, dec: true, frac, cnt, total },
                        );
                    }
                } else if is_unit_char(c) {
                    lemma_lex_total_lower(
                        s,
                        i,
                        LexState::Unit { n, frac, cnt, start: i, total },
                    );
                }
            }
        },
        LexState::Unit { n, frac, cnt, start, total } => {
            let fin = finish_span(s, start, i, n, frac, cnt, total);
            if i == s.len() {
                let fin2 = finish_span(s, start, s.len() as int, n, frac, cnt, total);
                if fin2 is Ok {
                    let u = s.subrange(start, s.len() as int);
                    lemma_span_bits_nonneg(n, frac, cnt, unit_level(u)->Some_0 as nat);
                }
            } else {
                let c = s[i];
                if is_digit(c) {
                    if fin is Ok {
                        let u = s.subrange(start, i);
                        lemma_span_bits_nonneg(n, frac, cnt, unit_level(u)->Some_0 as nat);
                        lemma_lex_total_lower(
                            s,
                            i + 1,
                            LexState::Num {
                                n: digit_val(c),
                                dec: false,
                                frac: 0,
                                cnt: 0,
                                total: fin->Ok_0,
                            },
                        );
                    }
                } else if is_ws(c) {
                    if fin is Ok {
                        let u = s.subrange(start, i);
                        lemma_span_bits_nonneg(n, frac, cnt, unit_level(u)->Some_0 as nat);
                        lemma_lex_total_lower(
                            s,
                            i + 1,
                            LexState::Start { first: false, total: fin->Ok_0 },
                        );
                    }
                } else if is_unit_char(c) {
                    lemma_lex_total_lower(s, i + 1, st);
                }
            }
        },
    }
}

/// Raising the total a scan starts from raises its result by as much,
/// as long as the raised result still fits.
proof fn lemma_lex_add_total(s: Seq<char>, i: int, st: LexState, delta: int)
    requires
        0 <= i <= s.len(),
        wf_st(st, i),
        delta >= 0,
        lex(s, i, st) is Ok,
        lex(s, i, st)->Ok_0 + delta <= bw_max(),
    ensures
        lex(s, i, add_total(st, delta)) == Ok::<int, ErrView>(lex(s, i, st)->Ok_0 + delta),
    decreases s.len() - i, crate::parse::lex_rank(st),
{
    match st {
        LexState::Start { first, total } => {
            if i < s.len() {
                let c = s[i];
                if is_ws(c) {
                    lemma_lex_add_total(s, i + 1, st, delta);
                } else if is_digit(c) {
                    lemma_lex_add_total(
                        s,
                        i + 1,
                        LexState::Num { n: digit_val(c), dec: false, frac: 0, cnt: 0, total },
                        delta,
                    );
                }
            }
        },
        LexState::Num { n, dec, frac, cnt, total } => {
            if i < s.len() {
                let c = s[i];
                if is_digit(c) {
                    if dec {
                        if cnt >= crate::parse::FRACTION_PART_LIMIT {
                            lemma_lex_add_total(s, i + 1, st, delta);
                        } else {
                            lemma_lex_add_total(
                                s,
                                i + 1,
                                LexState::Num {
                                    n,
                                    dec,
                                    frac: frac * 10 + digit_val(c),
                                    cnt: cnt + 1,
                                    total,
                                },
                                delta,
                            );
                        }
                    } else {
                        let n2 = n * 10 + digit_val(c);
                        if n2 <= u64::MAX {
                            lemma_lex_add_total(
                                s,
                                i + 1,
                                LexState::Num { n: n2, dec, frac, cnt, total },
                                delta,
                            );
                        }
                    }
                } else if is_ws(c) || c == '_' {
                    lemma_lex_add_total(s, i + 1, st, delta);
                } else if c == '.' {
                    if !dec {
                        lemma_lex_add_total(
                            s,
                            i + 1,
                            LexState::Num { n, dec: true, frac, cnt, total },
                            delta,
                        );
                    }
                } else if is_unit_char(c) {
                    lemma_lex_add_total(
                        s,
                        i,
                        LexState::Unit { n, frac, cnt, start: i, total },
                        delta,
                    );
                }
            }
        },
        LexState::Unit { n, frac, cnt, start, total } => {
            if i == s.len() {
                let fin = finish_span(s, start, s.len() as int, n, frac, cnt, total);
                let u = s.subrange(start, s.len() as int);
                lemma_span_bits_nonneg(n, frac, cnt, unit_level(u)->Some_0 as nat);
            } else {
                let c = s[i];
                let fin = finish_span(s, start, i, n, frac, cnt, total);
                if is_digit(c) {
                    if fin is Ok {
                        let u = s.subrange(start, i);
                        lemma_span_bits_nonneg(n, frac, cnt, unit_level(u)->Some_0 as nat);
                        let st2 = LexState::Num {
                            n: digit_val(c),
                            dec: false,
                            frac: 0,
                            cnt: 0,
                            total: fin->Ok_0,
                        };
                        lemma_lex_total_lower(s, i + 1, st2);
                        lemma_lex_add_total(s, i + 1, st2, delta);
                    }
                } else if is_ws(c) {
                    if fin is Ok {
                        let u = s.subrange(start, i);
                        lemma_span_bits_nonneg(n, frac, cnt, unit_level(u)->Some_0 as nat);
                        let st2 = LexState::Start { first: false, total: fin->Ok_0 };
                        lemma_lex_total_lower(s, i + 1, st2);
                        lemma_lex_add_total(s, i + 1, st2, delta);
                    }
                } else if is_unit_char(c) {
                    lemma_lex_add_total(s, i + 1, st, delta);
                }
            }
        },
    }
}

/// An error with every byte offset moved by `d`; the offending
/// substring and the value read so far are untouched.
pub open spec fn err_shift(e: ErrView, d: int) -> ErrView {
    match e {
        ErrView::Empty => ErrView::Empty,
        ErrView::InvalidCharacter(off) => ErrView::InvalidCharacter(off + d),
        ErrView::UnitNeeded { offset, value } => ErrView::UnitNeeded { offset: offset + d, value },
        ErrView::UnknownUnit { start, end, unit, value } => ErrView::UnknownUnit {
            start: start + d,
            end: end + d,
            unit,
            value,
        },
        ErrView::Overflow => ErrView::Overflow,
    }
}

/// A scan outcome with its error offsets moved by `d`.
pub open spec fn shift_result(r: Result<int, ErrView>, d: int) -> Result<int, ErrView> {
    match r {
        Ok(v) => Ok(v),
        Err(e) => Err(err_shift(e, d)),
    }
}

/// Byte offsets within an embedded text sit at a constant distance from
/// the offsets of the text alone.
proof fn lemma_byte_at_offset(cat: Seq<char>, s2: Seq<char>, base: int, i: int)
    requires
        0 <= base,
        base + s2.len() == cat.len(),
        cat.subrange(base, cat.len() as int) == s2,
        0 <= i <= s2.len(),
    ensures
        crate::chars::byte_at(cat, base + i) == crate::chars::byte_at(cat, base)
            + crate::chars::byte_at(s2, i),
    decreases i,
{
    if i > 0 {
        lemma_byte_at_offset(cat, s2, base, i - 1);
        assert(cat[base + i - 1] == s2[i - 1]) by {
            assert(s2[i - 1] == cat.subrange(base, cat.len() as int)[i - 1]);
        }
    }
}

/// A scan of text embedded at `base` gives the scan of the text alone,
/// with every error offset moved by the byte offset of `base`.
proof fn lemma_lex_shift(cat: Seq<char>, s2: Seq<char>, base: int, i: int, st: LexState)
    requires
        0 <= base,
        base + s2.len() == cat.len(),
        cat.subrange(base, cat.len() as int) == s2,
        0 <= i <= s2.len(),
        wf_st(st, i),
    ensures
        lex(cat, base + i, shift_start(st, base)) == shift_result(
            lex(s2, i, st),
            crate::chars::byte_at(cat, base),
        ),
    decreases s2.len() - i, crate::parse::lex_rank(st),
{
    lemma_byte_at_offset(cat, s2, base, i);
    if i < s2.len() {
        assert(cat[base + i] == s2[i]) by {
            assert(s2[i] == cat.subrange(base, cat.len() as int)[i]);
        }
    }
    match st {
        LexState::Start { first, total } => {
            if i < s2.len() {
                let c = s2[i];
                if is_ws(c) {
                    lemma_lex_shift(cat, s2, base, i + 1, st);
                } else if is_digit(c) {
                    lemma_lex_shift(
                        cat,
                        s2,
                        base,
                        i + 1,
                        LexState::Num { n: digit_val(c), dec: false, frac: 0, cnt: 0, total },
                    );
                }
            }
        },
        LexState::Num { n, dec, frac, cnt, total } => {
            if i < s2.len() {
                let c = s2[i];
                if is_digit(c) {
                    if dec {
                        if cnt >= crate::parse::FRACTION_PART_LIMIT {
                            lemma_lex_shift(cat, s2, base, i + 1, st);
                        } else {
                            lemma_lex_shift(
                                cat,
                                s2,
                                base,
                                i + 1,
                                LexState::Num {
                                    n,
                                    dec,
                                    frac: frac * 10 + digit_val(c),
                                    cnt: cnt + 1,
                                    total,
                                },
                            );
                        }
                    } else {
                        let n2 = n * 10 + digit_val(c);
                        if n2 <= u64::MAX {
                            lemma_lex_shift(
                                cat,
                                s2,
                                base,
                                i + 1,
                                LexState::Num { n: n2, dec, frac, cnt, total },
                            );
                        }
                    }
                } else if is_ws(c) || c == '_' {
                    lemma_lex_shift(cat, s2, base, i + 1, st);
                } else if c == '.' {
                    if !dec {
                        lemma_lex_shift(
                            cat,
                            s2,
                            base,
                            i + 1,
                            LexState::Num { n, dec: true, frac, cnt, total },
                        );
                    }
                } else if is_unit_char(c) {
                    lemma_lex_shift(
                        cat,
                        s2,
                        base,
                        i,
                        LexState::Unit { n, frac, cnt, start: i, total },
                    );
                }
            }
        },
        LexState::Unit { n, frac, cnt, start, total } => {
            assert(cat.subrange(base + start, base + i) =~= s2.subrange(start, i));
            lemma_byte_at_offset(cat, s2, base, start);
            if i == s2.len() {
                assert(cat.subrange(base + start, cat.len() as int) =~= s2.subrange(
                    start,
                    s2.len() as int,
                ));
            } else {
                let c = s2[i];
                let fin = finish_span(s2, start, i, n, frac, cnt, total);
                if fin is Ok {
                    let u = s2.subrange(start, i);
                    lemma_span_bits_nonneg(n, frac, cnt, unit_level(u)->Some_0 as nat);
                }
                if is_digit(c) {
                    if fin is Ok {
                        lemma_lex_shift(
                            cat,
                            s2,
                            base,
                            i + 1,
                            LexState::Num {
                                n: digit_val(c),
                                dec: false,
                                frac: 0,
                                cnt: 0,
                                total: fin->Ok_0,
                            },
                        );
                    }
                } else if is_ws(c) {
                    if fin is Ok {
                        lemma_lex_shift(
                            cat,
                            s2,
                            base,
                            i + 1,
                            LexState::Start { first: false, total: fin->Ok_0 },
                        );
                    }
                } else if is_unit_char(c) {
                    lemma_lex_shift(cat, s2, base, i + 1, st);
                }
            }
        },
    }
}

/// A successful scan of a text keeps its value when the text continues
/// with whitespace: it ends in the between-spans state just past it.
proof fn lemma_lex_extend(s1: Seq<char>, cat: Seq<char>, i: int, st: LexState)
    requires
        cat.len() > s1.len(),
        cat.subrange(0, s1.len() as int) == s1,
        is_ws(cat[s1.len() as int]),
        0 <= i <= s1.len(),
        wf_st(st, i),
        lex(s1, i, st) is Ok,
    ensures
        lex(cat, i, st) == lex(
            cat,
            s1.len() as int + 1,
            LexState::Start { first: false, total: lex(s1, i, st)->Ok_0 },
        ),
    decreases s1.len() - i, crate::parse::lex_rank(st),
{
    if i < s1.len() {
        assert(cat[i] == s1[i]) by {
            assert(s1[i] == cat.subrange(0, s1.len() as int)[i]);
        }
    }
    match st {
        LexState::Start { first, total } => {
            if i == s1.len() {
                assert(!first);
            } else {
                let c = s1[i];
                if is_ws(c) {
                    lemma_lex_extend(s1, cat, i + 1, st);
                } else if is_digit(c) {
                    lemma_lex_extend(
                        s1,
                        cat,
                        i + 1,
                        LexState::Num { n: digit_val(c), dec: false, frac: 0, cnt: 0, total },
                    );
                }
            }
        },
        LexState::Num { n, dec, frac, cnt, total } => {
            if i < s1.len() {
                let c = s1[i];
                if is_digit(c) {
                    if dec {
                        if cnt >= crate::parse::FRACTION_PART_LIMIT {
                            lemma_lex_extend(s1, cat, i + 1, st);
                        } else {
                            lemma_lex_extend(
                                s1,
                                cat,
                                i + 1,
                                LexState::Num {
                                    n,
                                    dec,
                                    frac: frac * 10 + digit_val(c),
                                    cnt: cnt + 1,
                                    total,
                                },
                            );
                        }
                    } else {
                        let n2 = n * 10 + digit_val(c);
                        if n2 <= u64::MAX {
                            lemma_lex_extend(
                                s1,
                                cat,
                                i + 1,
                                LexState::Num { n: n2, dec, frac, cnt, total },
                            );
                        }
                    }
                } else if is_ws(c) || c == '_' {
                    lemma_lex_extend(s1, cat, i + 1, st);
                } else if c == '.' {
                    if !dec {
                        lemma_lex_extend(
                            s1,
                            cat,
                            i + 1,
                            LexState::Num { n, dec: true, frac, cnt, total },
                        );
                    }
                } else if is_unit_char(c) {
                    lemma_lex_extend(
                        s1,
                        cat,
                        i,
                        LexState::Unit { n, frac, cnt, start: i, total },
                    );
                }
            }
        },
        LexState::Unit { n, frac, cnt, start, total } => {
            assert(cat.subrange(start, i) =~= s1.subrange(start, i));
            if i == s1.len() {
                // the span ends at the end of the first text; in the longer
                // text the whitespace closes the same span
                assert(lex(s1, i, st) == finish_span(s1, start, i, n, frac, cnt, total));
                assert(is_ws(cat[i]) && !is_digit(cat[i]));
            } else {
                let c = s1[i];
                let fin = finish_span(s1, start, i, n, frac, cnt, total);
                if fin is Ok {
                    let u = s1.subrange(start, i);
                    lemma_span_bits_nonneg(n, frac, cnt, unit_level(u)->Some_0 as nat);
                }
                if is_digit(c) {
                    if fin is Ok {
                        lemma_lex_extend(
                            s1,
                            cat,
                            i + 1,
                            LexState::Num {
                                n: digit_val(c),
                                dec: false,
                                frac: 0,
                                cnt: 0,
                                total: fin->Ok_0,
                            },
                        );
                    }
                } else if is_ws(c) {
                    if fin is Ok {
                        lemma_lex_extend(
                            s1,
                            cat,
                            i + 1,
                            LexState::Start { first: false, total: fin->Ok_0 },
                        );
                    }
                } else if is_unit_char(c) {
                    lemma_lex_extend(s1, cat, i + 1, st);
                }
            }
        },
    }
}

/// Leading whitespace is skipped without touching the state.
proof fn lemma_lex_skip_ws(s: Seq<char>, i: int, j: int, first: bool, total: int)
    requires
        0 <= i <= j <= s.len(),
        forall|k: int| i <= k < j ==> is_ws(#[trigger] s[k]),
    ensures
        lex(s, i, LexState::Start { first, total }) == lex(s, j, LexState::Start { first, total }),
    decreases j - i,
{
    if i < j {
        lemma_lex_skip_ws(s, i + 1, j, first, total);
    }
}

/// Surrounding whitespace only moves byte offsets: parsing a text behind
/// a whitespace prefix gives the same value, and the same error with the
/// same substring and partial value, with every offset moved by the
/// prefix's byte length.
pub proof fn lemma_whitespace_moves_offsets_only(w: Seq<char>, s: Seq<char>)
    requires
        forall|k: int| 0 <= k < w.len() ==> is_ws(#[trigger] w[k]),
    ensures
        parse_spec(w + s) == shift_result(
            parse_spec(s),
            crate::chars::byte_at(w + s, w.len() as int),
        ),
{
    let cat = w + s;
    let base = w.len() as int;
    assert(cat.subrange(base, cat.len() as int) =~= s);
    assert forall|k: int| 0 <= k < base implies is_ws(#[trigger] cat[k]) by {
        assert(cat[k] == w[k]);
    }
    lemma_lex_skip_ws(cat, 0, base, true, 0);
    lemma_lex_shift(cat, s, base, 0, LexState::Start { first: true, total: 0 });
}

/// Once a scan succeeds, whether it was still waiting for the very first
/// digit makes no difference.
proof fn lemma_lex_first(s: Seq<char>, i: int, t: int)
    requires
        0 <= i <= s.len(),
        lex(s, i, LexState::Start { first: true, total: t }) is Ok,
    ensures
        lex(s, i, LexState::Start { first: false, total: t }) == lex(
            s,
            i,
            LexState::Start { first: true, total: t },
        ),
    decreases s.len() - i,
{
    if i < s.len() {
        if is_ws(s[i]) {
            lemma_lex_first(s, i + 1, t);
        }
    }
}

/// Concatenation is additive: a text made of two successfully parsing
/// texts joined by a space parses to the sum of their magnitudes,
/// whenever that sum still fits.
pub proof fn lemma_concat_additive(s1: Seq<char>, s2: Seq<char>, v1: int, v2: int)
    requires
        parse_spec(s1) == Ok::<int, ErrView>(v1),
        parse_spec(s2) == Ok::<int, ErrView>(v2),
        v1 + v2 <= bw_max(),
    ensures
        parse_spec(s1 + " "@ + s2) == Ok::<int, ErrView>(v1 + v2),
{
    reveal_strlit(" ");
    let cat = s1 + " "@ + s2;
    let base = s1.len() as int + 1;
    assert(cat.subrange(0, s1.len() as int) =~= s1);
    assert(cat[s1.len() as int] == ' ');
    assert(is_ws(' '));
    assert(cat.subrange(base, cat.len() as int) =~= s2);
    let st0 = LexState::Start { first: true, total: 0 };
    lemma_lex_total_lower(s1, 0, st0);
    lemma_lex_total_lower(s2, 0, st0);
    lemma_lex_extend(s1, cat, 0, st0);
    lemma_lex_first(s2, 0, 0);
    let stc = LexState::Start { first: false, total: 0 };
    lemma_lex_add_total(s2, 0, stc, v1);
    let stv = LexState::Start { first: false, total: v1 };
    lemma_lex_shift(cat, s2, base, 0, stv);
    assert(lex(cat, base, stv) is Ok && lex(cat, base, stv)->Ok_0 == v1 + v2);
}

/// Two rate-spans in one text are worth the sum of the spans parsed
/// alone: `"{a}{u1} {b}{u2}"` parses to `"{a}{u1}"` plus `"{b}{u2}"`.
pub proof fn lemma_two_spans_additive(a: nat, u1: Seq<char>, b: nat, u2: Seq<char>, l1: int, l2: int)
    requires
        unit_level(u1) == Some(l1),
        unit_level(u2) == Some(l2),
        a <= u64::MAX,
        b <= u64::MAX,
        8 * (a as int) * (pow1024(l1 as nat) as int) + 8 * (b as int) * (pow1024(l2 as nat) as int)
            <= bw_max(),
    ensures
        parse_spec(dec_rep(a) + u1 + " "@ + (dec_rep(b) + u2)) == Ok::<int, ErrView>(
            8 * (a as int) * (pow1024(l1 as nat) as int) + 8 * (b as int) * (pow1024(
                l2 as nat,
            ) as int),
        ),
{
    let va = 8 * (a as int) * (pow1024(l1 as nat) as int);
    let vb = 8 * (b as int) * (pow1024(l2 as nat) as int);
    assert(va >= 0 && vb >= 0) by (nonlinear_arith)
        requires
            va == 8 * (a as int) * (pow1024(l1 as nat) as int),
            vb == 8 * (b as int) * (pow1024(l2 as nat) as int),
            a >= 0,
            b >= 0,
            pow1024(l1 as nat) >= 0,
            pow1024(l2 as nat) >= 0,
    ;
    lemma_parse_integer_span(a, u1, l1);
    lemma_parse_integer_span(b, u2, l2);
    lemma_concat_additive(dec_rep(a) + u1, dec_rep(b) + u2, va, vb);
}

} // verus!
