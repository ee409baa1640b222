use vstd::prelude::*;

use crate::currency::{currency_spec, Iso};
use crate::formatter::{digit_char, digits_of, format_spec, grouped, number_text, padded};
use crate::locale::{locale_spec, LocalFormat, Locale};
use crate::money::{
    fits_i128, lemma_pow10_positive, lemma_rounded_is_multiple, minor_unit, pow10, rounded, Money,
    Round, FRACTION_DIGITS,
};
use crate::parser::{
    digit_value, digits_value, fraction_part, is_digit, magnitude, parsed, point, strip_symbol,
    unsigned_part, well_formed_number, whole_part, without, zeros,
};

verus! {

pub open spec fn all_digits(s: Seq<char>) -> bool {
    forall|i: int| 0 <= i < s.len() ==> is_digit(#[trigger] s[i])
}

proof fn lemma_digit_char(d: int)
    requires
        0 <= d < 10,
    ensures
        is_digit(digit_char(d)),
        digit_value(digit_char(d)) == d,
{
}

proof fn lemma_digits_value_concat(a: Seq<char>, b: Seq<char>)
    ensures
        digits_value(a + b) == digits_value(a) * pow10(b.len()) + digits_value(b),
    decreases b.len(),
{
    if b.len() == 0 {
        assert(a + b =~= a);
        assert(pow10(0) == 1);
        assert(digits_value(b) == 0);
        assert(digits_value(a) * 1 == digits_value(a));
    } else {
        lemma_digits_value_concat(a, b.drop_last());
        assert((a + b).drop_last() =~= a + b.drop_last());
        assert((a + b).last() == b.last());
        assert(digits_value(a + b) == 10 * digits_value(a + b.drop_last()) + digit_value(b.last()));
        assert(digits_value(b) == 10 * digits_value(b.drop_last()) + digit_value(b.last()));
        let p = pow10((b.len() - 1) as nat);
        assert(pow10(b.len()) == 10 * p);
        assert(10 * (digits_value(a) * p + digits_value(b.drop_last())) + digit_value(b.last())
            == digits_value(a) * (10 * p) + (10 * digits_value(b.drop_last()) + digit_value(
            b.last(),
        ))) by (nonlinear_arith);
    }
}

proof fn lemma_without_concat(a: Seq<char>, b: Seq<char>, c: char)
    ensures
        without(a + b, c) == without(a, c) + without(b, c),
    decreases b.len(),
{
    if b.len() == 0 {
        assert(a + b =~= a);
        assert(without(a, c) + without(b, c) =~= without(a, c));
    } else {
        lemma_without_concat(a, b.drop_last(), c);
        assert((a + b).drop_last() =~= a + b.drop_last());
        if b.last() == c {
        } else {
            assert(without(a, c) + without(b.drop_last(), c).push(b.last()) =~= (without(a, c)
                + without(b.drop_last(), c)).push(b.last()));
        }
    }
}

proof fn lemma_without_digits(s: Seq<char>, c: char)
    requires
        all_digits(s),
        !is_digit(c),
    ensures
        without(s, c) == s,
    decreases s.len(),
{
    if s.len() > 0 {
        lemma_without_digits(s.drop_last(), c);
        assert(is_digit(s[s.len() - 1]));
        assert(s.drop_last().push(s.last()) =~= s);
    }
}

proof fn lemma_digits_of(n: nat)
    ensures
        all_digits(digits_of(n)),
        digits_of(n).len() >= 1,
        digits_value(digits_of(n)) == n,
    decreases n,
{
    lemma_digit_char((n % 10) as int);
    if n >= 10 {
        lemma_digits_of(n / 10);
        let s = digits_of(n);
        assert(s.drop_last() =~= digits_of(n / 10));
        assert forall|i: int| 0 <= i < s.len() implies is_digit(#[trigger] s[i]) by {
            if i < s.len() - 1 {
                assert(s[i] == digits_of(n / 10)[i]);
            }
        }
        vstd::arithmetic::div_mod::lemma_fundamental_div_mod(n as int, 10);
        assert(digits_value(s) == 10 * digits_value(digits_of(n / 10)) + digit_value(
            digit_char((n % 10) as int),
        ));
    } else {
        let s = digits_of(n);
        assert(s.drop_last() =~= Seq::<char>::empty());
        assert(digits_value(Seq::<char>::empty()) == 0);
        assert(digits_value(s) == 10 * digits_value(s.drop_last()) + digit_value(s.last()));
    }
}

proof fn lemma_padded(n: nat, w: nat)
    ensures
        all_digits(padded(n, w)),
        padded(n, w).len() == w,
        digits_value(padded(n, w)) == n as int % pow10(w),
    decreases w,
{
    if w > 0 {
        lemma_padded(n / 10, (w - 1) as nat);
        lemma_digit_char((n % 10) as int);
        let s = padded(n, w);
        assert(s.drop_last() =~= padded(n / 10, (w - 1) as nat));
        assert forall|i: int| 0 <= i < s.len() implies is_digit(#[trigger] s[i]) by {
            if i < s.len() - 1 {
                assert(s[i] == padded(n / 10, (w - 1) as nat)[i]);
            }
        }
        let p = pow10((w - 1) as nat);
        lemma_pow10_positive((w - 1) as nat);
        assert(pow10(w) == 10 * p);
        vstd::arithmetic::div_mod::lemma_breakdown(n as int, 10, p);
    } else {
        assert(n % 1 == 0);
    }
}

proof fn lemma_zeros(k: nat)
    ensures
        all_digits(zeros(k)),
        zeros(k).len() == k,
        digits_value(zeros(k)) == 0,
    decreases k,
{
    if k > 0 {
        lemma_zeros((k - 1) as nat);
        assert(zeros(k).drop_last() =~= zeros((k - 1) as nat));
    }
}

proof fn lemma_all_digits_concat(a: Seq<char>, b: Seq<char>)
    requires
        all_digits(a),
        all_digits(b),
    ensures
        all_digits(a + b),
{
    assert forall|i: int| 0 <= i < (a + b).len() implies is_digit(#[trigger] (a + b)[i]) by {
        if i < a.len() {
            assert((a + b)[i] == a[i]);
        } else {
            assert((a + b)[i] == b[i - a.len()]);
        }
    }
}

/// Grouped digits start and end with a digit, hold only digits and the separator, and
/// without the separator write `n`.
proof fn lemma_grouped(n: nat, sep: char, w: nat)
    requires
        !is_digit(sep),
        w >= 1,
    ensures
        grouped(n, sep, w).len() >= 1,
        is_digit(grouped(n, sep, w)[0]),
        is_digit(grouped(n, sep, w).last()),
        forall|i: int|
            0 <= i < grouped(n, sep, w).len() ==> is_digit(#[trigger] grouped(n, sep, w)[i])
                || grouped(n, sep, w)[i] == sep,
        all_digits(without(grouped(n, sep, w), sep)),
        without(grouped(n, sep, w), sep).len() >= 1,
        digits_value(without(grouped(n, sep, w), sep)) == n,
    decreases n,
{
    let g = grouped(n, sep, w);
    lemma_pow10_positive(w);
    if n < pow10(w) {
        lemma_digits_of(n);
        lemma_without_digits(digits_of(n), sep);
        assert(is_digit(g[g.len() - 1]));
    } else {
        let p = pow10(w);
        crate::money::lemma_pow10_monotonic(1, w);
        reveal_with_fuel(pow10, 2);
        crate::formatter::lemma_quotient_smaller(n, p);
        let q = (n as int / p) as nat;
        let r = (n as int % p) as nat;
        lemma_grouped(q, sep, w);
        lemma_padded(r, w);
        let gq = grouped(q, sep, w);
        let pr = padded(r, w);
        assert(g == gq + seq![sep] + pr);
        assert(g[0] == gq[0]);
        assert(g.last() == pr.last());
        assert(is_digit(pr[pr.len() - 1]));
        assert forall|i: int| 0 <= i < g.len() implies is_digit(#[trigger] g[i]) || g[i] == sep by {
            if i < gq.len() {
                assert(g[i] == gq[i]);
            } else if i > gq.len() {
                assert(g[i] == pr[i - gq.len() - 1]);
            }
        }
        lemma_without_concat(gq + seq![sep], pr, sep);
        lemma_without_concat(gq, seq![sep], sep);
        let one = seq![sep];
        assert(one.drop_last() =~= Seq::<char>::empty());
        assert(one.len() == 1 && one.last() == sep);
        assert(without(Seq::<char>::empty(), sep) == Seq::<char>::empty());
        assert(without(one, sep) == without(one.drop_last(), sep));
        assert(without(one, sep) =~= Seq::<char>::empty());
        lemma_without_digits(pr, sep);
        let wq = without(gq, sep);
        assert(without(g, sep) =~= wq + pr);
        lemma_all_digits_concat(wq, pr);
        lemma_digits_value_concat(wq, pr);
        vstd::arithmetic::div_mod::lemma_fundamental_div_mod(n as int, p);
        vstd::arithmetic::div_mod::lemma_mod_mod(n as int, p, 1);
        vstd::arithmetic::div_mod::lemma_small_mod(r, p as nat);
        assert(digits_value(without(g, sep)) == q * p + r);
    }
}

/// Every symbol of the catalog is non-empty and opens with neither a digit nor a minus.
proof fn lemma_symbols(code: Iso)
    ensures
        currency_spec(code).symbol@.len() >= 1,
        !is_digit(currency_spec(code).symbol@[0]),
        currency_spec(code).symbol@[0] != '-',
{
    reveal_strlit("د.إ");
    reveal_strlit("ب.د");
    reveal_strlit("€");
    reveal_strlit("£");
    reveal_strlit("₹");
    reveal_strlit("$");
}

proof fn lemma_unsigned_part(negative: bool, symbol: Seq<char>, body: Seq<char>, first: bool)
    requires
        symbol.len() >= 1,
        !is_digit(symbol[0]),
        symbol[0] != '-',
        body.len() >= 1,
        is_digit(body[0]),
        is_digit(body.last()),
    ensures
        ({
            let sign: Seq<char> = if negative {
                seq!['-']
            } else {
                seq![]
            };
            let text = if first {
                sign + symbol + body
            } else {
                sign + body + symbol
            };
            unsigned_part(text, symbol) == (negative, body)
        }),
{
    let sign: Seq<char> = if negative {
        seq!['-']
    } else {
        seq![]
    };
    let k = symbol.len() as int;
    if first {
        let rest = symbol + body;
        assert(rest.take(k) =~= symbol);
        assert(rest.skip(k) =~= body);
        assert(strip_symbol(rest, symbol) == body);
        if negative {
            assert((sign + symbol + body).drop_first() =~= rest);
        } else {
            assert(sign + symbol + body =~= rest);
        }
    } else {
        let rest = body + symbol;
        assert(rest.take(k)[0] == body[0]);
        assert(rest.take(k) != symbol);
        assert(rest.skip(rest.len() - k) =~= symbol);
        assert(rest.take(rest.len() - k) =~= body);
        assert(strip_symbol(rest, symbol) == body);
        if negative {
            assert((sign + body + symbol).drop_first() =~= rest);
        } else {
            assert(sign + body + symbol =~= rest);
        }
    }
}

/// The number that the formatter writes for a magnitude that is a whole number of minor
/// units reads back, without its group separators, as that magnitude.
proof fn lemma_number_text(a: nat, e: nat, f: LocalFormat)
    requires
        f.wf(),
        e <= 3,
        a as int % pow10((FRACTION_DIGITS - e) as nat) == 0,
    ensures
        number_text(a, e, f).len() >= 1,
        is_digit(number_text(a, e, f)[0]),
        is_digit(number_text(a, e, f).last()),
        well_formed_number(without(number_text(a, e, f), f.grouping_separator), f.decimal_separator),
        magnitude(without(number_text(a, e, f), f.grouping_separator), f.decimal_separator) == a,
{
    let grp = f.grouping_separator;
    let dec = f.decimal_separator;
    let big = pow10(FRACTION_DIGITS as nat);
    let unit = pow10((FRACTION_DIGITS - e) as nat);
    let pe = pow10(e);
    crate::money::lemma_pow10_add((FRACTION_DIGITS - e) as nat, e);
    assert(big == unit * pe);
    lemma_pow10_positive(FRACTION_DIGITS as nat);
    lemma_pow10_positive((FRACTION_DIGITS - e) as nat);
    lemma_pow10_positive(e);
    let whole = (a as int / big) as nat;
    let rem = a as int % big;
    let minor = (rem / unit) as nat;
    vstd::arithmetic::div_mod::lemma_fundamental_div_mod(a as int, big);
    vstd::arithmetic::div_mod::lemma_mod_mod(a as int, unit, pe);
    assert(rem % unit == 0);
    vstd::arithmetic::div_mod::lemma_fundamental_div_mod(rem, unit);
    assert(rem == unit * minor);
    assert(minor < pe) by (nonlinear_arith)
        requires
            rem == unit * minor,
            rem < unit * pe,
            unit > 0,
    ;
    let g = grouped(whole, grp, f.grouping_width as nat);
    lemma_grouped(whole, grp, f.grouping_width as nat);
    let wg = without(g, grp);
    let body = number_text(a, e, f);
    if e == 0 {
        assert(body == g);
        assert(!exists|i: int| 0 <= i < wg.len() && wg[i] == dec);
        assert(point(wg, dec) == wg.len());
        assert(whole_part(wg, dec) =~= wg);
        assert(fraction_part(wg, dec) =~= Seq::<char>::empty());
        assert(is_digit(wg[0]));
        lemma_zeros(FRACTION_DIGITS as nat);
        assert(wg + Seq::<char>::empty() =~= wg);
        lemma_digits_value_concat(wg, zeros(FRACTION_DIGITS as nat));
        assert(pe == 1);
        assert(rem == 0);
        assert(magnitude(wg, dec) == whole * big);
    } else {
        let pd = padded(minor, e);
        lemma_padded(minor, e);
        vstd::arithmetic::div_mod::lemma_small_mod(minor, pe as nat);
        assert(body == g + seq![dec] + pd);
        let one = seq![dec];
        assert(one.drop_last() =~= Seq::<char>::empty());
        assert(without(Seq::<char>::empty(), grp) == Seq::<char>::empty());
        assert(without(one, grp) == without(Seq::<char>::empty(), grp).push(dec));
        assert(without(one, grp) =~= one);
        lemma_without_concat(g + one, pd, grp);
        lemma_without_concat(g, one, grp);
        lemma_without_digits(pd, grp);
        let n = wg + one + pd;
        assert(without(body, grp) =~= n);
        let k = wg.len() as int;
        assert(n[k] == dec);
        assert forall|i: int| 0 <= i < n.len() implies is_digit(#[trigger] n[i]) || n[i] == dec by {
            if i < k {
                assert(n[i] == wg[i]);
            } else if i > k {
                assert(n[i] == pd[i - k - 1]);
            }
        }
        assert forall|i: int| 0 <= i < n.len() && n[i] == dec implies i == k by {
            if i < k {
                assert(n[i] == wg[i]);
            } else if i > k {
                assert(n[i] == pd[i - k - 1]);
            }
        }
        assert(point(n, dec) == k);
        assert(whole_part(n, dec) =~= wg);
        assert(fraction_part(n, dec) =~= pd);
        assert(is_digit(n[0]));
        assert(well_formed_number(n, dec));
        lemma_zeros((FRACTION_DIGITS - e) as nat);
        lemma_digits_value_concat(wg + pd, zeros((FRACTION_DIGITS - e) as nat));
        lemma_digits_value_concat(wg, pd);
        assert(magnitude(n, dec) == (whole * pe + minor) * unit);
        assert((whole * pe + minor) * unit == whole * (unit * pe) + unit * minor) by (nonlinear_arith);
    }
}

/// Parsing what the formatter writes, in the same locale and for the same currency, gives
/// the amount rounded half up to the currency's exponent, as the formatter shows it.
pub proof fn lemma_parse_format_round_trip(m: Money, locale: Locale)
    requires
        fits_i128(rounded(m.scaled as int, minor_unit(m.currency), Round::HalfUp)),
    ensures
        parsed(
            format_spec(m, locale_spec(locale)),
            currency_spec(m.currency).symbol@,
            locale_spec(locale),
        ) == Some(rounded(m.scaled as int, minor_unit(m.currency), Round::HalfUp)),
{
    let f = locale_spec(locale);
    let c = currency_spec(m.currency);
    let unit = minor_unit(m.currency);
    let v = rounded(m.scaled as int, unit, Round::HalfUp);
    crate::currency::lemma_exponent_small(m.currency);
    lemma_pow10_positive((FRACTION_DIGITS - c.exponent) as nat);
    lemma_rounded_is_multiple(m.scaled as int, unit, Round::HalfUp);
    let a = if v < 0 {
        -v
    } else {
        v
    };
    vstd::arithmetic::div_mod::lemma_fundamental_div_mod(v, unit);
    let k = v / unit;
    assert(a == unit * (if v < 0 {
        -k
    } else {
        k
    })) by (nonlinear_arith)
        requires
            v == unit * k + 0,
            a == if v < 0 {
                -v
            } else {
                v
            },
    ;
    vstd::arithmetic::div_mod::lemma_mod_multiples_basic(
        if v < 0 {
            -k
        } else {
            k
        },
        unit,
    );
    assert(a % unit == 0) by (nonlinear_arith)
        requires
            a == unit * (if v < 0 {
                -k
            } else {
                k
            }),
            (if v < 0 {
                -k
            } else {
                k
            }) * unit % unit == 0,
    ;
    lemma_number_text(a as nat, c.exponent as nat, f);
    lemma_symbols(m.currency);
    let body = number_text(a as nat, c.exponent as nat, f);
    lemma_unsigned_part(v < 0, c.symbol@, body, c.symbol_first);
}

} // verus!
