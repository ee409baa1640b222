use vstd::prelude::*;
use vstd::string::StrSliceExecFns;

use crate::currency::{currency_spec, from_enum};
use crate::locale::{from_locale, locale_spec, LocalFormat, Locale};
use crate::money::{
    fits_i128, lemma_pow10_monotonic, lemma_pow10_positive, minor_unit, pow10, pow10_exec, round_to, rounded, Money,
    Round, FRACTION_DIGITS,
};

verus! {

/// The character of a decimal digit.
pub open spec fn digit_char(d: int) -> char {
    if d == 0 {
        '0'
    } else if d == 1 {
        '1'
    } else if d == 2 {
        '2'
    } else if d == 3 {
        '3'
    } else if d == 4 {
        '4'
    } else if d == 5 {
        '5'
    } else if d == 6 {
        '6'
    } else if d == 7 {
        '7'
    } else if d == 8 {
        '8'
    } else {
        '9'
    }
}

/// The decimal digits of `n`, without leading zeros (a single `0` for zero).
pub open spec fn digits_of(n: nat) -> Seq<char>
    decreases n,
{
    if n < 10 {
        seq![digit_char(n as int)]
    } else {
        digits_of(n / 10).push(digit_char((n % 10) as int))
    }
}

/// The last `w` decimal digits of `n`, with leading zeros.
pub open spec fn padded(n: nat, w: nat) -> Seq<char>
    decreases w,
{
    if w == 0 {
        seq![]
    } else {
        padded(n / 10, (w - 1) as nat).push(digit_char((n % 10) as int))
    }
}

/// The digits of `n` with `sep` between groups of `w` digits, counted from the right.
pub open spec fn grouped(n: nat, sep: char, w: nat) -> Seq<char>
    decreases n via grouped_decreases
{
    if w == 0 || n < pow10(w) {
        digits_of(n)
    } else {
        grouped((n as int / pow10(w)) as nat, sep, w) + seq![sep] + padded((n as int % pow10(w)) as nat, w)
    }
}

#[via_fn]
proof fn grouped_decreases(n: nat, sep: char, w: nat) {
    if !(w == 0 || n < pow10(w)) {
        lemma_pow10_positive(w);
        lemma_pow10_monotonic(1, w);
        reveal_with_fuel(pow10, 2);
        lemma_quotient_smaller(n, pow10(w));
    }
}

pub(crate) proof fn lemma_quotient_smaller(n: nat, p: int)
    requires
        p > 1,
        n >= p,
    ensures
        0 <= n as int / p < n,
{
    vstd::arithmetic::div_mod::lemma_div_decreases(n as int, p);
    vstd::arithmetic::div_mod::lemma_div_pos_is_pos(n as int, p);
}

/// The unsigned number of a magnitude `a` (in held units) in a currency with `exponent`
/// minor-unit digits: grouped whole units, then the separator and the minor units.
pub open spec fn number_text(a: nat, exponent: nat, f: LocalFormat) -> Seq<char> {
    let whole = a as int / pow10(FRACTION_DIGITS as nat);
    let minor = (a as int % pow10(FRACTION_DIGITS as nat)) / pow10((FRACTION_DIGITS - exponent) as nat);
    let int_part = grouped(whole as nat, f.grouping_separator, f.grouping_width as nat);
    if exponent == 0 {
        int_part
    } else {
        int_part + seq![f.decimal_separator] + padded(minor as nat, exponent)
    }
}

/// The display text of an amount: rounded half up to its currency's exponent, with a
/// leading minus when negative and the symbol on the side that the currency puts it.
pub open spec fn format_spec(m: Money, f: LocalFormat) -> Seq<char> {
    let c = currency_spec(m.currency);
    let v = rounded(m.scaled as int, minor_unit(m.currency), Round::HalfUp);
    let a = if v < 0 {
        -v
    } else {
        v
    };
    let body = number_text(a as nat, c.exponent as nat, f);
    let sign: Seq<char> = if v < 0 {
        seq!['-']
    } else {
        seq![]
    };
    if c.symbol_first {
        sign + c.symbol@ + body
    } else {
        sign + body + c.symbol@
    }
}

fn digit_exec(d: u128) -> (r: char)
    requires
        d < 10,
    ensures
        r == digit_char(d as int),
{
    if d == 0 {
        '0'
    } else if d == 1 {
        '1'
    } else if d == 2 {
        '2'
    } else if d == 3 {
        '3'
    } else if d == 4 {
        '4'
    } else if d == 5 {
        '5'
    } else if d == 6 {
        '6'
    } else if d == 7 {
        '7'
    } else if d == 8 {
        '8'
    } else {
        '9'
    }
}

fn digits_exec(n: u128) -> (r: Vec<char>)
    ensures
        r@ == digits_of(n as nat),
    decreases n,
{
    if n < 10 {
        vec![digit_exec(n)]
    } else {
        let mut r = digits_exec(n / 10);
        r.push(digit_exec(n % 10));
        r
    }
}

fn padded_exec(n: u128, w: u32) -> (r: Vec<char>)
    ensures
        r@ == padded(n as nat, w as nat),
    decreases w,
{
    if w == 0 {
        Vec::new()
    } else {
        let mut r = padded_exec(n / 10, w - 1);
        r.push(digit_exec(n % 10));
        r
    }
}

/// Appends the characters of `b` to `a`.
fn push_all(a: &mut Vec<char>, b: &Vec<char>)
    ensures
        final(a)@ == old(a)@ + b@,
{
    let mut i: usize = 0;
    while i < b.len()
        invariant
            i <= b@.len(),
            a@ == old(a)@ + b@.take(i as int),
        decreases b@.len() - i,
    {
        a.push(b[i]);
        i = i + 1;
        proof {
            assert(b@.take(i as int) =~= b@.take(i - 1).push(b@[i - 1]));
        }
    }
    proof {
        assert(b@.take(i as int) =~= b@);
    }
}

fn grouped_exec(n: u128, sep: char, w: u32) -> (r: Vec<char>)
    requires
        w <= 38,
    ensures
        r@ == grouped(n as nat, sep, w as nat),
    decreases n,
{
    if w == 0 {
        return digits_exec(n);
    }
    let p = pow10_exec(w) as u128;
    if n < p {
        digits_exec(n)
    } else {
        proof {
            lemma_pow10_positive(w as nat);
            lemma_quotient_smaller(n as nat, p as int);
        }
        let mut r = grouped_exec(n / p, sep, w);
        r.push(sep);
        let tail = padded_exec(n % p, w);
        push_all(&mut r, &tail);
        proof {
            assert(r@ =~= grouped((n / p) as nat, sep, w as nat) + seq![sep] + padded(
                (n % p) as nat,
                w as nat,
            ));
        }
        r
    }
}

/// The characters of a string.
pub(crate) fn chars_of(s: &str) -> (r: Vec<char>)
    ensures
        r@ == s@,
{
    let n = s.unicode_len();
    let mut r: Vec<char> = Vec::new();
    let mut i: usize = 0;
    while i < n
        invariant
            n == s@.len(),
            i <= n,
            r@ == s@.take(i as int),
        decreases n - i,
    {
        r.push(s.get_char(i));
        i = i + 1;
        proof {
            assert(s@.take(i as int) =~= s@.take(i - 1).push(s@[i - 1]));
        }
    }
    proof {
        assert(s@.take(n as int) =~= s@);
    }
    r
}

/// Relies on std's `FromIterator<char>` for `String`: the string holds the characters in order.
#[verifier::external_body]
fn string_of(chars: &Vec<char>) -> (r: String)
    ensures
        r@ == chars@,
{
    chars.iter().collect()
}

/// Renders an amount in a locale's conventions, rounded half up for display.
pub fn format_money(money: &Money, locale: &Locale) -> (r: String)
    requires
        fits_i128(rounded(money.scaled as int, minor_unit(money.currency), Round::HalfUp)),
    ensures
        r@ == format_spec(*money, locale_spec(*locale)),
{
    let f = from_locale(locale);
    let c = from_enum(&money.currency);
    proof {
        crate::currency::lemma_exponent_small(money.currency);
    }
    let unit = pow10_exec(FRACTION_DIGITS - c.exponent);
    let v = round_to(money.scaled, unit, Round::HalfUp);
    let a: u128 = if v < 0 {
        ((-(v + 1)) as u128) + 1
    } else {
        v as u128
    };
    let whole_unit = pow10_exec(FRACTION_DIGITS) as u128;
    let whole = a / whole_unit;
    let minor = (a % whole_unit) / (unit as u128);
    let mut body = grouped_exec(whole, f.grouping_separator, f.grouping_width);
    if c.exponent > 0 {
        body.push(f.decimal_separator);
        let tail = padded_exec(minor, c.exponent);
        push_all(&mut body, &tail);
    }
    let symbol = chars_of(c.symbol);
    let mut out: Vec<char> = Vec::new();
    if v < 0 {
        out.push('-');
    }
    if c.symbol_first {
        push_all(&mut out, &symbol);
        push_all(&mut out, &body);
    } else {
        push_all(&mut out, &body);
        push_all(&mut out, &symbol);
    }
    proof {
        let ghost sign: Seq<char> = if v < 0 {
            seq!['-']
        } else {
            seq![]
        };
        assert(body@ =~= number_text(a as nat, c.exponent as nat, f));
        if c.symbol_first {
            assert(out@ =~= sign + c.symbol@ + body@);
        } else {
            assert(out@ =~= sign + body@ + c.symbol@);
        }
    }
    string_of(&out)
}

impl Money {
    /// The display text of this amount in its currency's default locale.
    pub fn to_string(&self) -> (r: String)
        requires
            fits_i128(rounded(self.scaled as int, minor_unit(self.currency), Round::HalfUp)),
        ensures
            r@ == format_spec(*self, locale_spec(currency_spec(self.currency).default_locale)),
    {
        let c = from_enum(&self.currency);
        format_money(self, &c.default_locale)
    }
}

} // verus!
