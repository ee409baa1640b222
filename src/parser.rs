use vstd::prelude::*;

use crate::currency::{find, Currency};
use crate::error::MoneyError;
use crate::formatter::chars_of;
use crate::locale::{from_locale, locale_spec, LocalFormat, Locale};
use crate::money::{fits_i128, Money, FRACTION_DIGITS};

verus! {

pub open spec fn is_digit(c: char) -> bool {
    '0' <= c <= '9'
}

pub open spec fn digit_value(c: char) -> int {
    (c as u32) - ('0' as u32)
}

/// The number that a string of decimal digits writes.
pub open spec fn digits_value(s: Seq<char>) -> int
    decreases s.len(),
{
    if s.len() == 0 {
        0
    } else {
        10 * digits_value(s.drop_last()) + digit_value(s.last())
    }
}

/// `s` with every occurrence of `c` taken out.
pub open spec fn without(s: Seq<char>, c: char) -> Seq<char>
    decreases s.len(),
{
    if s.len() == 0 {
        seq![]
    } else if s.last() == c {
        without(s.drop_last(), c)
    } else {
        without(s.drop_last(), c).push(s.last())
    }
}

pub open spec fn zeros(n: nat) -> Seq<char> {
    Seq::new(n, |i: int| '0')
}

/// `s` without the symbol, where it opens or closes `s`.
pub open spec fn strip_symbol(s: Seq<char>, symbol: Seq<char>) -> Seq<char> {
    if symbol.len() > 0 && s.len() >= symbol.len() && s.take(symbol.len() as int) == symbol {
        s.skip(symbol.len() as int)
    } else if symbol.len() > 0 && s.len() >= symbol.len() && s.skip(s.len() - symbol.len())
        == symbol {
        s.take(s.len() - symbol.len())
    } else {
        s
    }
}

/// Whether the text is negative, and the text left once the sign and the symbol are taken
/// off. A minus may open the text, or open or close what is left once the symbol is off.
pub open spec fn unsigned_part(s: Seq<char>, symbol: Seq<char>) -> (bool, Seq<char>) {
    if s.len() > 0 && s[0] == '-' {
        (true, strip_symbol(s.drop_first(), symbol))
    } else {
        let t = strip_symbol(s, symbol);
        if t.len() > 0 && t[0] == '-' {
            (true, t.drop_first())
        } else if t.len() > 0 && t.last() == '-' {
            (true, t.drop_last())
        } else {
            (false, t)
        }
    }
}

/// The position of the decimal separator in `n`, or its length where there is none.
pub open spec fn point(n: Seq<char>, dec: char) -> int {
    if exists|i: int| 0 <= i < n.len() && n[i] == dec {
        choose|i: int| 0 <= i < n.len() && n[i] == dec
    } else {
        n.len() as int
    }
}

pub open spec fn whole_part(n: Seq<char>, dec: char) -> Seq<char> {
    n.take(point(n, dec))
}

pub open spec fn fraction_part(n: Seq<char>, dec: char) -> Seq<char> {
    if point(n, dec) < n.len() {
        n.skip(point(n, dec) + 1)
    } else {
        seq![]
    }
}

/// Digits and at most one decimal separator, at least one digit, and no more fractional
/// digits than an amount holds.
pub open spec fn well_formed_number(n: Seq<char>, dec: char) -> bool {
    &&& forall|i: int| 0 <= i < n.len() ==> is_digit(#[trigger] n[i]) || n[i] == dec
    &&& forall|i: int, j: int| 0 <= i < j < n.len() ==> !(n[i] == dec && n[j] == dec)
    &&& exists|i: int| 0 <= i < n.len() && is_digit(#[trigger] n[i])
    &&& fraction_part(n, dec).len() <= FRACTION_DIGITS
}

/// The magnitude, in held units, of a well-formed number.
pub open spec fn magnitude(n: Seq<char>, dec: char) -> int {
    let frac = fraction_part(n, dec);
    digits_value(whole_part(n, dec) + frac + zeros((FRACTION_DIGITS - frac.len()) as nat))
}

/// The amount, in held units, that a text writes in a locale's conventions, where it
/// writes one that an amount can hold.
pub open spec fn parsed(s: Seq<char>, symbol: Seq<char>, f: LocalFormat) -> Option<int> {
    let (negative, t) = unsigned_part(s, symbol);
    let n = without(t, f.grouping_separator);
    if !well_formed_number(n, f.decimal_separator) {
        None
    } else {
        let m = magnitude(n, f.decimal_separator);
        let v = if negative {
            -m
        } else {
            m
        };
        if fits_i128(v) {
            Some(v)
        } else {
            None
        }
    }
}

proof fn lemma_digits_value_prefix(s: Seq<char>, k: int)
    requires
        0 <= k <= s.len(),
        forall|i: int| 0 <= i < s.len() ==> is_digit(#[trigger] s[i]),
    ensures
        0 <= digits_value(s.take(k)) <= digits_value(s),
    decreases s.len(),
{
    if k == s.len() {
        assert(s.take(k) =~= s);
        if s.len() > 0 {
            lemma_digits_value_prefix(s.drop_last(), k - 1);
            assert(s.drop_last().take(k - 1) =~= s.drop_last());
            assert(is_digit(s[s.len() - 1]));
        }
    } else {
        lemma_digits_value_prefix(s.drop_last(), k);
        assert(s.drop_last().take(k) =~= s.take(k));
        lemma_digits_value_prefix(s.drop_last(), s.len() - 1);
        assert(s.drop_last().take(s.len() - 1) =~= s.drop_last());
        assert(is_digit(s[s.len() - 1]));
    }
}

fn starts_with(s: &Vec<char>, p: &Vec<char>) -> (r: bool)
    ensures
        r == (p@.len() <= s@.len() && s@.take(p@.len() as int) == p@),
{
    if p.len() > s.len() {
        return false;
    }
    let mut i: usize = 0;
    while i < p.len()
        invariant
            p@.len() <= s@.len(),
            i <= p@.len(),
            forall|j: int| 0 <= j < i ==> s@[j] == p@[j],
        decreases p@.len() - i,
    {
        if s[i] != p[i] {
            assert(s@.take(p@.len() as int)[i as int] != p@[i as int]);
            return false;
        }
        i = i + 1;
    }
    assert(s@.take(p@.len() as int) =~= p@);
    true
}

fn ends_with(s: &Vec<char>, p: &Vec<char>) -> (r: bool)
    ensures
        r == (p@.len() <= s@.len() && s@.skip(s@.len() - p@.len()) == p@),
{
    if p.len() > s.len() {
        return false;
    }
    let off = s.len() - p.len();
    let mut i: usize = 0;
    while i < p.len()
        invariant
            p@.len() <= s@.len(),
            off == s@.len() - p@.len(),
            off + p@.len() == s.len(),
            i <= p@.len(),
            forall|j: int| 0 <= j < i ==> s@[off + j] == p@[j],
        decreases p@.len() - i,
    {
        if s[off + i] != p[i] {
            assert(s@.skip(off as int)[i as int] != p@[i as int]);
            return false;
        }
        i = i + 1;
    }
    assert(s@.skip(off as int) =~= p@);
    true
}

fn slice(s: &Vec<char>, from: usize, to: usize) -> (r: Vec<char>)
    requires
        from <= to <= s@.len(),
    ensures
        r@ == s@.subrange(from as int, to as int),
{
    let mut r: Vec<char> = Vec::new();
    let mut i: usize = from;
    while i < to
        invariant
            from <= i <= to <= s@.len(),
            r@ == s@.subrange(from as int, i as int),
        decreases to - i,
    {
        r.push(s[i]);
        i = i + 1;
        proof {
            assert(s@.subrange(from as int, i as int) =~= s@.subrange(from as int, i - 1).push(
                s@[i - 1],
            ));
        }
    }
    r
}

fn strip_symbol_exec(s: &Vec<char>, symbol: &Vec<char>) -> (r: Vec<char>)
    ensures
        r@ == strip_symbol(s@, symbol@),
{
    if symbol.len() > 0 && starts_with(s, symbol) {
        slice(s, symbol.len(), s.len())
    } else if symbol.len() > 0 && ends_with(s, symbol) {
        slice(s, 0, s.len() - symbol.len())
    } else {
        slice(s, 0, s.len())
    }
}

fn unsigned_part_exec(s: &Vec<char>, symbol: &Vec<char>) -> (r: (bool, Vec<char>))
    ensures
        r.0 == unsigned_part(s@, symbol@).0,
        r.1@ == unsigned_part(s@, symbol@).1,
{
    if s.len() > 0 && s[0] == '-' {
        let rest = slice(s, 1, s.len());
        assert(rest@ =~= s@.drop_first());
        (true, strip_symbol_exec(&rest, symbol))
    } else {
        let t = strip_symbol_exec(s, symbol);
        if t.len() > 0 && t[0] == '-' {
            let r = slice(&t, 1, t.len());
            assert(r@ =~= t@.drop_first());
            (true, r)
        } else if t.len() > 0 && t[t.len() - 1] == '-' {
            let r = slice(&t, 0, t.len() - 1);
            assert(r@ =~= t@.drop_last());
            (true, r)
        } else {
            (false, t)
        }
    }
}

fn without_exec(s: &Vec<char>, c: char) -> (r: Vec<char>)
    ensures
        r@ == without(s@, c),
{
    let mut r: Vec<char> = Vec::new();
    let mut i: usize = 0;
    while i < s.len()
        invariant
            i <= s@.len(),
            r@ == without(s@.take(i as int), c),
        decreases s@.len() - i,
    {
        proof {
            assert(s@.take(i + 1).drop_last() =~= s@.take(i as int));
        }
        if s[i] != c {
            r.push(s[i]);
        }
        i = i + 1;
    }
    proof {
        assert(s@.take(i as int) =~= s@);
    }
    r
}

/// Reads an amount of a currency from text written in a locale's conventions. The symbol
/// may open or close the text, or be left out; a minus may stand first, or open or close
/// what follows the symbol.
pub fn parse_in(text: &str, currency: &Currency, locale: &Locale) -> (r: Result<
    Money,
    MoneyError,
>)
    requires
        currency.wf(),
    ensures
        r == match parsed(text@, currency.symbol@, locale_spec(*locale)) {
            Some(v) => Ok::<Money, MoneyError>(Money { scaled: v as i128, currency: currency.iso }),
            None => Err::<Money, MoneyError>(MoneyError::ParseError),
        },
{
    let f = from_locale(locale);
    let dec = f.decimal_separator;
    let s = chars_of(text);
    let symbol = chars_of(currency.symbol);
    let (negative, t) = unsigned_part_exec(&s, &symbol);
    let n = without_exec(&t, f.grouping_separator);
    let ghost symbol_spec = currency.symbol@;
    assert(symbol@ == symbol_spec);
    // Scan: only digits and one separator, and at least one digit.
    let mut point_at: usize = n.len();
    let mut seen_digit = false;
    let mut i: usize = 0;
    while i < n.len()
        invariant
            symbol_spec == currency.symbol@,
            f == locale_spec(*locale),
            dec == f.decimal_separator,
            negative == unsigned_part(text@, symbol_spec).0,
            n@ == without(unsigned_part(text@, symbol_spec).1, f.grouping_separator),
            i <= n@.len(),
            point_at == n@.len() || (point_at < i && n@[point_at as int] == dec),
            forall|j: int| 0 <= j < i ==> is_digit(#[trigger] n@[j]) || n@[j] == dec,
            forall|j: int| 0 <= j < i && n@[j] == dec ==> j == point_at,
            seen_digit == exists|j: int| 0 <= j < i && is_digit(#[trigger] n@[j]),
        decreases n@.len() - i,
    {
        let c = n[i];
        let ghost old_point = point_at;
        if '0' <= c && c <= '9' {
            seen_digit = true;
        } else if c == dec {
            if point_at < n.len() {
                proof {
                    let a = point_at as int;
                    let b = i as int;
                    assert(0 <= a < b < n@.len() && n@[a] == dec && n@[b] == dec);
                    assert(!well_formed_number(n@, dec));
                }
                return Err(MoneyError::ParseError);
            }
            point_at = i;
            assert(forall|j: int| 0 <= j < i && n@[j] == dec ==> j == old_point);
        } else {
            assert(!(is_digit(n@[i as int]) || n@[i as int] == dec));
            assert(!well_formed_number(n@, dec));
            return Err(MoneyError::ParseError);
        }
        i = i + 1;
    }
    if !seen_digit {
        return Err(MoneyError::ParseError);
    }
    proof {
        if point_at < n.len() {
            assert(point(n@, dec) == point_at);
        } else {
            assert(point(n@, dec) == n@.len());
        }
    }
    let whole = slice(&n, 0, point_at);
    let frac = if point_at < n.len() {
        slice(&n, point_at + 1, n.len())
    } else {
        Vec::new()
    };
    assert(whole@ =~= whole_part(n@, dec));
    assert(frac@ =~= fraction_part(n@, dec));
    if frac.len() > 18 {
        return Err(MoneyError::ParseError);
    }
    assert(well_formed_number(n@, dec));
    let mut digits = whole;
    let mut k: usize = 0;
    while k < frac.len()
        invariant
            k <= frac@.len(),
            digits@ == whole_part(n@, dec) + frac@.take(k as int),
        decreases frac@.len() - k,
    {
        digits.push(frac[k]);
        k = k + 1;
        proof {
            assert(frac@.take(k as int) =~= frac@.take(k - 1).push(frac@[k - 1]));
        }
    }
    assert(frac@.take(k as int) =~= frac@);
    let pad = FRACTION_DIGITS as usize - frac.len();
    let ghost before_pad = digits@;
    let mut k: usize = 0;
    while k < pad
        invariant
            k <= pad,
            digits@ == before_pad + zeros(k as nat),
        decreases pad - k,
    {
        digits.push('0');
        k = k + 1;
        proof {
            assert(zeros(k as nat) =~= zeros((k - 1) as nat).push('0'));
        }
    }
    assert(digits@ =~= whole_part(n@, dec) + fraction_part(n@, dec) + zeros(
        (FRACTION_DIGITS - fraction_part(n@, dec).len()) as nat,
    ));
    assert forall|j: int| 0 <= j < digits@.len() implies is_digit(#[trigger] digits@[j]) by {
        if j < point_at {
            assert(digits@[j] == n@[j]);
        } else if j < point_at + frac@.len() {
            assert(digits@[j] == n@[j + 1]);
        }
    }
    // Accumulate the magnitude.
    let ghost m = digits_value(digits@);
    let ghost v = if negative {
        -m
    } else {
        m
    };
    assert(m == magnitude(n@, dec));
    let ghost expected = parsed(text@, symbol_spec, locale_spec(*locale));
    assert(expected == if fits_i128(v) {
        Some(v)
    } else {
        None::<int>
    });
    let mut acc: u128 = 0;
    let mut k: usize = 0;
    while k < digits.len()
        invariant
            symbol_spec == currency.symbol@,
            m == digits_value(digits@),
            v == if negative {
                -m
            } else {
                m
            },
            expected == parsed(text@, symbol_spec, locale_spec(*locale)),
            expected == if fits_i128(v) {
                Some(v)
            } else {
                None::<int>
            },
            k <= digits@.len(),
            forall|j: int| 0 <= j < digits@.len() ==> is_digit(#[trigger] digits@[j]),
            acc == digits_value(digits@.take(k as int)),
        decreases digits@.len() - k,
    {
        proof {
            assert(digits@.take(k + 1).drop_last() =~= digits@.take(k as int));
            assert(is_digit(digits@[k as int]));
            lemma_digits_value_prefix(digits@, k + 1);
        }
        let d = (digits[k] as u32 - '0' as u32) as u128;
        let next = match acc.checked_mul(10) {
            Some(x) => x.checked_add(d),
            None => None,
        };
        match next {
            Some(x) => {
                acc = x;
            },
            None => {
                return Err(MoneyError::ParseError);
            },
        }
        k = k + 1;
    }
    assert(digits@.take(k as int) =~= digits@);
    let limit: u128 = 170141183460469231731687303715884105727;
    if negative {
        if acc > limit + 1 {
            return Err(MoneyError::ParseError);
        }
        let scaled: i128 = if acc == limit + 1 {
            -170141183460469231731687303715884105727 - 1
        } else {
            -(acc as i128)
        };
        Ok(Money { scaled, currency: currency.iso })
    } else {
        if acc > limit {
            return Err(MoneyError::ParseError);
        }
        Ok(Money { scaled: acc as i128, currency: currency.iso })
    }
}

/// Reads an amount of a currency from text in the currency's own locale.
pub fn parse(text: &str, currency: &Currency) -> (r: Result<Money, MoneyError>)
    requires
        currency.wf(),
    ensures
        r == match parsed(text@, currency.symbol@, locale_spec(currency.default_locale)) {
            Some(v) => Ok::<Money, MoneyError>(Money { scaled: v as i128, currency: currency.iso }),
            None => Err::<Money, MoneyError>(MoneyError::ParseError),
        },
{
    parse_in(text, currency, &currency.default_locale)
}

impl Money {
    /// Reads an amount from text in the locale of the currency with the given code.
    pub fn from_str(text: &str, code: &str) -> (r: Result<Money, MoneyError>)
        ensures
            (forall|c: crate::currency::Iso| crate::currency::currency_spec(c).iso_alpha_code@
                != code@) ==> r == Err::<Money, MoneyError>(MoneyError::UnknownCurrency),
            forall|c: crate::currency::Iso|
                crate::currency::currency_spec(c).iso_alpha_code@ == code@ ==> r == match parsed(
                    text@,
                    crate::currency::currency_spec(c).symbol@,
                    locale_spec(crate::currency::currency_spec(c).default_locale),
                ) {
                    Some(v) => Ok::<Money, MoneyError>(Money { scaled: v as i128, currency: c }),
                    None => Err::<Money, MoneyError>(MoneyError::ParseError),
                },
    {
        let currency = match find(code) {
            Ok(c) => c,
            Err(e) => return Err(e),
        };
        proof {
            crate::currency::lemma_alpha_codes_distinct();
        }
        parse(text, &currency)
    }
}

} // verus!
