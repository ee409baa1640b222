use vstd::prelude::*;

use crate::currency::{currency_spec, from_enum, Currency, Iso};
use crate::error::MoneyError;

verus! {

/// Amounts are held exactly as integers in units of ten to the minus this many.
pub const FRACTION_DIGITS: u32 = 18;

pub open spec fn pow10(n: nat) -> int
    decreases n,
{
    if n == 0 {
        1
    } else {
        10 * pow10((n - 1) as nat)
    }
}

pub proof fn lemma_pow10_positive(n: nat)
    ensures
        pow10(n) > 0,
    decreases n,
{
    if n > 0 {
        lemma_pow10_positive((n - 1) as nat);
    }
}

pub proof fn lemma_pow10_add(a: nat, b: nat)
    ensures
        pow10(a + b) == pow10(a) * pow10(b),
    decreases a,
{
    if a > 0 {
        lemma_pow10_add((a - 1) as nat, b);
        assert(pow10(a + b) == 10 * pow10((a - 1 + b) as nat));
        assert(pow10(a) * pow10(b) == 10 * (pow10((a - 1) as nat) * pow10(b))) by (nonlinear_arith)
            requires
                pow10(a) == 10 * pow10((a - 1) as nat),
        ;
    }
}

pub proof fn lemma_pow10_monotonic(a: nat, b: nat)
    requires
        a <= b,
    ensures
        pow10(a) <= pow10(b),
{
    lemma_pow10_add(a, (b - a) as nat);
    lemma_pow10_positive(a);
    lemma_pow10_positive((b - a) as nat);
    assert(pow10(a) <= pow10(a) * pow10((b - a) as nat)) by (nonlinear_arith)
        requires
            pow10(a) > 0,
            pow10((b - a) as nat) >= 1,
    ;
}

pub proof fn lemma_pow10_38()
    ensures
        pow10(38) == 100_000_000_000_000_000_000_000_000_000_000_000_000,
{
    reveal_with_fuel(pow10, 39);
}

/// Ten to the power `n`.
pub fn pow10_exec(n: u32) -> (r: i128)
    requires
        n <= 38,
    ensures
        r == pow10(n as nat),
        r > 0,
{
    let mut r: i128 = 1;
    let mut i: u32 = 0;
    while i < n
        invariant
            i <= n <= 38,
            r == pow10(i as nat),
        decreases n - i,
    {
        proof {
            lemma_pow10_monotonic((i + 1) as nat, 38);
            lemma_pow10_38();
            lemma_pow10_positive(i as nat);
            assert(pow10((i + 1) as nat) == 10 * pow10(i as nat));
            assert(r * 10 <= 100_000_000_000_000_000_000_000_000_000_000_000_000);
        }
        r = r * 10;
        i = i + 1;
    }
    proof {
        lemma_pow10_positive(n as nat);
    }
    r
}

/// The size, in held units, of one minor unit of a currency.
pub open spec fn minor_unit(code: Iso) -> int {
    pow10((FRACTION_DIGITS - currency_spec(code).exponent) as nat)
}

pub open spec fn fits_i128(v: int) -> bool {
    i128::MIN <= v <= i128::MAX
}

/// The ways of resolving digits beyond a currency's exponent.
#[derive(Debug, Clone, Copy, PartialEq, Eq, Structural)]
pub enum Round {
    /// To the nearest, ties away from zero.
    HalfUp,
    /// To the nearest, ties toward zero.
    HalfDown,
    /// To the nearest, ties to the even neighbour.
    HalfEven,
    /// Toward positive infinity.
    Ceiling,
    /// Toward negative infinity.
    Floor,
}

/// `v` rounded to a multiple of `unit` (a positive number) in the given mode.
pub open spec fn rounded(v: int, unit: int, mode: Round) -> int {
    let q = v / unit;
    let r = v % unit;
    let down = v - r;
    let up = v - r + unit;
    if r == 0 {
        v
    } else {
        match mode {
            Round::Floor => down,
            Round::Ceiling => up,
            Round::HalfUp => if 2 * r > unit || (2 * r == unit && v > 0) {
                up
            } else {
                down
            },
            Round::HalfDown => if 2 * r > unit || (2 * r == unit && v < 0) {
                up
            } else {
                down
            },
            Round::HalfEven => if 2 * r > unit || (2 * r == unit && q % 2 == 1) {
                up
            } else {
                down
            },
        }
    }
}

/// A rounded value is a multiple of the unit, and rounding it again in any mode keeps it.
pub proof fn lemma_rounded_is_multiple(v: int, unit: int, mode: Round)
    requires
        unit > 0,
    ensures
        rounded(v, unit, mode) % unit == 0,
        rounded(rounded(v, unit, mode), unit, mode) == rounded(v, unit, mode),
{
    let r = v % unit;
    let q = v / unit;
    assert(v == q * unit + r) by (nonlinear_arith)
        requires
            unit > 0,
            q == v / unit,
            r == v % unit,
    ;
    vstd::arithmetic::div_mod::lemma_mod_multiples_basic(q, unit);
    vstd::arithmetic::div_mod::lemma_mod_multiples_basic(q + 1, unit);
    assert((q + 1) * unit == q * unit + unit) by (nonlinear_arith);
}

/// An amount of money: an exact decimal in a currency.
#[derive(Debug, Clone, Copy, PartialEq, Eq, Structural)]
pub struct Money {
    /// The amount, in units of ten to the minus `FRACTION_DIGITS`.
    pub scaled: i128,
    pub currency: Iso,
}

impl Money {
    /// Money of `amount` minor units of a currency.
    pub open spec fn minor_spec(amount: int, code: Iso) -> Money {
        Money { scaled: (amount * minor_unit(code)) as i128, currency: code }
    }

    /// The sum of two amounts, or a mismatch where their currencies differ.
    pub open spec fn add_spec(self, other: Money) -> Result<Money, MoneyError> {
        if self.currency != other.currency {
            Err(MoneyError::CurrencyMismatch)
        } else {
            Ok(Money { scaled: (self.scaled + other.scaled) as i128, currency: self.currency })
        }
    }

    /// The difference of two amounts, or a mismatch where their currencies differ.
    pub open spec fn subtract_spec(self, other: Money) -> Result<Money, MoneyError> {
        if self.currency != other.currency {
            Err(MoneyError::CurrencyMismatch)
        } else {
            Ok(Money { scaled: (self.scaled - other.scaled) as i128, currency: self.currency })
        }
    }

    /// Money of `amount` minor units (cents for the dollar).
    pub fn from_minor(amount: i64, currency: &Currency) -> (r: Money)
        requires
            currency.wf(),
        ensures
            r == Money::minor_spec(amount as int, currency.iso),
            r.scaled == amount * minor_unit(currency.iso),
    {
        let exponent = currency.exponent;
        let unit = pow10_exec(FRACTION_DIGITS - exponent);
        proof {
            lemma_pow10_monotonic((FRACTION_DIGITS - exponent) as nat, 18);
            reveal_with_fuel(pow10, 19);
            assert(amount * unit <= i64::MAX * 1_000_000_000_000_000_000) by (nonlinear_arith)
                requires
                    0 < unit <= 1_000_000_000_000_000_000,
                    i64::MIN <= amount <= i64::MAX,
            ;
            assert(amount * unit >= i64::MIN * 1_000_000_000_000_000_000) by (nonlinear_arith)
                requires
                    0 < unit <= 1_000_000_000_000_000_000,
                    i64::MIN <= amount <= i64::MAX,
            ;
        }
        Money { scaled: amount as i128 * unit, currency: currency.iso }
    }

    /// Money of `amount` whole units, with no fractional part.
    pub fn from_major(amount: i64, currency: &Currency) -> (r: Money)
        requires
            currency.wf(),
        ensures
            r.currency == currency.iso,
            r.scaled == amount * pow10(FRACTION_DIGITS as nat),
    {
        let unit = pow10_exec(FRACTION_DIGITS);
        proof {
            reveal_with_fuel(pow10, 19);
            assert(amount * unit <= i64::MAX * 1_000_000_000_000_000_000) by (nonlinear_arith)
                requires
                    unit == 1_000_000_000_000_000_000,
                    i64::MIN <= amount <= i64::MAX,
            ;
            assert(amount * unit >= i64::MIN * 1_000_000_000_000_000_000) by (nonlinear_arith)
                requires
                    unit == 1_000_000_000_000_000_000,
                    i64::MIN <= amount <= i64::MAX,
            ;
        }
        Money { scaled: amount as i128 * unit, currency: currency.iso }
    }

    /// The descriptor of this amount's currency.
    pub fn currency(&self) -> (r: Currency)
        ensures
            r == currency_spec(self.currency),
    {
        from_enum(&self.currency)
    }

    /// The exact sum of two amounts of one currency.
    pub fn add(&self, other: &Money) -> (r: Result<Money, MoneyError>)
        requires
            self.currency == other.currency ==> fits_i128(self.scaled + other.scaled),
        ensures
            r == self.add_spec(*other),
    {
        if self.currency != other.currency {
            return Err(MoneyError::CurrencyMismatch);
        }
        Ok(Money { scaled: self.scaled + other.scaled, currency: self.currency })
    }

    /// The exact difference of two amounts of one currency.
    pub fn subtract(&self, other: &Money) -> (r: Result<Money, MoneyError>)
        requires
            self.currency == other.currency ==> fits_i128(self.scaled - other.scaled),
        ensures
            r == self.subtract_spec(*other),
    {
        if self.currency != other.currency {
            return Err(MoneyError::CurrencyMismatch);
        }
        Ok(Money { scaled: self.scaled - other.scaled, currency: self.currency })
    }

    /// The exact product of an amount and a number.
    pub fn multiply(&self, factor: i64) -> (r: Money)
        requires
            fits_i128(self.scaled * factor),
        ensures
            r.currency == self.currency,
            r.scaled == self.scaled * factor,
    {
        Money { scaled: self.scaled * factor as i128, currency: self.currency }
    }

    /// The quotient of an amount by a number, to `FRACTION_DIGITS` digits, truncated
    /// toward zero.
    pub fn divide(&self, divisor: i64) -> (r: Money)
        requires
            divisor != 0,
            !(self.scaled == i128::MIN && divisor == -1),
        ensures
            r.currency == self.currency,
            Some(r.scaled) == self.scaled.checked_div(divisor as i128),
    {
        proof {
            let x = self.scaled as int;
            let d = divisor as int;
            if x > 0 && d > 0 {
                lemma_div_bounds(x, d);
            } else if x < 0 && d < 0 {
                lemma_div_bounds(-x, -d);
            } else if x < 0 {
                lemma_div_bounds(-x, d);
            } else if x > 0 {
                lemma_div_bounds(x, -d);
            }
        }
        match self.scaled.checked_div(divisor as i128) {
            Some(q) => Money { scaled: q, currency: self.currency },
            None => Money { scaled: 0, currency: self.currency },
        }
    }

    /// This amount rounded to its currency's exponent in the given mode.
    pub fn round(&self, mode: Round) -> (r: Money)
        requires
            fits_i128(rounded(self.scaled as int, minor_unit(self.currency), mode)),
        ensures
            r.currency == self.currency,
            r.scaled == rounded(self.scaled as int, minor_unit(self.currency), mode),
    {
        let c = from_enum(&self.currency);
        let unit = pow10_exec(FRACTION_DIGITS - c.exponent);
        Money { scaled: round_to(self.scaled, unit, mode), currency: self.currency }
    }

    /// Rounds this amount in place to its currency's exponent.
    pub fn round_mut(&mut self, mode: Round)
        requires
            fits_i128(rounded(old(self).scaled as int, minor_unit(old(self).currency), mode)),
        ensures
            *final(self) == old(self).round_spec(mode),
    {
        *self = self.round(mode);
    }

    pub open spec fn round_spec(&self, mode: Round) -> Money {
        Money {
            scaled: rounded(self.scaled as int, minor_unit(self.currency), mode) as i128,
            currency: self.currency,
        }
    }

    pub fn is_zero(&self) -> (r: bool)
        ensures
            r == (self.scaled == 0),
    {
        self.scaled == 0
    }

    pub fn is_positive(&self) -> (r: bool)
        ensures
            r == (self.scaled > 0),
    {
        self.scaled > 0
    }

    pub fn is_negative(&self) -> (r: bool)
        ensures
            r == (self.scaled < 0),
    {
        self.scaled < 0
    }

    /// Amounts of two different currencies cannot be ordered.
    pub fn lt(&self, other: &Money) -> (r: bool)
        requires
            self.currency == other.currency,
        ensures
            r == (self.scaled < other.scaled),
    {
        self.scaled < other.scaled
    }

    pub fn le(&self, other: &Money) -> (r: bool)
        requires
            self.currency == other.currency,
        ensures
            r == (self.scaled <= other.scaled),
    {
        self.scaled <= other.scaled
    }

    pub fn gt(&self, other: &Money) -> (r: bool)
        requires
            self.currency == other.currency,
        ensures
            r == (self.scaled > other.scaled),
    {
        self.scaled > other.scaled
    }

    pub fn ge(&self, other: &Money) -> (r: bool)
        requires
            self.currency == other.currency,
        ensures
            r == (self.scaled >= other.scaled),
    {
        self.scaled >= other.scaled
    }
}

proof fn lemma_div_bounds(a: int, b: int)
    requires
        a >= 0,
        b >= 1,
    ensures
        0 <= a / b <= a,
        b >= 2 ==> 2 * (a / b) <= a,
{
    vstd::arithmetic::div_mod::lemma_fundamental_div_mod(a, b);
    let q = a / b;
    let r = a % b;
    assert(0 <= q <= a && (b >= 2 ==> 2 * q <= a)) by (nonlinear_arith)
        requires
            a == b * q + r,
            0 <= r < b,
            a >= 0,
            b >= 1,
    ;
}

/// Adding two amounts given in minor units of one currency gives the amount of the sum of
/// the minor units.
pub proof fn lemma_minor_units_add(a: int, b: int, code: Iso)
    requires
        fits_i128(a * minor_unit(code)),
        fits_i128(b * minor_unit(code)),
        fits_i128((a + b) * minor_unit(code)),
    ensures
        Money::minor_spec(a, code).add_spec(Money::minor_spec(b, code)) == Ok::<Money, MoneyError>(
            Money::minor_spec(a + b, code),
        ),
{
    let u = minor_unit(code);
    assert((a + b) * u == a * u + b * u) by (nonlinear_arith);
}

/// Adding or subtracting amounts of two different currencies always fails with a mismatch.
pub proof fn lemma_mismatch(x: Money, y: Money)
    requires
        x.currency != y.currency,
    ensures
        x.add_spec(y) == Err::<Money, MoneyError>(MoneyError::CurrencyMismatch),
        x.subtract_spec(y) == Err::<Money, MoneyError>(MoneyError::CurrencyMismatch),
{
}

/// Rounding half to even an amount that is already rounded changes nothing.
pub proof fn lemma_round_half_even_idempotent(m: Money)
    requires
        fits_i128(rounded(m.scaled as int, minor_unit(m.currency), Round::HalfEven)),
    ensures
        m.round_spec(Round::HalfEven).round_spec(Round::HalfEven) == m.round_spec(Round::HalfEven),
{
    let unit = minor_unit(m.currency);
    lemma_pow10_positive((FRACTION_DIGITS - currency_spec(m.currency).exponent) as nat);
    lemma_rounded_is_multiple(m.scaled as int, unit, Round::HalfEven);
}

/// `v` rounded to a multiple of `unit` in the given mode.
pub fn round_to(v: i128, unit: i128, mode: Round) -> (r: i128)
    requires
        unit > 0,
        fits_i128(rounded(v as int, unit as int, mode)),
    ensures
        r == rounded(v as int, unit as int, mode),
{
    let rem = match v.checked_rem_euclid(unit) {
        Some(x) => x,
        None => 0,
    };
    assert(rem == v % unit);
    if rem == 0 {
        return v;
    }
    let above_half = rem > unit - rem;
    let tie = rem == unit - rem;
    let up = match mode {
        Round::Floor => false,
        Round::Ceiling => true,
        Round::HalfUp => above_half || (tie && v > 0),
        Round::HalfDown => above_half || (tie && v < 0),
        Round::HalfEven => {
            proof {
                lemma_div_euclid_fits(v as int, unit as int);
            }
            let q = match v.checked_div_euclid(unit) {
                Some(q) => q,
                None => 0,
            };
            assert(q == v / unit);
            let odd = match q.checked_rem_euclid(2) {
                Some(b) => b == 1,
                None => false,
            };
            assert(odd == (q % 2 == 1));
            above_half || (tie && odd)
        },
    };
    assert(above_half == (2 * rem > unit));
    assert(tie == (2 * rem == unit));
    if up {
        assert(rounded(v as int, unit as int, mode) == v - rem + unit);
        v + (unit - rem)
    } else {
        assert(rounded(v as int, unit as int, mode) == v - rem);
        v - rem
    }
}

proof fn lemma_div_euclid_fits(v: int, unit: int)
    requires
        fits_i128(v),
        unit >= 1,
    ensures
        fits_i128(v / unit),
{
    if v >= 0 {
        lemma_div_bounds(v, unit);
    } else {
        vstd::arithmetic::div_mod::lemma_fundamental_div_mod(v, unit);
        let q = v / unit;
        let r = v % unit;
        assert(v <= q && q <= 0) by (nonlinear_arith)
            requires
                v == unit * q + r,
                0 <= r < unit,
                v < 0,
                unit >= 1,
        ;
    }
}

} // verus!
