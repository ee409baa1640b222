use vstd::prelude::*;

use crate::currency::{Currency, Iso};
use crate::error::MoneyError;
use crate::money::{fits_i128, minor_unit, pow10, pow10_exec, round_to, rounded, Money, Round};

verus! {

/// The rate at which one currency converts into another: `rate` divided by ten to the
/// power `rate_scale` units of `to` for one unit of `from`.
#[derive(Debug, Clone, Copy, PartialEq, Eq, Structural)]
pub struct ExchangeRate {
    pub from: Iso,
    pub to: Iso,
    pub rate: u64,
    pub rate_scale: u32,
}

/// `scaled` held units of a currency converted at `rate`, rounded half up to the minor
/// unit of `to`.
pub open spec fn converted(scaled: int, rate: ExchangeRate) -> int {
    let unit = pow10(rate.rate_scale as nat) * minor_unit(rate.to);
    rounded(scaled * rate.rate, unit, Round::HalfUp) / pow10(rate.rate_scale as nat)
}

impl ExchangeRate {
    /// Two different currencies and a positive rate.
    pub open spec fn wf(&self) -> bool {
        &&& self.from != self.to
        &&& self.rate > 0
        &&& self.rate_scale <= 18
    }

    /// A rate from one currency to another, of `rate` divided by ten to the power `rate_scale`.
    pub fn new(from: &Currency, to: &Currency, rate: u64, rate_scale: u32) -> (r: Result<
        ExchangeRate,
        MoneyError,
    >)
        requires
            from.wf(),
            to.wf(),
            rate_scale <= 18,
        ensures
            (from.iso == to.iso || rate == 0) ==> r == Err::<ExchangeRate, MoneyError>(
                MoneyError::InvalidRate,
            ),
            !(from.iso == to.iso || rate == 0) ==> r == Ok::<ExchangeRate, MoneyError>(
                ExchangeRate { from: from.iso, to: to.iso, rate, rate_scale },
            ),
            r matches Ok(x) ==> x.wf(),
    {
        if from.iso == to.iso || rate == 0 {
            return Err(MoneyError::InvalidRate);
        }
        Ok(ExchangeRate { from: from.iso, to: to.iso, rate, rate_scale })
    }

    /// Converts an amount of `from` into `to`, rounding half up to the minor unit of `to`.
    pub fn convert(&self, money: &Money) -> (r: Result<Money, MoneyError>)
        requires
            self.wf(),
            money.currency == self.from ==> fits_i128(money.scaled * self.rate),
            money.currency == self.from ==> fits_i128(
                rounded(
                    money.scaled * self.rate,
                    pow10(self.rate_scale as nat) * minor_unit(self.to),
                    Round::HalfUp,
                ),
            ),
        ensures
            money.currency != self.from ==> r == Err::<Money, MoneyError>(
                MoneyError::CurrencyMismatch,
            ),
            money.currency == self.from ==> (r matches Ok(m) && m.currency == self.to
                && m.scaled == converted(money.scaled as int, *self)),
            r matches Ok(m) ==> (m.scaled as int) % minor_unit(self.to) == 0,
    {
        if money.currency != self.from {
            return Err(MoneyError::CurrencyMismatch);
        }
        let to = crate::currency::from_enum(&self.to);
        proof {
            crate::currency::lemma_exponent_small(self.to);
        }
        let product = money.scaled * self.rate as i128;
        let scale = pow10_exec(self.rate_scale);
        let unit = pow10_exec(self.rate_scale + (crate::money::FRACTION_DIGITS - to.exponent));
        proof {
            crate::money::lemma_pow10_add(
                self.rate_scale as nat,
                (crate::money::FRACTION_DIGITS - to.exponent) as nat,
            );
        }
        let near = round_to(product, unit, Round::HalfUp);
        proof {
            crate::money::lemma_pow10_positive((crate::money::FRACTION_DIGITS - to.exponent) as nat);
            crate::money::lemma_rounded_is_multiple(product as int, unit as int, Round::HalfUp);
            lemma_divide_multiple(near as int, scale as int, minor_unit(self.to));
        }
        let result = match near.checked_div_euclid(scale) {
            Some(q) => q,
            None => 0,
        };
        Ok(Money { scaled: result, currency: self.to })
    }
}

/// The rate that a list of registrations holds for a pair: the last one registered for it.
pub open spec fn rate_in(rates: Seq<ExchangeRate>, from: Iso, to: Iso) -> Option<ExchangeRate>
    decreases rates.len(),
{
    if rates.len() == 0 {
        None
    } else if rates.last().from == from && rates.last().to == to {
        Some(rates.last())
    } else {
        rate_in(rates.drop_last(), from, to)
    }
}

/// Entries after position `n` that are for other pairs do not change the rate of a pair.
proof fn lemma_rate_in_prefix(rates: Seq<ExchangeRate>, n: int, from: Iso, to: Iso)
    requires
        0 <= n <= rates.len(),
        forall|k: int| n <= k < rates.len() ==> !(rates[k].from == from && rates[k].to == to),
    ensures
        rate_in(rates, from, to) == rate_in(rates.subrange(0, n), from, to),
    decreases rates.len(),
{
    if rates.len() > n {
        lemma_rate_in_prefix(rates.drop_last(), n, from, to);
        assert(rates.drop_last().subrange(0, n) =~= rates.subrange(0, n));
    } else {
        assert(rates.subrange(0, n) =~= rates);
    }
}

/// Replacing an entry by one for the same pair changes the rate of no other pair.
proof fn lemma_rate_in_update(rates: Seq<ExchangeRate>, i: int, x: ExchangeRate, from: Iso, to: Iso)
    requires
        0 <= i < rates.len(),
        rates[i].from == x.from && rates[i].to == x.to,
        !(x.from == from && x.to == to),
    ensures
        rate_in(rates.update(i, x), from, to) == rate_in(rates, from, to),
    decreases rates.len(),
{
    let u = rates.update(i, x);
    if i < rates.len() - 1 {
        lemma_rate_in_update(rates.drop_last(), i, x, from, to);
        assert(u.drop_last() =~= rates.drop_last().update(i, x));
    } else {
        assert(u.drop_last() =~= rates.drop_last());
    }
}

/// A registry of exchange rates, at most one for each ordered pair of currencies.
pub struct Exchange {
    rates: Vec<ExchangeRate>,
}

impl Exchange {
    /// The rate registered from `from` to `to`, if any.
    pub closed spec fn rate_of(&self, from: Iso, to: Iso) -> Option<ExchangeRate> {
        rate_in(self.rates@, from, to)
    }

    /// Every registered rate is well formed, and no pair is registered twice.
    pub closed spec fn wf(&self) -> bool {
        &&& forall|k: int| 0 <= k < self.rates@.len() ==> (#[trigger] self.rates@[k]).wf()
        &&& forall|j: int, k: int|
            0 <= j < k < self.rates@.len() ==> !(self.rates@[j].from == self.rates@[k].from
                && self.rates@[j].to == self.rates@[k].to)
    }

    /// An empty registry.
    pub fn new() -> (r: Exchange)
        ensures
            r.wf(),
            forall|from: Iso, to: Iso| r.rate_of(from, to) is None,
    {
        Exchange { rates: Vec::new() }
    }

    /// Registers a rate, replacing the one registered before for the same pair.
    pub fn add_or_update_rate(&mut self, rate: &ExchangeRate)
        requires
            old(self).wf(),
            rate.wf(),
        ensures
            final(self).wf(),
            forall|from: Iso, to: Iso|
                #[trigger] final(self).rate_of(from, to) == if from == rate.from && to == rate.to {
                    Some(*rate)
                } else {
                    old(self).rate_of(from, to)
                },
    {
        let n = self.rates.len();
        let mut i: usize = n;
        while i > 0
            invariant
                i <= n == self.rates@.len(),
                self.rates@ == old(self).rates@,
                old(self).wf(),
                rate.wf(),
                forall|k: int|
                    i <= k < n ==> !(self.rates@[k].from == rate.from && self.rates@[k].to
                        == rate.to),
            decreases i,
        {
            let e = self.rates[i - 1];
            if e.from == rate.from && e.to == rate.to {
                let ghost before = self.rates@;
                self.rates.set(i - 1, *rate);
                proof {
                    let j = i - 1;
                    assert forall|from: Iso, to: Iso|
                        #[trigger] rate_in(self.rates@, from, to) == if from == rate.from && to
                            == rate.to {
                            Some(*rate)
                        } else {
                            rate_in(before, from, to)
                        } by {
                        if from == rate.from && to == rate.to {
                            lemma_rate_in_prefix(self.rates@, j + 1, from, to);
                            assert(self.rates@.subrange(0, j + 1).last() == *rate);
                        } else {
                            lemma_rate_in_update(before, j, *rate, from, to);
                        }
                    }
                    assert forall|a: int, b: int|
                        0 <= a < b < self.rates@.len() implies !(self.rates@[a].from
                        == self.rates@[b].from && self.rates@[a].to == self.rates@[b].to) by {
                        assert(before[a].from == before[b].from ==> before[a].to != before[b].to);
                    }
                }
                return;
            }
            i = i - 1;
        }
        let ghost before = self.rates@;
        self.rates.push(*rate);
        proof {
            assert(self.rates@.drop_last() =~= before);
            assert forall|from: Iso, to: Iso|
                #[trigger] rate_in(self.rates@, from, to) == if from == rate.from && to == rate.to {
                    Some(*rate)
                } else {
                    rate_in(before, from, to)
                } by {}
            assert forall|a: int, b: int|
                0 <= a < b < self.rates@.len() implies !(self.rates@[a].from
                == self.rates@[b].from && self.rates@[a].to == self.rates@[b].to) by {
                if b == n {
                    assert(self.rates@[a] == before[a]);
                } else {
                    assert(before[a].from == before[b].from ==> before[a].to != before[b].to);
                }
            }
        }
    }

    /// The rate registered from one currency to another.
    pub fn get_rate(&self, from: &Currency, to: &Currency) -> (r: Result<ExchangeRate, MoneyError>)
        requires
            self.wf(),
        ensures
            r == match self.rate_of(from.iso, to.iso) {
                Some(x) => Ok::<ExchangeRate, MoneyError>(x),
                None => Err::<ExchangeRate, MoneyError>(MoneyError::RateNotFound),
            },
            r matches Ok(x) ==> x.wf(),
    {
        let n = self.rates.len();
        let mut i: usize = n;
        proof {
            assert(self.rates@.subrange(0, n as int) =~= self.rates@);
        }
        while i > 0
            invariant
                i <= n == self.rates@.len(),
                self.wf(),
                rate_in(self.rates@, from.iso, to.iso) == rate_in(
                    self.rates@.subrange(0, i as int),
                    from.iso,
                    to.iso,
                ),
            decreases i,
        {
            let e = self.rates[i - 1];
            proof {
                assert(self.rates@.subrange(0, i as int).drop_last() =~= self.rates@.subrange(
                    0,
                    i - 1,
                ));
            }
            if e.from == from.iso && e.to == to.iso {
                assert(self.rates@[i - 1].wf());
                return Ok(e);
            }
            i = i - 1;
        }
        Err(MoneyError::RateNotFound)
    }
}

/// A multiple of `p * u` divided by `p` is a multiple of `u` that fits where the
/// dividend does.
proof fn lemma_divide_multiple(x: int, p: int, u: int)
    requires
        p >= 1,
        u >= 1,
        x % (p * u) == 0,
        fits_i128(x),
    ensures
        (x / p) % u == 0,
        fits_i128(x / p),
{
    let pu = p * u;
    assert(pu >= 1) by (nonlinear_arith)
        requires
            pu == p * u,
            p >= 1,
            u >= 1,
    ;
    vstd::arithmetic::div_mod::lemma_fundamental_div_mod(x, pu);
    let k = x / pu;
    assert(x == (k * u) * p) by (nonlinear_arith)
        requires
            x == pu * k + 0,
            pu == p * u,
    ;
    vstd::arithmetic::div_mod::lemma_div_multiples_vanish(k * u, p);
    assert(x / p == k * u) by {
        assert(p * (k * u) == (k * u) * p) by (nonlinear_arith);
    }
    vstd::arithmetic::div_mod::lemma_mod_multiples_basic(k, u);
    assert(i128::MIN <= k * u <= i128::MAX) by (nonlinear_arith)
        requires
            x == (k * u) * p,
            p >= 1,
            i128::MIN <= x <= i128::MAX,
    ;
}

} // verus!
