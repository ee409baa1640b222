use rusty_money::{
    find, format_money, from_enum, parse, parse_in, Currency, Exchange, ExchangeRate, Iso, Locale,
    Money, MoneyError, Round,
};

fn usd() -> Currency {
    Currency::get(Iso::USD)
}

fn eur() -> Currency {
    Currency::get(Iso::EUR)
}

#[test]
fn minor_and_major_units_agree() {
    assert_eq!(Money::from_minor(20000, &usd()), Money::from_major(200, &usd()));
}

#[test]
fn minor_units_add_up() {
    let a = Money::from_minor(1234, &usd());
    let b = Money::from_minor(-34, &usd());
    assert_eq!(a.add(&b), Ok(Money::from_minor(1200, &usd())));
}

#[test]
fn mismatched_currencies_do_not_combine() {
    let a = Money::from_major(1, &usd());
    let b = Money::from_major(1, &eur());
    assert_eq!(a.add(&b), Err(MoneyError::CurrencyMismatch));
    assert_eq!(a.subtract(&b), Err(MoneyError::CurrencyMismatch));
}

#[test]
fn subtract_multiply_divide() {
    let hundred = Money::from_major(100, &usd());
    assert_eq!(hundred.subtract(&hundred), Ok(Money::from_major(0, &usd())));
    assert_eq!(Money::from_major(1, &usd()).multiply(3), Money::from_major(3, &usd()));
    let third = Money::from_major(1, &usd()).divide(3);
    assert_eq!(third.scaled, 333_333_333_333_333_333);
    assert_eq!(Money::from_major(3, &usd()).divide(3), Money::from_major(1, &usd()));
    assert_eq!(Money::from_major(-1, &usd()).divide(3).scaled, -333_333_333_333_333_333);
}

#[test]
fn comparisons_and_predicates() {
    let hundred = Money::from_major(100, &usd());
    let thousand = Money::from_major(1000, &usd());
    assert!(!thousand.lt(&hundred));
    assert!(thousand.gt(&hundred));
    assert!(hundred.le(&hundred));
    assert!(hundred.ge(&hundred));
    assert!(thousand.is_positive());
    assert!(!thousand.is_negative());
    assert!(Money::from_major(0, &usd()).is_zero());
    assert!(Money::from_minor(-1, &usd()).is_negative());
}

#[test]
fn rounding_modes() {
    let c = usd();
    let tie = Money::from_str("2.125", "USD").unwrap();
    assert_eq!(tie.round(Round::HalfUp), Money::from_minor(213, &c));
    assert_eq!(tie.round(Round::HalfDown), Money::from_minor(212, &c));
    assert_eq!(tie.round(Round::HalfEven), Money::from_minor(212, &c));
    assert_eq!(tie.round(Round::Ceiling), Money::from_minor(213, &c));
    assert_eq!(tie.round(Round::Floor), Money::from_minor(212, &c));
    let neg = Money::from_str("-2.135", "USD").unwrap();
    assert_eq!(neg.round(Round::HalfUp), Money::from_minor(-214, &c));
    assert_eq!(neg.round(Round::HalfDown), Money::from_minor(-213, &c));
    assert_eq!(neg.round(Round::HalfEven), Money::from_minor(-214, &c));
    assert_eq!(neg.round(Round::Ceiling), Money::from_minor(-213, &c));
    assert_eq!(neg.round(Round::Floor), Money::from_minor(-214, &c));
    let near = Money::from_str("2.1251", "USD").unwrap();
    assert_eq!(near.round(Round::HalfDown), Money::from_minor(213, &c));
}

#[test]
fn half_even_rounding_is_idempotent() {
    let m = Money::from_str("-2000.005", "USD").unwrap();
    let once = m.round(Round::HalfEven);
    assert_eq!(once, Money::from_str("-2000.00", "USD").unwrap());
    assert_eq!(once.round(Round::HalfEven), once);
}

#[test]
fn rounding_in_place() {
    let mut m = Money::from_str("-2000.009", "USD").unwrap();
    m.round_mut(Round::HalfUp);
    assert_eq!(m, Money::from_minor(-200001, &usd()));
}

#[test]
fn formats_dollars_in_us_locale() {
    let m = Money::from_str("-2000.009", "USD").unwrap();
    assert_eq!(format_money(&m, &Locale::EnUs), "-$2,000.01");
    let cents = Money::from_minor(-200009, &usd());
    assert_eq!(format_money(&cents, &Locale::EnUs), "-$2,000.09");
}

#[test]
fn formats_euros_in_eu_locale() {
    let m = Money::from_str("-2000,009", "EUR").unwrap();
    assert_eq!(format_money(&m, &Locale::EnEu), "-€2.000,01");
}

#[test]
fn formats_other_shapes() {
    assert_eq!(format_money(&Money::from_major(0, &usd()), &Locale::EnUs), "$0.00");
    assert_eq!(format_money(&Money::from_minor(5, &usd()), &Locale::EnUs), "$0.05");
    assert_eq!(
        format_money(&Money::from_major(1234567, &usd()), &Locale::EnBy),
        "$1 234 567,00"
    );
    let bhd = Currency::get(Iso::BHD);
    assert_eq!(format_money(&Money::from_minor(1234, &bhd), &Locale::EnUs), "ب.د1.234");
    let aed = Currency::get(Iso::AED);
    assert_eq!(format_money(&Money::from_major(1000, &aed), &Locale::EnUs), "1,000.00د.إ");
    assert_eq!(format_money(&Money::from_major(999, &usd()), &Locale::EnUs), "$999.00");
}

#[test]
fn parses_grouped_dollars() {
    assert_eq!(parse("2,000.00", &usd()), Ok(Money::from_major(2000, &usd())));
    assert_eq!(Money::from_str("2,000.00", "USD"), Ok(Money::from_major(2000, &usd())));
    assert_eq!(Money::from_str("-200.00", "USD"), Ok(Money::from_major(-200, &usd())));
}

#[test]
fn parses_symbols_and_signs() {
    assert_eq!(parse("$12.50", &usd()), Ok(Money::from_minor(1250, &usd())));
    assert_eq!(parse("-$12.50", &usd()), Ok(Money::from_minor(-1250, &usd())));
    assert_eq!(parse("$-12.50", &usd()), Ok(Money::from_minor(-1250, &usd())));
    assert_eq!(parse("12.50-", &usd()), Ok(Money::from_minor(-1250, &usd())));
    assert_eq!(parse("12", &usd()), Ok(Money::from_major(12, &usd())));
    assert_eq!(parse(".5", &usd()), Ok(Money::from_minor(50, &usd())));
    assert_eq!(parse("€1.234,5", &eur()), Ok(Money::from_minor(123450, &eur())));
    assert_eq!(
        parse_in("1,234.5", &eur(), &Locale::EnUs),
        Ok(Money::from_minor(123450, &eur()))
    );
    let aed = Currency::get(Iso::AED);
    assert_eq!(parse("1,000.00د.إ", &aed), Ok(Money::from_major(1000, &aed)));
}

#[test]
fn rejects_malformed_text() {
    assert_eq!(parse("", &usd()), Err(MoneyError::ParseError));
    assert_eq!(parse("$", &usd()), Err(MoneyError::ParseError));
    assert_eq!(parse("1.2.3", &usd()), Err(MoneyError::ParseError));
    assert_eq!(parse("12a", &usd()), Err(MoneyError::ParseError));
    assert_eq!(parse(",.", &usd()), Err(MoneyError::ParseError));
    assert_eq!(parse("0.0000000000000000001", &usd()), Err(MoneyError::ParseError));
    assert_eq!(parse("999999999999999999999", &usd()), Err(MoneyError::ParseError));
}

#[test]
fn parses_the_extremes_of_an_amount() {
    let top = parse("170141183460469231731.687303715884105727", &usd()).unwrap();
    assert_eq!(top.scaled, i128::MAX);
    let bottom = parse("-170141183460469231731.687303715884105728", &usd()).unwrap();
    assert_eq!(bottom.scaled, i128::MIN);
    assert_eq!(
        parse("170141183460469231731.687303715884105728", &usd()),
        Err(MoneyError::ParseError)
    );
}

#[test]
fn unknown_currency_code() {
    assert_eq!(Money::from_str("1.00", "XYZ"), Err(MoneyError::UnknownCurrency));
    assert_eq!(Money::from_str("1.00", "usd"), Err(MoneyError::UnknownCurrency));
    assert!(matches!(find("XYZ"), Err(MoneyError::UnknownCurrency)));
    let c = find("BHD").unwrap();
    assert_eq!(c.iso, Iso::BHD);
    assert_eq!(c.exponent, 3);
}

#[test]
fn catalog_entries() {
    let c = from_enum(&Iso::EUR);
    assert_eq!(c.iso_alpha_code, "EUR");
    assert_eq!(c.iso_numeric_code, "978");
    assert_eq!(c.symbol, "€");
    assert!(c.symbol_first);
    assert_eq!(c.default_locale, Locale::EnEu);
    assert_eq!(from_enum(&Iso::INR).name, "Indian Rupee");
    assert_eq!(Money::from_major(1, &usd()).currency().iso_alpha_code, "USD");
}

#[test]
fn format_then_parse_rounds_for_display() {
    let m = Money::from_str("-1234567.125", "USD").unwrap();
    let text = format_money(&m, &Locale::EnUs);
    assert_eq!(text, "-$1,234,567.13");
    assert_eq!(parse(&text, &usd()), Ok(m.round(Round::HalfUp)));
    let e = Money::from_str("0,004", "EUR").unwrap();
    let text = format_money(&e, &Locale::EnEu);
    assert_eq!(text, "€0,00");
    assert_eq!(parse(&text, &eur()), Ok(e.round(Round::HalfUp)));
}

#[test]
fn converts_through_a_rate() {
    let rate = ExchangeRate::new(&usd(), &eur(), 11, 1).unwrap();
    assert_eq!(
        rate.convert(&Money::from_major(1000, &usd())),
        Ok(Money::from_major(1100, &eur()))
    );
    let mut exchange = Exchange::new();
    exchange.add_or_update_rate(&rate);
    let stored = exchange.get_rate(&usd(), &eur()).unwrap();
    assert_eq!(
        stored.convert(&Money::from_major(1000, &usd())),
        Ok(Money::from_major(1100, &eur()))
    );
}

#[test]
fn conversion_rounds_half_up_to_target_exponent() {
    let rate = ExchangeRate::new(&usd(), &eur(), 12345, 4).unwrap();
    // 0.05 USD * 1.2345 = 0.061725 EUR
    assert_eq!(
        rate.convert(&Money::from_minor(5, &usd())),
        Ok(Money::from_minor(6, &eur()))
    );
    let bhd = Currency::get(Iso::BHD);
    let to_bhd = ExchangeRate::new(&usd(), &bhd, 37605, 5).unwrap();
    // 1.00 USD * 0.37605 = 0.37605 BHD
    assert_eq!(
        to_bhd.convert(&Money::from_major(1, &usd())),
        Ok(Money::from_minor(376, &bhd))
    );
    assert_eq!(
        to_bhd.convert(&Money::from_major(-1, &usd())),
        Ok(Money::from_minor(-376, &bhd))
    );
}

#[test]
fn conversion_needs_the_source_currency() {
    let rate = ExchangeRate::new(&usd(), &eur(), 11, 1).unwrap();
    assert_eq!(rate.convert(&Money::from_major(1, &eur())), Err(MoneyError::CurrencyMismatch));
}

#[test]
fn invalid_rates() {
    assert_eq!(ExchangeRate::new(&usd(), &usd(), 10, 1), Err(MoneyError::InvalidRate));
    assert_eq!(ExchangeRate::new(&usd(), &eur(), 0, 0), Err(MoneyError::InvalidRate));
}

#[test]
fn registry_replaces_and_reports_missing_pairs() {
    let mut exchange = Exchange::new();
    assert_eq!(exchange.get_rate(&usd(), &eur()), Err(MoneyError::RateNotFound));
    let first = ExchangeRate::new(&usd(), &eur(), 11, 1).unwrap();
    let second = ExchangeRate::new(&usd(), &eur(), 12, 1).unwrap();
    let back = ExchangeRate::new(&eur(), &usd(), 9, 1).unwrap();
    exchange.add_or_update_rate(&first);
    exchange.add_or_update_rate(&back);
    exchange.add_or_update_rate(&second);
    assert_eq!(exchange.get_rate(&usd(), &eur()), Ok(second));
    assert_eq!(exchange.get_rate(&eur(), &usd()), Ok(back));
    let gbp = Currency::get(Iso::GBP);
    assert_eq!(exchange.get_rate(&usd(), &gbp), Err(MoneyError::RateNotFound));
}

#[test]
fn displays_in_the_default_locale() {
    let usd_amount = Money::from_str("-2000.009", "USD").unwrap();
    let eur_amount = Money::from_str("-2000,009", "EUR").unwrap();
    assert_eq!(usd_amount.to_string(), "-$2,000.01");
    assert_eq!(eur_amount.to_string(), "-€2.000,01");
    assert_eq!(Iso::GBP.code(), "GBP");
}
