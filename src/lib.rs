//! Monetary amounts tied to an ISO 4217 currency: currency-safe arithmetic, explicit
//! rounding, locale-aware formatting and parsing, and conversion through exchange rates.

mod currency;
mod error;
mod exchange;
mod formatter;
mod locale;
mod money;
mod parser;
mod round_trip;

pub use currency::{currency_spec, find, from_enum, lemma_alpha_codes_distinct, Currency, Iso};
pub use error::MoneyError;
pub use locale::{from_locale, locale_spec, LocalFormat, Locale};
pub use money::{
    fits_i128, lemma_minor_units_add, lemma_mismatch, lemma_pow10_positive,
    lemma_round_half_even_idempotent, lemma_rounded_is_multiple, minor_unit, pow10, rounded, Money,
    Round, FRACTION_DIGITS,
};
pub use exchange::{converted, rate_in, Exchange, ExchangeRate};
pub use formatter::{digit_char, digits_of, format_money, format_spec, grouped, number_text, padded};
pub use parser::{
    digit_value, digits_value, fraction_part, is_digit, magnitude, parse, parse_in, parsed, point,
    strip_symbol, unsigned_part, well_formed_number, whole_part, without, zeros,
};
pub use round_trip::{all_digits, lemma_parse_format_round_trip};
