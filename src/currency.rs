use vstd::prelude::*;
use vstd::string::StrSliceExecFns;

use crate::error::MoneyError;
use crate::locale::Locale;

verus! {

/// The ISO 4217 currencies of the catalog.
#[derive(Debug, Clone, Copy, PartialEq, Eq, Structural)]
pub enum Iso {
    AED,
    BHD,
    EUR,
    GBP,
    INR,
    USD,
}

impl Iso {
    /// The alphabetic code of the currency.
    pub fn code(&self) -> (r: &'static str)
        ensures
            r@ == currency_spec(*self).iso_alpha_code@,
    {
        from_enum(self).iso_alpha_code
    }
}

/// The descriptor of a currency: its codes, display data and number of minor-unit digits.
#[derive(Debug, Clone, Copy)]
pub struct Currency {
    pub iso: Iso,
    pub default_locale: Locale,
    pub exponent: u32,
    pub iso_alpha_code: &'static str,
    pub iso_numeric_code: &'static str,
    pub name: &'static str,
    pub symbol: &'static str,
    pub symbol_first: bool,
}

impl Currency {
    /// The descriptor is the catalog's entry for its own code.
    pub open spec fn wf(&self) -> bool {
        *self == currency_spec(self.iso)
    }

    /// Returns the catalog's descriptor of a currency.
    pub fn get(code: Iso) -> (r: Currency)
        ensures
            r == currency_spec(code),
            r.wf(),
    {
        from_enum(&code)
    }
}

/// The catalog entry of each currency.
pub open spec fn currency_spec(code: Iso) -> Currency {
    match code {
        Iso::AED => Currency {
            iso: Iso::AED,
            default_locale: Locale::EnUs,
            exponent: 2,
            iso_alpha_code: "AED",
            iso_numeric_code: "784",
            name: "United Arab Emirates Dirham",
            symbol: "د.إ",
            symbol_first: false,
        },
        Iso::BHD => Currency {
            iso: Iso::BHD,
            default_locale: Locale::EnUs,
            exponent: 3,
            iso_alpha_code: "BHD",
            iso_numeric_code: "048",
            name: "Bahraini Dinar",
            symbol: "ب.د",
            symbol_first: true,
        },
        Iso::EUR => Currency {
            iso: Iso::EUR,
            default_locale: Locale::EnEu,
            exponent: 2,
            iso_alpha_code: "EUR",
            iso_numeric_code: "978",
            name: "Euro",
            symbol: "€",
            symbol_first: true,
        },
        Iso::GBP => Currency {
            iso: Iso::GBP,
            default_locale: Locale::EnUs,
            exponent: 2,
            iso_alpha_code: "GBP",
            iso_numeric_code: "826",
            name: "British Pound",
            symbol: "£",
            symbol_first: true,
        },
        Iso::INR => Currency {
            iso: Iso::INR,
            default_locale: Locale::EnIn,
            exponent: 2,
            iso_alpha_code: "INR",
            iso_numeric_code: "356",
            name: "Indian Rupee",
            symbol: "₹",
            symbol_first: true,
        },
        Iso::USD => Currency {
            iso: Iso::USD,
            default_locale: Locale::EnUs,
            exponent: 2,
            iso_alpha_code: "USD",
            iso_numeric_code: "840",
            name: "United States Dollar",
            symbol: "$",
            symbol_first: true,
        },
    }
}

/// Every currency of the catalog uses at most three minor-unit digits.
pub proof fn lemma_exponent_small(code: Iso)
    ensures
        currency_spec(code).exponent <= 3,
{
}

/// No two currencies share an alphabetic code.
pub proof fn lemma_alpha_codes_distinct()
    ensures
        forall|a: Iso, b: Iso|
            currency_spec(a).iso_alpha_code@ == currency_spec(b).iso_alpha_code@ ==> a == b,
{
    reveal_strlit("AED");
    reveal_strlit("BHD");
    reveal_strlit("EUR");
    reveal_strlit("GBP");
    reveal_strlit("INR");
    reveal_strlit("USD");
    assert forall|a: Iso, b: Iso|
        currency_spec(a).iso_alpha_code@ == currency_spec(b).iso_alpha_code@ implies a == b by {
        if a != b {
            assert(currency_spec(a).iso_alpha_code@[0] != currency_spec(b).iso_alpha_code@[0]
                || currency_spec(a).iso_alpha_code@[1] != currency_spec(b).iso_alpha_code@[1]);
        }
    }
}

/// Returns the descriptor of a currency given its code.
pub fn from_enum(code: &Iso) -> (r: Currency)
    ensures
        r == currency_spec(*code),
        r.wf(),
{
    match code {
        Iso::AED => Currency {
            iso: Iso::AED,
            default_locale: Locale::EnUs,
            exponent: 2,
            iso_alpha_code: "AED",
            iso_numeric_code: "784",
            name: "United Arab Emirates Dirham",
            symbol: "د.إ",
            symbol_first: false,
        },
        Iso::BHD => Currency {
            iso: Iso::BHD,
            default_locale: Locale::EnUs,
            exponent: 3,
            iso_alpha_code: "BHD",
            iso_numeric_code: "048",
            name: "Bahraini Dinar",
            symbol: "ب.د",
            symbol_first: true,
        },
        Iso::EUR => Currency {
            iso: Iso::EUR,
            default_locale: Locale::EnEu,
            exponent: 2,
            iso_alpha_code: "EUR",
            iso_numeric_code: "978",
            name: "Euro",
            symbol: "€",
            symbol_first: true,
        },
        Iso::GBP => Currency {
            iso: Iso::GBP,
            default_locale: Locale::EnUs,
            exponent: 2,
            iso_alpha_code: "GBP",
            iso_numeric_code: "826",
            name: "British Pound",
            symbol: "£",
            symbol_first: true,
        },
        Iso::INR => Currency {
            iso: Iso::INR,
            default_locale: Locale::EnIn,
            exponent: 2,
            iso_alpha_code: "INR",
            iso_numeric_code: "356",
            name: "Indian Rupee",
            symbol: "₹",
            symbol_first: true,
        },
        Iso::USD => Currency {
            iso: Iso::USD,
            default_locale: Locale::EnUs,
            exponent: 2,
            iso_alpha_code: "USD",
            iso_numeric_code: "840",
            name: "United States Dollar",
            symbol: "$",
            symbol_first: true,
        },
    }
}

/// Whether two strings hold the same characters.
fn same_text(a: &str, b: &str) -> (r: bool)
    ensures
        r == (a@ == b@),
{
    let n = a.unicode_len();
    if n != b.unicode_len() {
        return false;
    }
    let mut i: usize = 0;
    while i < n
        invariant
            n == a@.len(),
            n == b@.len(),
            i <= n,
            forall|j: int| 0 <= j < i ==> a@[j] == b@[j],
        decreases n - i,
    {
        if a.get_char(i) != b.get_char(i) {
            return false;
        }
        i = i + 1;
    }
    assert(a@ =~= b@);
    true
}

/// Looks a currency up by its alphabetic code, which is case-sensitive.
pub fn find(code: &str) -> (r: Result<Currency, MoneyError>)
    ensures
        r is Ok <==> exists|c: Iso| currency_spec(c).iso_alpha_code@ == code@,
        r matches Ok(c) ==> c.wf() && c.iso_alpha_code@ == code@,
        r matches Err(e) ==> e == MoneyError::UnknownCurrency,
{
    let all: [Iso; 6] = [Iso::AED, Iso::BHD, Iso::EUR, Iso::GBP, Iso::INR, Iso::USD];
    let mut i: usize = 0;
    while i < 6
        invariant
            i <= 6,
            all@ == seq![Iso::AED, Iso::BHD, Iso::EUR, Iso::GBP, Iso::INR, Iso::USD],
            forall|j: int| 0 <= j < i ==> currency_spec(all@[j]).iso_alpha_code@ != code@,
        decreases 6 - i,
    {
        let c = from_enum(&all[i]);
        if same_text(c.iso_alpha_code, code) {
            return Ok(c);
        }
        i = i + 1;
    }
    assert forall|c: Iso| currency_spec(c).iso_alpha_code@ != code@ by {
        match c {
            Iso::AED => assert(all@[0] == c),
            Iso::BHD => assert(all@[1] == c),
            Iso::EUR => assert(all@[2] == c),
            Iso::GBP => assert(all@[3] == c),
            Iso::INR => assert(all@[4] == c),
            Iso::USD => assert(all@[5] == c),
        }
    }
    Err(MoneyError::UnknownCurrency)
}

} // verus!
