use vstd::prelude::*;

verus! {

/// The locales whose conventions the formatter knows.
#[derive(Debug, Clone, Copy, PartialEq, Eq, Structural)]
pub enum Locale {
    EnUs,
    EnIn,
    EnEu,
    EnBy,
}

/// How a locale writes numbers.
#[derive(Debug, Clone, Copy, PartialEq, Eq, Structural)]
pub struct LocalFormat {
    pub name: Locale,
    pub decimal_separator: char,
    pub grouping_separator: char,
    /// Digits per group in the integer part, counted from the least significant digit.
    pub grouping_width: u32,
}

impl LocalFormat {
    /// Separators differ and the width of a group is a small positive number.
    pub open spec fn wf(&self) -> bool {
        &&& self.decimal_separator != self.grouping_separator
        &&& 1 <= self.grouping_width <= 9
        &&& !('0' <= self.decimal_separator <= '9')
        &&& !('0' <= self.grouping_separator <= '9')
        &&& self.decimal_separator != '-'
        &&& self.grouping_separator != '-'
    }
}

/// The conventions of each locale.
pub open spec fn locale_spec(locale: Locale) -> LocalFormat {
    match locale {
        Locale::EnUs => LocalFormat {
            name: Locale::EnUs,
            decimal_separator: '.',
            grouping_separator: ',',
            grouping_width: 3,
        },
        Locale::EnIn => LocalFormat {
            name: Locale::EnIn,
            decimal_separator: '.',
            grouping_separator: ',',
            grouping_width: 3,
        },
        Locale::EnEu => LocalFormat {
            name: Locale::EnEu,
            decimal_separator: ',',
            grouping_separator: '.',
            grouping_width: 3,
        },
        Locale::EnBy => LocalFormat {
            name: Locale::EnBy,
            decimal_separator: ',',
            grouping_separator: ' ',
            grouping_width: 3,
        },
    }
}

/// Returns the formatting conventions of a locale.
pub fn from_locale(locale: &Locale) -> (r: LocalFormat)
    ensures
        r == locale_spec(*locale),
        r.wf(),
{
    match locale {
        Locale::EnUs => LocalFormat {
            name: Locale::EnUs,
            decimal_separator: '.',
            grouping_separator: ',',
            grouping_width: 3,
        },
        Locale::EnIn => LocalFormat {
            name: Locale::EnIn,
            decimal_separator: '.',
            grouping_separator: ',',
            grouping_width: 3,
        },
        Locale::EnEu => LocalFormat {
            name: Locale::EnEu,
            decimal_separator: ',',
            grouping_separator: '.',
            grouping_width: 3,
        },
        Locale::EnBy => LocalFormat {
            name: Locale::EnBy,
            decimal_separator: ',',
            grouping_separator: ' ',
            grouping_width: 3,
        },
    }
}

} // verus!
