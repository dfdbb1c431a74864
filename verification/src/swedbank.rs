use vstd::prelude::*;

use crate::amount::Amount;
use crate::text::append_padded;
use crate::text::padded_digits;

verus! {

/// A calendar date, held as plain year, month and day numbers.
#[derive(Clone, Copy, PartialEq, Eq, Structural, Debug)]
pub struct Date {
    pub year: u32,
    pub month: u32,
    pub day: u32,
}

impl Date {
    /// A four-digit year and a month and day in calendar range.
    pub open spec fn wf(self) -> bool {
        self.year <= 9999 && 1 <= self.month <= 12 && 1 <= self.day <= 31
    }

    pub fn new(year: u32, month: u32, day: u32) -> (r: Date)
        ensures
            r == (Date { year, month, day }),
    {
        Date { year, month, day }
    }
}

/// The fixed `YYYY-MM-DD` text of a date.
pub open spec fn date_chars(d: Date) -> Seq<char> {
    padded_digits(d.year as nat, 4) + seq!['-'] + padded_digits(d.month as nat, 2) + seq!['-']
        + padded_digits(d.day as nat, 2)
}

/// Appends the `YYYY-MM-DD` text of `d`.
pub fn append_date(s: &mut String, d: &Date)
    ensures
        final(s)@ == old(s)@ + date_chars(*d),
{
    let ghost s0 = s@;
    proof {
        reveal_strlit("-");
        assert("-"@ =~= seq!['-']);
    }
    append_padded(s, d.year as u128, 4);
    s.append("-");
    append_padded(s, d.month as u128, 2);
    s.append("-");
    append_padded(s, d.day as u128, 2);
    proof {
        assert(s@ =~= s0 + date_chars(*d));
    }
}

/// One decoded bank-export record: account numbers, currency, the posting
/// and transaction dates, reference, description, the signed amount and the
/// booked balance after the transaction.
pub struct SwedbankRow {
    pub clearingnummer: u32,
    pub kontonummer: u32,
    pub valuta: String,
    pub bokforingsdag: Date,
    pub transaktionsdag: Date,
    pub referens: String,
    pub beskrivning: String,
    pub belopp: Amount,
    pub bokfort_saldo: Amount,
}

} // verus!
