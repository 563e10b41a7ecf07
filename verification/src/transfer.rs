//! One bank-statement movement: a dated, labeled, amount-bearing record,
//! keyed by (date, label, amount in cents), and the parsing of one
//! tab-separated statement line into such a record.

use vstd::prelude::*;

use crate::amount::spec_parse_amount;
use crate::date::{spec_parse_dmy, Date};
use crate::text::{remove_all, split_on, QUOTE, TAB};

verus! {

/// A single transaction. The amount is in cents; the category is the code
/// the matcher resolved, or `None`.
pub struct Transfer {
    pub date: Date,
    pub label: Vec<u8>,
    pub category: Option<Vec<u8>>,
    pub amount: i64,
}

/// Mathematical image of a `Transfer`.
pub struct TransferData {
    pub date: Date,
    pub label: Seq<u8>,
    pub category: Option<Seq<u8>>,
    pub amount: i64,
}

impl View for Transfer {
    type V = TransferData;

    open spec fn view(&self) -> TransferData {
        TransferData {
            date: self.date,
            label: self.label@,
            category: match self.category {
                Option::None => None,
                Option::Some(c) => Some(c@),
            },
            amount: self.amount,
        }
    }
}

impl DeepView for Transfer {
    type V = TransferData;

    open spec fn deep_view(&self) -> TransferData {
        self@
    }
}

/// Why a statement line was rejected.
#[derive(Clone, Copy, Debug, PartialEq, Eq, Structural)]
pub enum ParseError {
    /// The line has fewer than three tab-separated fields.
    TooFewFields,
    /// The third field is not a parseable amount.
    BadAmount,
}

/// The record a statement line parses to: at least three tab-separated
/// fields; the first is the date (an unparseable date falls back to the
/// caller's default), the second the label with every double quote removed,
/// the third the amount in comma-decimal text. `None` when the line is
/// rejected.
pub open spec fn spec_parse_line(s: Seq<u8>, default_date: Date) -> Option<TransferData> {
    let f = split_on(s, TAB);
    if f.len() < 3 {
        None
    } else {
        match spec_parse_amount(f[2]) {
            Option::None => None,
            Option::Some(c) => Some(
                TransferData {
                    date: match spec_parse_dmy(f[0]) {
                        Option::Some(d) => d,
                        Option::None => default_date,
                    },
                    label: remove_all(f[1], QUOTE),
                    category: None,
                    amount: c,
                },
            ),
        }
    }
}

impl Transfer {
    /// Parses one statement line, substituting `default_date` when the date
    /// field does not parse, and rejecting the line when fields are missing
    /// or the amount does not parse.
    pub fn from_str(s: &Vec<u8>, default_date: Date) -> (r: Result<Transfer, ParseError>)
        ensures
            match r {
                Result::Ok(t) => spec_parse_line(s@, default_date) == Some(t@),
                Result::Err(ParseError::TooFewFields) => split_on(s@, TAB).len() < 3,
                Result::Err(ParseError::BadAmount) => split_on(s@, TAB).len() >= 3
                    && spec_parse_amount(split_on(s@, TAB)[2]) is None,
            },
            r is Err <==> spec_parse_line(s@, default_date) is None,
    {
        let parts = crate::text::split_bytes(s, TAB);
        if parts.len() < 3 {
            return Err(ParseError::TooFewFields);
        }
        proof {
            assert(parts@[0].deep_view() =~= parts@[0]@);
            assert(parts@[1].deep_view() =~= parts@[1]@);
            assert(parts@[2].deep_view() =~= parts@[2]@);
        }
        let amount = match crate::amount::parse_amount(&parts[2]) {
            Option::Some(a) => a,
            Option::None => {
                return Err(ParseError::BadAmount);
            },
        };
        let date = match crate::date::parse_dmy(&parts[0]) {
            Option::Some(d) => d,
            Option::None => default_date,
        };
        let label = crate::text::remove_byte(&parts[1], QUOTE);
        Ok(Transfer { date, label, category: None, amount })
    }
}

} // verus!
