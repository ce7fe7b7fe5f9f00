//! The parse error taxonomy. Every failure of the parser is one of these
//! values; the data each variant carries (byte offsets, the offending
//! substring, the number parsed so far) is part of the parser's contract.

use vstd::prelude::*;
use crate::numeric::dec_rep;

verus! {

/// Mathematical image of an [`Error`]: offsets as `int`, the offending
/// substring as a character sequence.
pub enum ErrView {
    Empty,
    InvalidCharacter(int),
    UnitNeeded { offset: int, value: int },
    UnknownUnit { start: int, end: int, unit: Seq<char>, value: int },
    Overflow,
}

/// A failure of the parser.
#[derive(Debug, Clone, PartialEq, Eq)]
pub enum Error {
    /// The input held no digits at all.
    Empty,
    /// A character that fits no token, at its byte offset.
    InvalidCharacter(usize),
    /// A number ended (at `offset`) with no unit text attached.
    UnitNeeded { offset: usize, value: u64 },
    /// Unit text outside the alias table, with its byte range and the
    /// number that preceded it.
    UnknownBinaryUnit { start: usize, end: usize, unit: String, value: u64 },
    /// A checked arithmetic step exceeded its integer width.
    NumberOverflow,
}

impl View for Error {
    type V = ErrView;

    open spec fn view(&self) -> ErrView {
        match self {
            Error::Empty => ErrView::Empty,
            Error::InvalidCharacter(off) => ErrView::InvalidCharacter(*off as int),
            Error::UnitNeeded { offset, value } => ErrView::UnitNeeded {
                offset: *offset as int,
                value: *value as int,
            },
            Error::UnknownBinaryUnit { start, end, unit, value } => ErrView::UnknownUnit {
                start: *start as int,
                end: *end as int,
                unit: unit@,
                value: *value as int,
            },
            Error::NumberOverflow => ErrView::Overflow,
        }
    }
}

/// The human-readable message for each error value.
pub open spec fn message_of(e: ErrView) -> Seq<char> {
    match e {
        ErrView::Empty => "empty input"@,
        ErrView::InvalidCharacter(off) => "invalid character at "@ + dec_rep(off as nat),
        ErrView::UnitNeeded { offset, value } => "binary bandwidth unit needed, for example "@
            + dec_rep(value as nat) + "MiB/s or "@ + dec_rep(value as nat) + "B/s"@,
        ErrView::UnknownUnit { start, end, unit, value } => "unknown binary bandwidth unit \""@
            + unit + "\", supported units: B/s, KiB/s, MiB/s, GiB/s, TiB/s"@,
        ErrView::Overflow => "number is too large"@,
    }
}

impl Error {
    /// Renders the error as its message text.
    pub fn message(&self) -> (r: String)
        ensures
            r@ == message_of(self@),
    {
        match self {
            Error::Empty => String::from_str("empty input"),
            Error::InvalidCharacter(off) => {
                let mut s = String::from_str("invalid character at ");
                let num = crate::numeric::u64_to_string(*off as u64);
                s.append(num.as_str());
                proof {
                    assert(s@ =~= message_of(self@));
                }
                s
            },
            Error::UnitNeeded { offset: _, value } => {
                let num = crate::numeric::u64_to_string(*value);
                let mut s = String::from_str("binary bandwidth unit needed, for example ");
                s.append(num.as_str());
                s.append("MiB/s or ");
                s.append(num.as_str());
                s.append("B/s");
                proof {
                    assert(s@ =~= message_of(self@));
                }
                s
            },
            Error::UnknownBinaryUnit { start: _, end: _, unit, value: _ } => {
                let mut s = String::from_str("unknown binary bandwidth unit \"");
                s.append(unit.as_str());
                s.append("\", supported units: B/s, KiB/s, MiB/s, GiB/s, TiB/s");
                proof {
                    assert(s@ =~= message_of(self@));
                }
                s
            },
            Error::NumberOverflow => String::from_str("number is too large"),
        }
    }
}

} // verus!
