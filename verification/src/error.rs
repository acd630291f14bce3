//! The parse error taxonomy, and its human-readable rendering.

use vstd::prelude::*;

use crate::model::{error_text, ErrorV};

verus! {

/// Why a parse failed.  Every failure is terminal for the parse call that
/// raised it; nothing is retried.
pub enum Error {
    /// A delimiter or a length promised more data, but the buffer ended
    /// before that data was fully present; the detail names the record and a
    /// position or a missing byte count.
    Incomplete(String),
    /// The buffer ran out while a delimiter was still expected: the data is
    /// not in the format at all.
    NoStructure,
    /// The length field's text could not be read as a non-negative integer;
    /// the detail echoes the offending text.
    BadStructure(String),
    /// Content of length zero was asked for; well-formed callers skip the
    /// content scan entirely on a zero length.
    NoContent,
}

impl View for Error {
    type V = ErrorV;

    open spec fn view(&self) -> ErrorV {
        match self {
            Error::Incomplete(info) => ErrorV::Incomplete(info@),
            Error::NoStructure => ErrorV::NoStructure,
            Error::BadStructure(info) => ErrorV::BadStructure(info@),
            Error::NoContent => ErrorV::NoContent,
        }
    }
}

impl Error {
    /// The error as descriptive text, one line, kind first.
    pub fn to_string(&self) -> (r: String)
        ensures
            r@ == error_text(self@),
    {
        match self {
            Error::Incomplete(info) => {
                let mut out = String::new();
                out.append("Error: Incomplete data: ");
                out.append(info.as_str());
                proof {
                    assert(out@ =~= error_text(self@));
                }
                out
            },
            Error::NoStructure => {
                let mut out = String::new();
                out.append("Error: No structure: The data does not follow the mON structure.");
                proof {
                    assert(out@ =~= error_text(self@));
                }
                out
            },
            Error::BadStructure(info) => {
                let mut out = String::new();
                out.append("Error: Bad data: ");
                out.append(info.as_str());
                proof {
                    assert(out@ =~= error_text(self@));
                }
                out
            },
            Error::NoContent => {
                let mut out = String::new();
                out.append("Error: Content of length 0 cannot be parsed.");
                proof {
                    assert(out@ =~= error_text(self@));
                }
                out
            },
        }
    }
}

} // verus!
