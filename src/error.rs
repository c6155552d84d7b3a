use vstd::prelude::*;

verus! {

/// Reasons a requested board size cannot be played.
#[derive(Debug, Clone, Copy, PartialEq, Eq, Structural)]
pub enum Error {
    FieldTooLarge,
    TooManyMines,
    TooManyDuds,
}

pub open spec fn error_text(e: Error) -> Seq<char> {
    match e {
        Error::FieldTooLarge => "field too large"@,
        Error::TooManyMines => "too many mines for field size"@,
        Error::TooManyDuds => "more duds than mines"@,
    }
}

impl Error {
    /// A short message for the user.
    pub fn message(&self) -> (r: &'static str)
        ensures
            r@ == error_text(*self),
    {
        proof {
            reveal_strlit("field too large");
            reveal_strlit("too many mines for field size");
            reveal_strlit("more duds than mines");
        }
        match self {
            Error::FieldTooLarge => "field too large",
            Error::TooManyMines => "too many mines for field size",
            Error::TooManyDuds => "more duds than mines",
        }
    }
}

} // verus!
