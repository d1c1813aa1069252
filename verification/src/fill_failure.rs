use vstd::prelude::*;

verus! {

/// Why a fill attempt on a board was rejected.
#[derive(Debug, Copy, Clone, Eq, PartialEq, Structural)]
pub enum FillFailure {
    /// The digit is already placed somewhere on the board.
    ValueAlreadyContained,
    /// The position is already occupied by another digit.
    PositionAlreadyFilled,
}

impl FillFailure {
    /// A short description of the failure, usable in messages.
    pub fn message(&self) -> (r: &'static str)
        ensures
            *self == FillFailure::ValueAlreadyContained ==> r@ == "ValueAlreadyContained"@,
            *self == FillFailure::PositionAlreadyFilled ==> r@ == "PositionAlreadyFilled"@,
    {
        match self {
            FillFailure::ValueAlreadyContained => "ValueAlreadyContained",
            FillFailure::PositionAlreadyFilled => "PositionAlreadyFilled",
        }
    }
}

} // verus!
