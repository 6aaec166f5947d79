use vstd::prelude::*;

verus! {

/// Why a decode step gave up. Every failure of decoding is one of these
/// values; no input makes a decoder abort.
#[derive(Clone, Copy, Debug, PartialEq, Eq, Structural)]
pub enum PadeDecodeError {
    /// Fewer bytes remain than the step needs.
    InvalidSize,
    /// A narrowed width is wider than the type itself.
    IncorrectWidth,
    /// A discriminant names no declared variant.
    UnknownVariant,
}

impl PadeDecodeError {
    /// A short text for the failure.
    pub fn message(&self) -> (text: &'static str)
        ensures
            *self == PadeDecodeError::InvalidSize ==> text@ == "input ends before the value does"@,
            *self == PadeDecodeError::IncorrectWidth ==> text@
                == "width is larger than the type's own"@,
            *self == PadeDecodeError::UnknownVariant ==> text@ == "no variant has this tag"@,
    {
        match self {
            PadeDecodeError::InvalidSize => "input ends before the value does",
            PadeDecodeError::IncorrectWidth => "width is larger than the type's own",
            PadeDecodeError::UnknownVariant => "no variant has this tag",
        }
    }
}

} // verus!
