use vstd::prelude::*;

verus! {

/// Everything that can go wrong in one encode or decode pass. A failure
/// is terminal: the call returns one of these and no partial output.
#[derive(Debug)]
pub enum Error {
    /// Decoding would read past the end of the input (or past the byte
    /// budget of an enclosing size-prefixed field).
    Truncated,
    /// The payload of a text field is not valid UTF-8.
    InvalidUtf8,
    /// A decoded selector byte has no meaning: a union tag with no
    /// variant, a boolean byte other than 0 or 1, or four bytes that are
    /// not a Unicode scalar value.
    InvalidDiscriminant,
    /// A count or byte size is too large for the chosen prefix width, so
    /// encoding it would silently wrap; encoding fails instead.
    PrefixOverflow,
    /// A shape-level mismatch, with a description: the byte budget of a
    /// size-prefixed list does not align with whole elements.
    Custom(String),
}

/// The kind of an [`Error`], with no message attached. The wire-format
/// specification (`wire::dec`) classifies failures by kind; the decoder
/// is proved to return an [`Error`] of the kind the specification names.
#[derive(Clone, Copy, Debug, PartialEq, Eq, Structural)]
pub enum ErrorKind {
    /// See [`Error::Truncated`].
    Truncated,
    /// See [`Error::InvalidUtf8`].
    InvalidUtf8,
    /// See [`Error::InvalidDiscriminant`].
    InvalidDiscriminant,
    /// See [`Error::PrefixOverflow`].
    PrefixOverflow,
    /// See [`Error::Custom`]: a size prefix that does not align with
    /// whole elements.
    SizeMismatch,
}

/// True when the error `e` is of the kind `k`.
pub open spec fn corresponds(e: Error, k: ErrorKind) -> bool {
    match k {
        ErrorKind::Truncated => e is Truncated,
        ErrorKind::InvalidUtf8 => e is InvalidUtf8,
        ErrorKind::InvalidDiscriminant => e is InvalidDiscriminant,
        ErrorKind::PrefixOverflow => e is PrefixOverflow,
        ErrorKind::SizeMismatch => e is Custom,
    }
}

impl Error {
    /// The [`ErrorKind`] of this error.
    pub fn kind(&self) -> (k: ErrorKind)
        ensures
            corresponds(*self, k),
    {
        match self {
            Error::Truncated => ErrorKind::Truncated,
            Error::InvalidUtf8 => ErrorKind::InvalidUtf8,
            Error::InvalidDiscriminant => ErrorKind::InvalidDiscriminant,
            Error::PrefixOverflow => ErrorKind::PrefixOverflow,
            Error::Custom(_) => ErrorKind::SizeMismatch,
        }
    }
}

/// The [`Error`] reported for a decode failure of the kind `k`.
pub fn error_of(k: ErrorKind) -> (e: Error)
    ensures
        corresponds(e, k),
{
    match k {
        ErrorKind::Truncated => Error::Truncated,
        ErrorKind::InvalidUtf8 => Error::InvalidUtf8,
        ErrorKind::InvalidDiscriminant => Error::InvalidDiscriminant,
        ErrorKind::PrefixOverflow => Error::PrefixOverflow,
        ErrorKind::SizeMismatch => Error::Custom(
            "size prefix does not align with whole elements".to_owned(),
        ),
    }
}

} // verus!
