use vstd::prelude::*;

verus! {

/// The ways a single 32-bit address word can fail to decode.
#[derive(Debug, Clone, Copy, PartialEq, Eq, Structural)]
pub enum AddressErrorKind {
    /// The word is the null sentinel but a present address was required.
    NullAddress,
    /// The word has no initialized-address bit set and so was never written.
    UnInitialized,
    /// The 3-bit block-kind tag is not one of the known kinds.
    InvalidBlockType,
}

/// Everything that can go wrong while decoding the cache structures.
#[derive(Debug)]
pub enum Error {
    /// An address word failed to decode.
    AddressError(AddressErrorKind),
    /// The index file does not start with the expected magic constant.
    MagicError,
    /// A fixed-size region ended before all of its fields could be read.
    /// The payload names the region, attached by the caller for diagnostics.
    UnexpectedEOF(String),
    /// Text embedded in a key or header is not valid UTF-8.
    StringParseError,
    /// A block file referenced by an address is not available.
    /// The payload names the missing file.
    IOError(String),
    /// A chain of records revisited an address it had already decoded.
    CyclicChain,
    /// A chain of records exceeded the maximum length this decoder follows.
    ChainTooDeep,
}

/// The payload-free shape of an [`Error`], used by specifications, which do
/// not care about the attached diagnostic strings.
pub ghost enum ErrorView {
    Address(AddressErrorKind),
    Magic,
    Eof,
    BadString,
    Io,
    Cycle,
    TooDeep,
}

impl View for Error {
    type V = ErrorView;

    open spec fn view(&self) -> ErrorView {
        match self {
            Error::AddressError(k) => ErrorView::Address(*k),
            Error::MagicError => ErrorView::Magic,
            Error::UnexpectedEOF(_) => ErrorView::Eof,
            Error::StringParseError => ErrorView::BadString,
            Error::IOError(_) => ErrorView::Io,
            Error::CyclicChain => ErrorView::Cycle,
            Error::ChainTooDeep => ErrorView::TooDeep,
        }
    }
}

impl From<AddressErrorKind> for Error {
    fn from(kind: AddressErrorKind) -> (r: Self) {
        Error::AddressError(kind)
    }
}

impl vstd::std_specs::convert::FromSpecImpl<AddressErrorKind> for Error {
    open spec fn obeys_from_spec() -> bool {
        true
    }

    open spec fn from_spec(kind: AddressErrorKind) -> Self {
        Error::AddressError(kind)
    }
}

impl Error {
    /// Attaches the name of the region being read to a short-read error, so
    /// the caller can say which part of the file ended early; every other
    /// error is returned unchanged.
    pub fn add_eof_location(self, location: &str) -> (r: Self)
        ensures
            r@ == self@,
            self@ is Eof ==> (r matches Error::UnexpectedEOF(loc) && loc@ == location@),
            !(self@ is Eof) ==> r == self,
    {
        match self {
            Error::UnexpectedEOF(_) => Error::UnexpectedEOF(location.to_owned()),
            _ => self,
        }
    }
}

} // verus!
