use vstd::prelude::*;

verus! {

/// What can go wrong while decoding a message.
#[derive(Debug, Clone, Copy, PartialEq, Eq, Structural)]
pub enum Error {
    /// The message ended before a field that it announces.
    UnexpectedEof,
    /// A label of a name is not valid UTF-8.
    Utf8,
}

/// The result of decoding a message.
pub type Result<T> = core::result::Result<T, Error>;

} // verus!
