//! Errors raised while encoding, decoding, or building a hash table, and the
//! trait a caller-supplied error type implements to receive them.

use vstd::prelude::*;
use crate::tag::{Kind, Tag};

verus! {

/// Everything that can go wrong in this crate.
#[derive(Clone, Debug)]
pub enum Error {
    /// A tag of the wrong kind stood where another was expected.
    Expected { expected: Kind, actual: Tag, pos: usize },
    /// A tag that encodes neither `false` nor `true`.
    BadBoolean { actual: Tag, pos: usize },
    /// A number that is not a unicode scalar value.
    BadCharacter { value: u32 },
    /// A length-prefixed run whose length is not the one required.
    BadLength { actual: usize, expected: usize, pos: usize },
    /// A tag that marks neither an absent nor a present option.
    ExpectedOption { tag: Tag, pos: usize },
    /// A varint or zigzag value beyond the target width, or a varint with a
    /// trailing zero group.
    Overflow,
    /// The reader ran out of bytes.
    Truncated,
    /// The bytes of a string are not valid UTF-8.
    BadUtf8,
    /// A write did not fit the fixed capacity of a buffered writer.
    BufferOverflow,
    /// The hash table builder exhausted its seed candidates.
    FailedPhf,
    /// An error supplied by the caller.
    Custom(String),
}

/// The contract a caller-supplied error type meets so that this crate's
/// errors, and the caller's own, can be carried in it.
pub trait ContextError: Sized {
    /// An error built from a custom message.
    fn custom(message: String) -> Self;

    /// An error built from a displayable message.
    fn message(message: String) -> Self;
}

impl ContextError for String {
    fn custom(message: String) -> (r: Self)
        ensures
            r@ == message@,
    {
        message
    }

    fn message(message: String) -> (r: Self)
        ensures
            r@ == message@,
    {
        message
    }
}

impl ContextError for Error {
    fn custom(message: String) -> (r: Self)
        ensures
            r matches Error::Custom(m) && m@ == message@,
    {
        Error::Custom(message)
    }

    fn message(message: String) -> (r: Self)
        ensures
            r matches Error::Custom(m) && m@ == message@,
    {
        Error::Custom(message)
    }
}

} // verus!
