//! The one-byte tag that prefixes every encoded value.
//!
//! A tag byte is split into a *kind* in the high 2 bits and a *data* field in
//! the low 6 bits. The largest representable data value, 63, is the sentinel
//! [`MARK_NONE`]: it signals that the value or length did not fit inline and
//! follows the tag on the wire.

use vstd::prelude::*;

verus! {

/// Mask of the data field: the low 6 bits of the tag byte.
pub const DATA_MASK: u8 = 0x3f;

/// Sentinel data value: the value or length follows the tag byte.
pub const MARK_NONE: u8 = 0x3f;

/// The 2-bit category of a tag.
#[derive(Clone, Copy, PartialEq, Eq, Structural, Debug)]
pub enum Kind {
    /// A single-byte scalar (bool, u8).
    Byte,
    /// A length-prefixed opaque run of bytes.
    Prefix,
    /// An element-count-prefixed sequence of values.
    Sequence,
    /// A variable-length integer.
    Continuation,
}

/// The numeric value a kind occupies in the high 2 bits of the tag byte.
pub open spec fn kind_val(k: Kind) -> u8 {
    match k {
        Kind::Byte => 0,
        Kind::Prefix => 1,
        Kind::Sequence => 2,
        Kind::Continuation => 3,
    }
}

/// The kind encoded in the high 2 bits of a tag byte.
pub open spec fn kind_of(b: u8) -> Kind {
    if b / 64 == 0 {
        Kind::Byte
    } else if b / 64 == 1 {
        Kind::Prefix
    } else if b / 64 == 2 {
        Kind::Sequence
    } else {
        Kind::Continuation
    }
}

/// The data field: the low 6 bits of a tag byte.
pub open spec fn data_of(b: u8) -> u8 {
    b % 64
}

/// The tag byte with the given kind and data field.
pub open spec fn tag_byte(k: Kind, data: u8) -> u8
    recommends
        data <= DATA_MASK,
{
    (kind_val(k) * 64 + data % 64) as u8
}

/// One byte describing the shape of the payload that follows it.
#[derive(Clone, Copy, PartialEq, Eq, Structural, Debug)]
pub struct Tag {
    /// The raw tag byte.
    pub repr: u8,
}

impl Tag {
    /// The tag with the given kind and data field.
    pub fn new(kind: Kind, data: u8) -> (r: Tag)
        requires
            data <= DATA_MASK,
        ensures
            r.repr == tag_byte(kind, data),
            kind_of(r.repr) == kind,
            data_of(r.repr) == data,
    {
        let k: u8 = match kind {
            Kind::Byte => 0,
            Kind::Prefix => 1,
            Kind::Sequence => 2,
            Kind::Continuation => 3,
        };
        Tag { repr: k * 64 + data }
    }

    /// The tag read back from a raw byte.
    pub fn from_byte(b: u8) -> (r: Tag)
        ensures
            r.repr == b,
    {
        Tag { repr: b }
    }

    /// The raw byte of this tag.
    pub fn byte(&self) -> (r: u8)
        ensures
            r == self.repr,
    {
        self.repr
    }

    /// The kind in the high 2 bits.
    pub fn kind(&self) -> (r: Kind)
        ensures
            r == kind_of(self.repr),
    {
        let k: u8 = self.repr / 64;
        if k == 0 {
            Kind::Byte
        } else if k == 1 {
            Kind::Prefix
        } else if k == 2 {
            Kind::Sequence
        } else {
            Kind::Continuation
        }
    }

    /// The data field, or `None` when it holds the sentinel [`MARK_NONE`].
    pub fn data(&self) -> (r: Option<u8>)
        ensures
            data_of(self.repr) == MARK_NONE ==> r is None,
            data_of(self.repr) != MARK_NONE ==> r == Some(data_of(self.repr)),
    {
        let d: u8 = self.repr % 64;
        if d == MARK_NONE {
            None
        } else {
            Some(d)
        }
    }
}

/// Reading the kind and data back from a tag byte inverts [`tag_byte`].
pub proof fn lemma_tag_byte_inverts(k: Kind, data: u8)
    requires
        data <= DATA_MASK,
    ensures
        kind_of(tag_byte(k, data)) == k,
        data_of(tag_byte(k, data)) == data,
{
}

} // verus!
