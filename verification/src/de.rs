//! The wire decoder. Each typed read consumes one tag, checks its kind, and
//! reports a structured error at the tag's position when the stream holds
//! something else. `skip_any` traverses one value of any shape, which is
//! what makes unknown fields skippable.

use vstd::prelude::*;
use vstd::string::StringSliceAdditionalSpecFns;
use crate::continuation;
use crate::continuation::cont_truncated;
use crate::error::Error;
use crate::format::bool_parse;
use crate::format::bytes_parse;
use crate::format::header_parse;
use crate::format::len_parse;
use crate::format::lemma_skip_len_bounds;
use crate::format::skip_len;
use crate::format::skip_n;
use crate::format::u8_parse;
use crate::format::uint_parse;
use crate::integer;
use crate::integer::IntEncoding;
use crate::reader::Reader;
use crate::tag::data_of;
use crate::tag::kind_of;
use crate::tag::tag_byte;
use crate::tag::Kind;
use crate::tag::Tag;
use crate::tag::MARK_NONE;
use crate::zigzag;

verus! {

/// A unicode scalar value: what a `char` can hold.
pub open spec fn is_unicode_scalar(v: nat) -> bool {
    v < 0xD800 || (0xE000 <= v && v <= 0x10FFFF)
}

/// Relies on char::from_u32: `Some` exactly on unicode scalar values, and
/// the character then has that scalar value.
pub assume_specification[ char::from_u32 ](i: u32) -> (r: Option<char>)
    ensures
        r is Some <==> is_unicode_scalar(i as nat),
        r matches Some(c) ==> c as u32 == i,
;

/// A decoder that reads values off a positioned reader under a fixed policy
/// pair — the pair the encoder used.
pub struct WireDecoder<'de> {
    /// The reader the values come from.
    pub reader: Reader<'de>,
    /// The policy for multi-byte integers.
    pub ipol: IntEncoding,
    /// The policy for lengths and counts.
    pub lpol: IntEncoding,
}

impl<'de> WireDecoder<'de> {
    /// The reader is inside its bounds.
    pub open spec fn wf(self) -> bool {
        self.reader.wf()
    }

    /// The bytes not yet consumed.
    pub open spec fn rem(self) -> Seq<u8> {
        self.reader.rem()
    }

    /// Two decoder states read the same stream under the same policies.
    pub open spec fn same_stream(self, other: WireDecoder<'de>) -> bool {
        self.reader.spec_data() == other.reader.spec_data() && self.reader.spec_end()
            == other.reader.spec_end() && self.ipol == other.ipol && self.lpol == other.lpol
    }

    /// A decoder over `reader` under the given policy pair.
    pub fn new(reader: Reader<'de>, ipol: IntEncoding, lpol: IntEncoding) -> (r: WireDecoder<'de>)
        ensures
            r.reader == reader,
            r.ipol == ipol,
            r.lpol == lpol,
    {
        WireDecoder { reader, ipol, lpol }
    }

    /// Read a length or count under the length policy, without a tag.
    fn decode_len(&mut self) -> (res: Result<usize, Error>)
        requires
            old(self).wf(),
        ensures
            final(self).wf(),
            final(self).same_stream(*old(self)),
            final(self).reader.spec_pos() >= old(self).reader.spec_pos(),
            match len_parse(old(self).rem(), old(self).lpol) {
                Some(vk) => res == Ok::<usize, Error>(vk.0 as usize)
                    && final(self).reader.spec_pos() == old(self).reader.spec_pos() + vk.1,
                None => res is Err,
            },
    {
        match self.lpol {
            IntEncoding::Varint => {
                let v = match continuation::decode(&mut self.reader) {
                    Ok(v) => v,
                    Err(e) => {
                        return Err(e);
                    },
                };
                if v > usize::MAX as u128 {
                    Err(Error::Overflow)
                } else {
                    Ok(v as usize)
                }
            },
            IntEncoding::Fixed(bo) => {
                let v = match integer::decode_fixed(&mut self.reader, 8, bo) {
                    Ok(v) => v,
                    Err(e) => {
                        return Err(e);
                    },
                };
                if v > usize::MAX as u128 {
                    Err(Error::Overflow)
                } else {
                    Ok(v as usize)
                }
            },
        }
    }

    /// Read one unsigned integer value of `width` bytes under policy `ip`:
    /// a `Continuation` tag, inline or followed by its payload.
    fn decode_uint(&mut self, width: usize, ip: IntEncoding) -> (res: Result<u128, Error>)
        requires
            old(self).wf(),
            1 <= width <= 16,
        ensures
            final(self).wf(),
            final(self).same_stream(*old(self)),
            final(self).reader.spec_pos() >= old(self).reader.spec_pos(),
            match uint_parse(old(self).rem(), width as nat, ip) {
                Some(vk) => if vk.0 <= u128::MAX {
                    res == Ok::<u128, Error>(vk.0 as u128) && final(self).reader.spec_pos() == old(
                        self,
                    ).reader.spec_pos() + vk.1
                } else {
                    res == Err::<u128, Error>(Error::Overflow)
                },
                None => res is Err,
            },
            old(self).rem().len() == 0 ==> res == Err::<u128, Error>(Error::Truncated),
            old(self).rem().len() > 0 && kind_of(old(self).rem()[0]) != Kind::Continuation ==> res
                == Err::<u128, Error>(
                Error::Expected {
                    expected: Kind::Continuation,
                    actual: Tag { repr: old(self).rem()[0] },
                    pos: old(self).reader.spec_pos(),
                },
            ),
            (ip == IntEncoding::Varint && old(self).rem().len() > 0 && kind_of(
                old(self).rem()[0],
            ) == Kind::Continuation && data_of(old(self).rem()[0]) == MARK_NONE
                && crate::continuation::cont_parse(old(self).rem().skip(1)) is None) ==> res
                == Err::<u128, Error>(
                if cont_truncated(old(self).rem().skip(1)) {
                    Error::Truncated
                } else {
                    Error::Overflow
                },
            ),
    {
        let pos = self.reader.pos();
        let b = match self.reader.read_byte() {
            Ok(b) => b,
            Err(e) => {
                return Err(e);
            },
        };
        let tag = Tag::from_byte(b);
        if !matches!(tag.kind(), Kind::Continuation) {
            return Err(Error::Expected { expected: Kind::Continuation, actual: tag, pos });
        }
        match ip {
            IntEncoding::Varint => {
                match tag.data() {
                    Some(d) => Ok(d as u128),
                    None => {
                        match continuation::decode(&mut self.reader) {
                            Ok(v) => Ok(v),
                            Err(e) => Err(e),
                        }
                    },
                }
            },
            IntEncoding::Fixed(bo) => {
                if tag.data().is_some() {
                    return Err(
                        Error::Expected { expected: Kind::Continuation, actual: tag, pos },
                    );
                }
                match integer::decode_fixed(&mut self.reader, width, bo) {
                    Ok(v) => Ok(v),
                    Err(e) => Err(e),
                }
            },
        }
    }

    /// Read a `u8`: a `Byte` tag, inline or followed by the raw byte.
    pub fn decode_u8(&mut self) -> (res: Result<u8, Error>)
        requires
            old(self).wf(),
        ensures
            final(self).wf(),
            final(self).same_stream(*old(self)),
            final(self).reader.spec_pos() >= old(self).reader.spec_pos(),
            match u8_parse(old(self).rem()) {
                Some(vk) => res == Ok::<u8, Error>(vk.0) && final(self).reader.spec_pos() == old(
                    self,
                ).reader.spec_pos() + vk.1,
                None => if old(self).rem().len() == 0 {
                    res == Err::<u8, Error>(Error::Truncated)
                } else if kind_of(old(self).rem()[0]) != Kind::Byte {
                    res == Err::<u8, Error>(
                        Error::Expected {
                            expected: Kind::Byte,
                            actual: Tag { repr: old(self).rem()[0] },
                            pos: old(self).reader.spec_pos(),
                        },
                    )
                } else {
                    res == Err::<u8, Error>(Error::Truncated)
                },
            },
    {
        let pos = self.reader.pos();
        let b = match self.reader.read_byte() {
            Ok(b) => b,
            Err(e) => {
                return Err(e);
            },
        };
        let tag = Tag::from_byte(b);
        if !matches!(tag.kind(), Kind::Byte) {
            return Err(Error::Expected { expected: Kind::Byte, actual: tag, pos });
        }
        match tag.data() {
            Some(d) => Ok(d),
            None => self.reader.read_byte(),
        }
    }

    /// Read a `bool`: exactly `Tag(Byte, 0)` or `Tag(Byte, 1)`.
    pub fn decode_bool(&mut self) -> (res: Result<bool, Error>)
        requires
            old(self).wf(),
        ensures
            final(self).wf(),
            final(self).same_stream(*old(self)),
            final(self).reader.spec_pos() >= old(self).reader.spec_pos(),
            match bool_parse(old(self).rem()) {
                Some(vk) => res == Ok::<bool, Error>(vk.0) && final(self).reader.spec_pos() == old(
                    self,
                ).reader.spec_pos() + 1,
                None => if old(self).rem().len() == 0 {
                    res == Err::<bool, Error>(Error::Truncated) && final(self).reader.spec_pos()
                        == old(self).reader.spec_pos()
                } else {
                    res == Err::<bool, Error>(
                        Error::BadBoolean {
                            actual: Tag { repr: old(self).rem()[0] },
                            pos: old(self).reader.spec_pos(),
                        },
                    ) && final(self).reader.spec_pos() == old(self).reader.spec_pos() + 1
                },
            },
    {
        let pos = self.reader.pos();
        let b = match self.reader.read_byte() {
            Ok(b) => b,
            Err(e) => {
                return Err(e);
            },
        };
        let f = Tag::new(Kind::Byte, 0);
        let t = Tag::new(Kind::Byte, 1);
        if b == f.byte() {
            Ok(false)
        } else if b == t.byte() {
            Ok(true)
        } else {
            Err(Error::BadBoolean { actual: Tag::from_byte(b), pos })
        }
    }

    /// Read a `u16` under the integer policy; values beyond `u16` are an
    /// overflow.
    pub fn decode_u16(&mut self) -> (res: Result<u16, Error>)
        requires
            old(self).wf(),
        ensures
            final(self).wf(),
            final(self).same_stream(*old(self)),
            final(self).reader.spec_pos() >= old(self).reader.spec_pos(),
            match uint_parse(old(self).rem(), 2, old(self).ipol) {
                Some(vk) => if vk.0 <= u16::MAX {
                    res == Ok::<u16, Error>(vk.0 as u16) && final(self).reader.spec_pos() == old(
                        self,
                    ).reader.spec_pos() + vk.1
                } else {
                    res == Err::<u16, Error>(Error::Overflow)
                },
                None => res is Err,
            },
            (old(self).ipol == IntEncoding::Varint && old(self).rem().len() > 0 && kind_of(
                old(self).rem()[0],
            ) == Kind::Continuation && data_of(old(self).rem()[0]) == MARK_NONE
                && crate::continuation::cont_parse(old(self).rem().skip(1)) is None) ==> (res
                matches Err(e) && e == (if cont_truncated(old(self).rem().skip(1)) {
                Error::Truncated
            } else {
                Error::Overflow
            })),
    {
        let ip = self.ipol;
        let v = match self.decode_uint(2, ip) {
            Ok(v) => v,
            Err(e) => {
                return Err(e);
            },
        };
        if v > u16::MAX as u128 {
            Err(Error::Overflow)
        } else {
            Ok(v as u16)
        }
    }

    /// Read a `u32` under the integer policy; values beyond `u32` are an
    /// overflow.
    pub fn decode_u32(&mut self) -> (res: Result<u32, Error>)
        requires
            old(self).wf(),
        ensures
            final(self).wf(),
            final(self).same_stream(*old(self)),
            final(self).reader.spec_pos() >= old(self).reader.spec_pos(),
            match uint_parse(old(self).rem(), 4, old(self).ipol) {
                Some(vk) => if vk.0 <= u32::MAX {
                    res == Ok::<u32, Error>(vk.0 as u32) && final(self).reader.spec_pos() == old(
                        self,
                    ).reader.spec_pos() + vk.1
                } else {
                    res == Err::<u32, Error>(Error::Overflow)
                },
                None => res is Err,
            },
            (old(self).ipol == IntEncoding::Varint && old(self).rem().len() > 0 && kind_of(
                old(self).rem()[0],
            ) == Kind::Continuation && data_of(old(self).rem()[0]) == MARK_NONE
                && crate::continuation::cont_parse(old(self).rem().skip(1)) is None) ==> (res
                matches Err(e) && e == (if cont_truncated(old(self).rem().skip(1)) {
                Error::Truncated
            } else {
                Error::Overflow
            })),
    {
        let ip = self.ipol;
        let v = match self.decode_uint(4, ip) {
            Ok(v) => v,
            Err(e) => {
                return Err(e);
            },
        };
        if v > u32::MAX as u128 {
            Err(Error::Overflow)
        } else {
            Ok(v as u32)
        }
    }

    /// Read a `u64` under the integer policy; values beyond `u64` are an
    /// overflow.
    pub fn decode_u64(&mut self) -> (res: Result<u64, Error>)
        requires
            old(self).wf(),
        ensures
            final(self).wf(),
            final(self).same_stream(*old(self)),
            final(self).reader.spec_pos() >= old(self).reader.spec_pos(),
            match uint_parse(old(self).rem(), 8, old(self).ipol) {
                Some(vk) => if vk.0 <= u64::MAX {
                    res == Ok::<u64, Error>(vk.0 as u64) && final(self).reader.spec_pos() == old(
                        self,
                    ).reader.spec_pos() + vk.1
                } else {
                    res == Err::<u64, Error>(Error::Overflow)
                },
                None => res is Err,
            },
            (old(self).ipol == IntEncoding::Varint && old(self).rem().len() > 0 && kind_of(
                old(self).rem()[0],
            ) == Kind::Continuation && data_of(old(self).rem()[0]) == MARK_NONE
                && crate::continuation::cont_parse(old(self).rem().skip(1)) is None) ==> (res
                matches Err(e) && e == (if cont_truncated(old(self).rem().skip(1)) {
                Error::Truncated
            } else {
                Error::Overflow
            })),
    {
        let ip = self.ipol;
        let v = match self.decode_uint(8, ip) {
            Ok(v) => v,
            Err(e) => {
                return Err(e);
            },
        };
        if v > u64::MAX as u128 {
            Err(Error::Overflow)
        } else {
            Ok(v as u64)
        }
    }

    /// Read a `u128` under the integer policy.
    pub fn decode_u128(&mut self) -> (res: Result<u128, Error>)
        requires
            old(self).wf(),
        ensures
            final(self).wf(),
            final(self).same_stream(*old(self)),
            final(self).reader.spec_pos() >= old(self).reader.spec_pos(),
            match uint_parse(old(self).rem(), 16, old(self).ipol) {
                Some(vk) => if vk.0 <= u128::MAX {
                    res == Ok::<u128, Error>(vk.0 as u128) && final(self).reader.spec_pos() == old(
                        self,
                    ).reader.spec_pos() + vk.1
                } else {
                    res == Err::<u128, Error>(Error::Overflow)
                },
                None => res is Err,
            },
            (old(self).ipol == IntEncoding::Varint && old(self).rem().len() > 0 && kind_of(
                old(self).rem()[0],
            ) == Kind::Continuation && data_of(old(self).rem()[0]) == MARK_NONE
                && crate::continuation::cont_parse(old(self).rem().skip(1)) is None) ==> (res
                matches Err(e) && e == (if cont_truncated(old(self).rem().skip(1)) {
                Error::Truncated
            } else {
                Error::Overflow
            })),
    {
        let ip = self.ipol;
        self.decode_uint(16, ip)
    }

    /// Read a `usize` length-or-count value under the length policy.
    pub fn decode_usize(&mut self) -> (res: Result<usize, Error>)
        requires
            old(self).wf(),
        ensures
            final(self).wf(),
            final(self).same_stream(*old(self)),
            final(self).reader.spec_pos() >= old(self).reader.spec_pos(),
            match uint_parse(old(self).rem(), 8, old(self).lpol) {
                Some(vk) => if vk.0 <= usize::MAX {
                    res == Ok::<usize, Error>(vk.0 as usize) && final(self).reader.spec_pos()
                        == old(self).reader.spec_pos() + vk.1
                } else {
                    res == Err::<usize, Error>(Error::Overflow)
                },
                None => res is Err,
            },
            (old(self).lpol == IntEncoding::Varint && old(self).rem().len() > 0 && kind_of(
                old(self).rem()[0],
            ) == Kind::Continuation && data_of(old(self).rem()[0]) == MARK_NONE
                && crate::continuation::cont_parse(old(self).rem().skip(1)) is None) ==> (res
                matches Err(e) && e == (if cont_truncated(old(self).rem().skip(1)) {
                Error::Truncated
            } else {
                Error::Overflow
            })),
    {
        let lp = self.lpol;
        let v = match self.decode_uint(8, lp) {
            Ok(v) => v,
            Err(e) => {
                return Err(e);
            },
        };
        if v > usize::MAX as u128 {
            Err(Error::Overflow)
        } else {
            Ok(v as usize)
        }
    }

    /// Read an `isize` through the `usize` length path, reinterpreted
    /// two's complement.
    pub fn decode_isize(&mut self) -> (res: Result<isize, Error>)
        requires
            old(self).wf(),
        ensures
            final(self).wf(),
            final(self).same_stream(*old(self)),
            final(self).reader.spec_pos() >= old(self).reader.spec_pos(),
            match uint_parse(old(self).rem(), 8, old(self).lpol) {
                Some(vk) => if vk.0 <= usize::MAX {
                    res matches Ok(v) && crate::en::twos(v as int, usize::MAX + 1) == vk.0
                        && final(self).reader.spec_pos() == old(self).reader.spec_pos() + vk.1
                } else {
                    res == Err::<isize, Error>(Error::Overflow)
                },
                None => res is Err,
            },
    {
        let u = match self.decode_usize() {
            Ok(v) => v,
            Err(e) => {
                return Err(e);
            },
        };
        if u <= (isize::MAX as usize) {
            Ok(u as isize)
        } else {
            Ok(-((usize::MAX - u) as isize) - 1)
        }
    }

    /// Read an `i8` through the `u8` path, reinterpreted two's complement.
    pub fn decode_i8(&mut self) -> (res: Result<i8, Error>)
        requires
            old(self).wf(),
        ensures
            final(self).wf(),
            final(self).same_stream(*old(self)),
            final(self).reader.spec_pos() >= old(self).reader.spec_pos(),
            match u8_parse(old(self).rem()) {
                Some(vk) => res matches Ok(v) && crate::en::twos(v as int, 0x100) == vk.0
                    && final(self).reader.spec_pos() == old(self).reader.spec_pos() + vk.1,
                None => res is Err,
            },
    {
        let v = match self.decode_u8() {
            Ok(v) => v,
            Err(e) => {
                return Err(e);
            },
        };
        if v <= 127 {
            Ok(v as i8)
        } else {
            Ok(-((255 - v) as i8) - 1)
        }
    }

    /// Read an `i16`: zigzag under the varint policy, two's complement
    /// under fixed-width.
    pub fn decode_i16(&mut self) -> (res: Result<i16, Error>)
        requires
            old(self).wf(),
        ensures
            final(self).wf(),
            final(self).same_stream(*old(self)),
            final(self).reader.spec_pos() >= old(self).reader.spec_pos(),
            match uint_parse(old(self).rem(), 2, old(self).ipol) {
                Some(vk) => if vk.0 <= u16::MAX {
                    res matches Ok(v) && crate::en::sint_wire(v as int, 0x10000, old(self).ipol)
                        == vk.0 && final(self).reader.spec_pos() == old(self).reader.spec_pos()
                        + vk.1
                } else {
                    res == Err::<i16, Error>(Error::Overflow)
                },
                None => res is Err,
            },
    {
        let ip = self.ipol;
        let v = match self.decode_uint(2, ip) {
            Ok(v) => v,
            Err(e) => {
                return Err(e);
            },
        };
        if v > u16::MAX as u128 {
            return Err(Error::Overflow);
        }
        let u: u16 = v as u16;
        match ip {
            IntEncoding::Varint => Ok(zigzag::decode_i16(u)),
            IntEncoding::Fixed(_) => if u <= 0x7fff {
                Ok(u as i16)
            } else {
                Ok(-((u16::MAX - u) as i16) - 1)
            },
        }
    }

    /// Read an `i32`: zigzag under the varint policy, two's complement
    /// under fixed-width.
    pub fn decode_i32(&mut self) -> (res: Result<i32, Error>)
        requires
            old(self).wf(),
        ensures
            final(self).wf(),
            final(self).same_stream(*old(self)),
            final(self).reader.spec_pos() >= old(self).reader.spec_pos(),
            match uint_parse(old(self).rem(), 4, old(self).ipol) {
                Some(vk) => if vk.0 <= u32::MAX {
                    res matches Ok(v) && crate::en::sint_wire(
                        v as int,
                        0x100000000,
                        old(self).ipol,
                    ) == vk.0 && final(self).reader.spec_pos() == old(self).reader.spec_pos()
                        + vk.1
                } else {
                    res == Err::<i32, Error>(Error::Overflow)
                },
                None => res is Err,
            },
    {
        let ip = self.ipol;
        let v = match self.decode_uint(4, ip) {
            Ok(v) => v,
            Err(e) => {
                return Err(e);
            },
        };
        if v > u32::MAX as u128 {
            return Err(Error::Overflow);
        }
        let u: u32 = v as u32;
        match ip {
            IntEncoding::Varint => Ok(zigzag::decode_i32(u)),
            IntEncoding::Fixed(_) => if u <= 0x7fffffff {
                Ok(u as i32)
            } else {
                Ok(-((u32::MAX - u) as i32) - 1)
            },
        }
    }

    /// Read an `i64`: zigzag under the varint policy, two's complement
    /// under fixed-width.
    pub fn decode_i64(&mut self) -> (res: Result<i64, Error>)
        requires
            old(self).wf(),
        ensures
            final(self).wf(),
            final(self).same_stream(*old(self)),
            final(self).reader.spec_pos() >= old(self).reader.spec_pos(),
            match uint_parse(old(self).rem(), 8, old(self).ipol) {
                Some(vk) => if vk.0 <= u64::MAX {
                    res matches Ok(v) && crate::en::sint_wire(
                        v as int,
                        0x10000000000000000,
                        old(self).ipol,
                    ) == vk.0 && final(self).reader.spec_pos() == old(self).reader.spec_pos()
                        + vk.1
                } else {
                    res == Err::<i64, Error>(Error::Overflow)
                },
                None => res is Err,
            },
    {
        let ip = self.ipol;
        let v = match self.decode_uint(8, ip) {
            Ok(v) => v,
            Err(e) => {
                return Err(e);
            },
        };
        if v > u64::MAX as u128 {
            return Err(Error::Overflow);
        }
        let u: u64 = v as u64;
        match ip {
            IntEncoding::Varint => Ok(zigzag::decode_i64(u)),
            IntEncoding::Fixed(_) => if u <= 0x7fffffffffffffff {
                Ok(u as i64)
            } else {
                Ok(-((u64::MAX - u) as i64) - 1)
            },
        }
    }

    /// Read an `i128`: zigzag under the varint policy, two's complement
    /// under fixed-width.
    pub fn decode_i128(&mut self) -> (res: Result<i128, Error>)
        requires
            old(self).wf(),
        ensures
            final(self).wf(),
            final(self).same_stream(*old(self)),
            final(self).reader.spec_pos() >= old(self).reader.spec_pos(),
            match uint_parse(old(self).rem(), 16, old(self).ipol) {
                Some(vk) => if vk.0 <= u128::MAX {
                    res matches Ok(v) && crate::en::sint_wire(
                        v as int,
                        0x100000000000000000000000000000000int,
                        old(self).ipol,
                    ) == vk.0 && final(self).reader.spec_pos() == old(self).reader.spec_pos()
                        + vk.1
                } else {
                    res == Err::<i128, Error>(Error::Overflow)
                },
                None => res is Err,
            },
    {
        let ip = self.ipol;
        let u = match self.decode_uint(16, ip) {
            Ok(v) => v,
            Err(e) => {
                return Err(e);
            },
        };
        match ip {
            IntEncoding::Varint => Ok(zigzag::decode_i128(u)),
            IntEncoding::Fixed(_) => if u <= 0x7fffffffffffffffffffffffffffffff {
                Ok(u as i128)
            } else {
                Ok(-((u128::MAX - u) as i128) - 1)
            },
        }
    }

    /// Read a `char`: a `u32` scalar value; numbers that are no scalar
    /// value are a `BadCharacter` error.
    pub fn decode_char(&mut self) -> (res: Result<char, Error>)
        requires
            old(self).wf(),
        ensures
            final(self).wf(),
            final(self).same_stream(*old(self)),
            final(self).reader.spec_pos() >= old(self).reader.spec_pos(),
            match uint_parse(old(self).rem(), 4, old(self).ipol) {
                Some(vk) => if vk.0 <= u32::MAX && is_unicode_scalar(vk.0) {
                    res matches Ok(c) && ((c as u32) as nat) == vk.0
                        && final(self).reader.spec_pos() == old(self).reader.spec_pos() + vk.1
                } else if vk.0 <= u32::MAX {
                    res == Err::<char, Error>(Error::BadCharacter { value: vk.0 as u32 })
                } else {
                    res == Err::<char, Error>(Error::Overflow)
                },
                None => res is Err,
            },
    {
        let num = match self.decode_u32() {
            Ok(v) => v,
            Err(e) => {
                return Err(e);
            },
        };
        match char::from_u32(num) {
            Some(c) => Ok(c),
            None => Err(Error::BadCharacter { value: num }),
        }
    }

    /// Read a byte run: a `Prefix` tag, its length, then the bytes
    /// themselves, borrowed from the backing slice.
    pub fn decode_bytes(&mut self) -> (res: Result<&'de [u8], Error>)
        requires
            old(self).wf(),
        ensures
            final(self).wf(),
            final(self).same_stream(*old(self)),
            final(self).reader.spec_pos() >= old(self).reader.spec_pos(),
            match bytes_parse(old(self).rem(), old(self).lpol) {
                Some(vk) => res matches Ok(b) && b@ == vk.0 && final(self).reader.spec_pos()
                    == old(self).reader.spec_pos() + vk.1,
                None => res is Err,
            },
            old(self).rem().len() > 0 && kind_of(old(self).rem()[0]) != Kind::Prefix ==> res
                == Err::<&'de [u8], Error>(
                Error::Expected {
                    expected: Kind::Prefix,
                    actual: Tag { repr: old(self).rem()[0] },
                    pos: old(self).reader.spec_pos(),
                },
            ),
    {
        let pos = self.reader.pos();
        let len = match self.decode_prefix(pos) {
            Ok(l) => l,
            Err(e) => {
                return Err(e);
            },
        };
        proof {
            assert(self.rem() =~= old(self).rem().skip(
                self.reader.spec_pos() - old(self).reader.spec_pos(),
            ));
        }
        match self.reader.read_bytes(len) {
            Ok(b) => {
                proof {
                    let hk = header_parse(old(self).rem(), Kind::Prefix, old(self).lpol).unwrap();
                    assert(old(self).rem().skip(hk.1 as int).take(hk.0 as int) =~= b@);
                }
                Ok(b)
            },
            Err(e) => Err(e),
        }
    }

    /// Read a string: a byte run that must hold valid UTF-8, borrowed from
    /// the backing slice.
    pub fn decode_string(&mut self) -> (res: Result<&'de str, Error>)
        requires
            old(self).wf(),
        ensures
            final(self).wf(),
            final(self).same_stream(*old(self)),
            final(self).reader.spec_pos() >= old(self).reader.spec_pos(),
            match bytes_parse(old(self).rem(), old(self).lpol) {
                Some(vk) => if vstd::utf8::valid_utf8(vk.0) {
                    res matches Ok(st) && st.spec_bytes() == vk.0 && final(self).reader.spec_pos()
                        == old(self).reader.spec_pos() + vk.1
                } else {
                    res == Err::<&'de str, Error>(Error::BadUtf8)
                },
                None => res is Err,
            },
    {
        let b = match self.decode_bytes() {
            Ok(b) => b,
            Err(e) => {
                return Err(e);
            },
        };
        match bytes_to_str(b) {
            Some(st) => Ok(st),
            None => Err(Error::BadUtf8),
        }
    }

    /// Read a `Prefix` header and return the length it carries; `pos` is
    /// the position reported when another kind stands there.
    pub fn decode_prefix(&mut self, pos: usize) -> (res: Result<usize, Error>)
        requires
            old(self).wf(),
        ensures
            final(self).wf(),
            final(self).same_stream(*old(self)),
            final(self).reader.spec_pos() >= old(self).reader.spec_pos(),
            match header_parse(old(self).rem(), Kind::Prefix, old(self).lpol) {
                Some(vk) => res == Ok::<usize, Error>(vk.0 as usize) && final(self).reader.spec_pos() == old(self).reader.spec_pos() + vk.1,
                None => res is Err,
            },
            old(self).rem().len() == 0 ==> res == Err::<usize, Error>(Error::Truncated),
            old(self).rem().len() > 0 && kind_of(old(self).rem()[0]) != Kind::Prefix ==> res
                == Err::<usize, Error>(
                Error::Expected {
                    expected: Kind::Prefix,
                    actual: Tag { repr: old(self).rem()[0] },
                    pos: pos,
                },
            ),
    {
        let b = match self.reader.read_byte() {
            Ok(b) => b,
            Err(e) => {
                return Err(e);
            },
        };
        let tag = Tag::from_byte(b);
        if !matches!(tag.kind(), Kind::Prefix) {
            return Err(Error::Expected { expected: Kind::Prefix, actual: tag, pos });
        }
        match tag.data() {
            Some(d) => Ok(d as usize),
            None => self.decode_len(),
        }
    }

    /// Read a `Sequence` header and return the element count it carries.
    pub fn decode_sequence_len(&mut self) -> (res: Result<usize, Error>)
        requires
            old(self).wf(),
        ensures
            final(self).wf(),
            final(self).same_stream(*old(self)),
            final(self).reader.spec_pos() >= old(self).reader.spec_pos(),
            match header_parse(old(self).rem(), Kind::Sequence, old(self).lpol) {
                Some(vk) => res == Ok::<usize, Error>(vk.0 as usize) && final(self).reader.spec_pos() == old(self).reader.spec_pos() + vk.1,
                None => res is Err,
            },
            old(self).rem().len() == 0 ==> res == Err::<usize, Error>(Error::Truncated),
            old(self).rem().len() > 0 && kind_of(old(self).rem()[0]) != Kind::Sequence ==> res
                == Err::<usize, Error>(
                Error::Expected {
                    expected: Kind::Sequence,
                    actual: Tag { repr: old(self).rem()[0] },
                    pos: old(self).reader.spec_pos(),
                },
            ),
    {
        let pos = self.reader.pos();
        let b = match self.reader.read_byte() {
            Ok(b) => b,
            Err(e) => {
                return Err(e);
            },
        };
        let tag = Tag::from_byte(b);
        if !matches!(tag.kind(), Kind::Sequence) {
            return Err(Error::Expected { expected: Kind::Sequence, actual: tag, pos });
        }
        match tag.data() {
            Some(d) => Ok(d as usize),
            None => self.decode_len(),
        }
    }

    /// Read a sequence header and wrap this decoder with the element count
    /// left to read.
    pub fn shared_decode_sequence(self) -> (res: Result<RemainingWireDecoder<'de>, Error>)
        requires
            self.wf(),
        ensures
            match header_parse(self.rem(), Kind::Sequence, self.lpol) {
                Some(vk) => res matches Ok(r) && r.decoder.wf() && r.decoder.same_stream(self)
                    && r.decoder.reader.spec_pos() == self.reader.spec_pos() + vk.1
                    && r.remaining == vk.0,
                None => res is Err,
            },
            self.rem().len() == 0 ==> (res matches Err(e) && e matches Error::Truncated),
            self.rem().len() > 0 && kind_of(self.rem()[0]) != Kind::Sequence ==> (res matches Err(
                e,
            ) && e == (Error::Expected {
                expected: Kind::Sequence,
                actual: Tag { repr: self.rem()[0] },
                pos: self.reader.spec_pos(),
            })),
    {
        let mut d = self;
        let n = match d.decode_sequence_len() {
            Ok(n) => n,
            Err(e) => {
                return Err(e);
            },
        };
        Ok(RemainingWireDecoder { remaining: n, decoder: d })
    }

    /// Read a pair-sequence header (a map, struct or tuple): the raw count
    /// halves into the number of pairs left to read.
    pub fn shared_decode_pair_sequence(self) -> (res: Result<RemainingWireDecoder<'de>, Error>)
        requires
            self.wf(),
        ensures
            match header_parse(self.rem(), Kind::Sequence, self.lpol) {
                Some(vk) => res matches Ok(r) && r.decoder.wf() && r.decoder.same_stream(self)
                    && r.decoder.reader.spec_pos() == self.reader.spec_pos() + vk.1
                    && r.remaining == vk.0 / 2,
                None => res is Err,
            },
            self.rem().len() == 0 ==> (res matches Err(e) && e matches Error::Truncated),
            self.rem().len() > 0 && kind_of(self.rem()[0]) != Kind::Sequence ==> (res matches Err(
                e,
            ) && e == (Error::Expected {
                expected: Kind::Sequence,
                actual: Tag { repr: self.rem()[0] },
                pos: self.reader.spec_pos(),
            })),
    {
        let mut d = self;
        let n = match d.decode_sequence_len() {
            Ok(n) => n,
            Err(e) => {
                return Err(e);
            },
        };
        Ok(RemainingWireDecoder { remaining: n / 2, decoder: d })
    }

    /// Read a sequence of values.
    pub fn decode_sequence(self) -> (res: Result<RemainingWireDecoder<'de>, Error>)
        requires
            self.wf(),
        ensures
            match header_parse(self.rem(), Kind::Sequence, self.lpol) {
                Some(vk) => res matches Ok(r) && r.decoder.wf() && r.decoder.same_stream(self)
                    && r.decoder.reader.spec_pos() == self.reader.spec_pos() + vk.1
                    && r.remaining == vk.0,
                None => res is Err,
            },
            self.rem().len() == 0 ==> (res matches Err(e) && e matches Error::Truncated),
            self.rem().len() > 0 && kind_of(self.rem()[0]) != Kind::Sequence ==> (res matches Err(
                e,
            ) && e == (Error::Expected {
                expected: Kind::Sequence,
                actual: Tag { repr: self.rem()[0] },
                pos: self.reader.spec_pos(),
            })),
    {
        self.shared_decode_sequence()
    }

    /// Read a map: a pair sequence of alternating keys and values.
    pub fn decode_map(self) -> (res: Result<RemainingWireDecoder<'de>, Error>)
        requires
            self.wf(),
        ensures
            match header_parse(self.rem(), Kind::Sequence, self.lpol) {
                Some(vk) => res matches Ok(r) && r.decoder.wf() && r.decoder.same_stream(self)
                    && r.decoder.reader.spec_pos() == self.reader.spec_pos() + vk.1
                    && r.remaining == vk.0 / 2,
                None => res is Err,
            },
            self.rem().len() == 0 ==> (res matches Err(e) && e matches Error::Truncated),
            self.rem().len() > 0 && kind_of(self.rem()[0]) != Kind::Sequence ==> (res matches Err(
                e,
            ) && e == (Error::Expected {
                expected: Kind::Sequence,
                actual: Tag { repr: self.rem()[0] },
                pos: self.reader.spec_pos(),
            })),
    {
        self.shared_decode_pair_sequence()
    }

    /// Read a struct: encoded exactly like a map of its fields.
    pub fn decode_struct(self, _fields: usize) -> (res: Result<RemainingWireDecoder<'de>, Error>)
        requires
            self.wf(),
        ensures
            match header_parse(self.rem(), Kind::Sequence, self.lpol) {
                Some(vk) => res matches Ok(r) && r.decoder.wf() && r.decoder.same_stream(self)
                    && r.decoder.reader.spec_pos() == self.reader.spec_pos() + vk.1
                    && r.remaining == vk.0 / 2,
                None => res is Err,
            },
            self.rem().len() == 0 ==> (res matches Err(e) && e matches Error::Truncated),
            self.rem().len() > 0 && kind_of(self.rem()[0]) != Kind::Sequence ==> (res matches Err(
                e,
            ) && e == (Error::Expected {
                expected: Kind::Sequence,
                actual: Tag { repr: self.rem()[0] },
                pos: self.reader.spec_pos(),
            })),
    {
        self.shared_decode_pair_sequence()
    }

    /// Read a tuple: encoded exactly like a map of its fields.
    pub fn decode_tuple(self, _fields: usize) -> (res: Result<RemainingWireDecoder<'de>, Error>)
        requires
            self.wf(),
        ensures
            match header_parse(self.rem(), Kind::Sequence, self.lpol) {
                Some(vk) => res matches Ok(r) && r.decoder.wf() && r.decoder.same_stream(self)
                    && r.decoder.reader.spec_pos() == self.reader.spec_pos() + vk.1
                    && r.remaining == vk.0 / 2,
                None => res is Err,
            },
            self.rem().len() == 0 ==> (res matches Err(e) && e matches Error::Truncated),
            self.rem().len() > 0 && kind_of(self.rem()[0]) != Kind::Sequence ==> (res matches Err(
                e,
            ) && e == (Error::Expected {
                expected: Kind::Sequence,
                actual: Tag { repr: self.rem()[0] },
                pos: self.reader.spec_pos(),
            })),
    {
        self.shared_decode_pair_sequence()
    }

    /// Read an option marker: `Ok(false)` on the absent marker, `Ok(true)`
    /// on the present marker — the value follows — and an error on any
    /// other tag.
    pub fn decode_option(&mut self) -> (res: Result<bool, Error>)
        requires
            old(self).wf(),
        ensures
            final(self).wf(),
            final(self).same_stream(*old(self)),
            final(self).reader.spec_pos() >= old(self).reader.spec_pos(),
            old(self).rem().len() == 0 ==> (res == Err::<bool, Error>(Error::Truncated) && final(self).reader.spec_pos() == old(self).reader.spec_pos()),
            old(self).rem().len() > 0 ==> {
                if old(self).rem()[0] == tag_byte(Kind::Sequence, 0) {
                    res == Ok::<bool, Error>(false) && final(self).reader.spec_pos() == old(
                        self,
                    ).reader.spec_pos() + 1
                } else if old(self).rem()[0] == tag_byte(Kind::Sequence, 1) {
                    res == Ok::<bool, Error>(true) && final(self).reader.spec_pos() == old(
                        self,
                    ).reader.spec_pos() + 1
                } else {
                    res == Err::<bool, Error>(
                        Error::ExpectedOption {
                            tag: Tag { repr: old(self).rem()[0] },
                            pos: old(self).reader.spec_pos(),
                        },
                    ) && final(self).reader.spec_pos() == old(self).reader.spec_pos() + 1
                }
            },
    {
        let pos = self.reader.pos();
        let b = match self.reader.read_byte() {
            Ok(b) => b,
            Err(e) => {
                return Err(e);
            },
        };
        let none_tag = Tag::new(Kind::Sequence, 0);
        let some_tag = Tag::new(Kind::Sequence, 1);
        if b == none_tag.byte() {
            Ok(false)
        } else if b == some_tag.byte() {
            Ok(true)
        } else {
            Err(Error::ExpectedOption { tag: Tag::from_byte(b), pos })
        }
    }

    /// Read a variant marker: exactly a two-element sequence tag. The
    /// discriminant and the payload follow.
    pub fn decode_variant(&mut self) -> (res: Result<(), Error>)
        requires
            old(self).wf(),
        ensures
            final(self).wf(),
            final(self).same_stream(*old(self)),
            final(self).reader.spec_pos() >= old(self).reader.spec_pos(),
            old(self).rem().len() == 0 ==> res == Err::<(), Error>(Error::Truncated),
            old(self).rem().len() > 0 ==> {
                if old(self).rem()[0] == tag_byte(Kind::Sequence, 2) {
                    res == Ok::<(), Error>(()) && final(self).reader.spec_pos() == old(
                        self,
                    ).reader.spec_pos() + 1
                } else {
                    res == Err::<(), Error>(
                        Error::Expected {
                            expected: Kind::Sequence,
                            actual: Tag { repr: old(self).rem()[0] },
                            pos: old(self).reader.spec_pos(),
                        },
                    )
                }
            },
    {
        let pos = self.reader.pos();
        let b = match self.reader.read_byte() {
            Ok(b) => b,
            Err(e) => {
                return Err(e);
            },
        };
        let variant_tag = Tag::new(Kind::Sequence, 2);
        if b == variant_tag.byte() {
            Ok(())
        } else {
            Err(Error::Expected {
                expected: Kind::Sequence,
                actual: Tag::from_byte(b),
                pos,
            })
        }
    }

    /// Read a unit value by skipping whatever one value stands there.
    pub fn decode_unit(&mut self) -> (res: Result<(), Error>)
        requires
            old(self).wf(),
        ensures
            final(self).wf(),
            final(self).same_stream(*old(self)),
            final(self).reader.spec_pos() >= old(self).reader.spec_pos(),
            match skip_len(old(self).rem(), old(self).lpol) {
                Some(k) => res == Ok::<(), Error>(()) && final(self).reader.spec_pos() == old(
                    self,
                ).reader.spec_pos() + k,
                None => res is Err,
            },
    {
        self.skip_any()
    }

    /// Read a unit struct by skipping whatever one value stands there.
    pub fn decode_unit_struct(&mut self) -> (res: Result<(), Error>)
        requires
            old(self).wf(),
        ensures
            final(self).wf(),
            final(self).same_stream(*old(self)),
            final(self).reader.spec_pos() >= old(self).reader.spec_pos(),
            match skip_len(old(self).rem(), old(self).lpol) {
                Some(k) => res == Ok::<(), Error>(()) && final(self).reader.spec_pos() == old(
                    self,
                ).reader.spec_pos() + k,
                None => res is Err,
            },
    {
        self.skip_any()
    }

    /// Skip the second element of a pair, reporting that it was skipped.
    pub fn skip_second(&mut self) -> (res: Result<bool, Error>)
        requires
            old(self).wf(),
        ensures
            final(self).wf(),
            final(self).same_stream(*old(self)),
            final(self).reader.spec_pos() >= old(self).reader.spec_pos(),
            match skip_len(old(self).rem(), old(self).lpol) {
                Some(k) => res == Ok::<bool, Error>(true) && final(self).reader.spec_pos() == old(
                    self,
                ).reader.spec_pos() + k,
                None => res is Err,
            },
    {
        match self.skip_any() {
            Ok(_) => Ok(true),
            Err(e) => Err(e),
        }
    }

    /// Read a pack: a `Prefix` header, then a bounded sub-decoder over the
    /// packed bytes. This decoder itself moves past the packed region, so
    /// it stands immediately after it however much the sub-decoder reads.
    pub fn decode_pack(&mut self) -> (res: Result<WireDecoder<'de>, Error>)
        requires
            old(self).wf(),
        ensures
            final(self).wf(),
            final(self).same_stream(*old(self)),
            final(self).reader.spec_pos() >= old(self).reader.spec_pos(),
            match header_parse(old(self).rem(), Kind::Prefix, old(self).lpol) {
                Some(vk) => if vk.1 + vk.0 <= old(self).rem().len() {
                    res matches Ok(sub) && sub.wf() && sub.ipol == old(self).ipol && sub.lpol
                        == old(self).lpol && sub.rem() == old(self).rem().skip(vk.1 as int).take(
                        vk.0 as int,
                    ) && final(self).reader.spec_pos() == old(self).reader.spec_pos() + vk.1
                        + vk.0
                } else {
                    res == Err::<WireDecoder<'de>, Error>(Error::Truncated)
                },
                None => res is Err,
            },
    {
        let pos = self.reader.pos();
        let len = match self.decode_prefix(pos) {
            Ok(l) => l,
            Err(e) => {
                return Err(e);
            },
        };
        proof {
            assert(self.rem() =~= old(self).rem().skip(
                self.reader.spec_pos() - old(self).reader.spec_pos(),
            ));
        }
        match self.reader.limit(len) {
            Ok(sub) => Ok(WireDecoder { reader: sub, ipol: self.ipol, lpol: self.lpol }),
            Err(e) => Err(e),
        }
    }

    /// Read a fixed-size byte array: a `Prefix` run whose length must be
    /// exactly `N`, borrowed from the backing slice.
    pub fn decode_array<const N: usize>(&mut self) -> (res: Result<&'de [u8], Error>)
        requires
            old(self).wf(),
        ensures
            final(self).wf(),
            final(self).same_stream(*old(self)),
            final(self).reader.spec_pos() >= old(self).reader.spec_pos(),
            match header_parse(old(self).rem(), Kind::Prefix, old(self).lpol) {
                Some(vk) => if vk.0 == N {
                    if vk.1 + vk.0 <= old(self).rem().len() {
                        res matches Ok(b) && b@ == old(self).rem().skip(vk.1 as int).take(N as int)
                            && final(self).reader.spec_pos() == old(self).reader.spec_pos() + vk.1
                            + vk.0
                    } else {
                        res == Err::<&'de [u8], Error>(Error::Truncated)
                    }
                } else {
                    res == Err::<&'de [u8], Error>(
                        Error::BadLength {
                            actual: vk.0 as usize,
                            expected: N,
                            pos: old(self).reader.spec_pos(),
                        },
                    )
                },
                None => res is Err,
            },
    {
        let pos = self.reader.pos();
        let len = match self.decode_prefix(pos) {
            Ok(l) => l,
            Err(e) => {
                return Err(e);
            },
        };
        if len != N {
            return Err(Error::BadLength { actual: len, expected: N, pos });
        }
        proof {
            assert(self.rem() =~= old(self).rem().skip(
                self.reader.spec_pos() - old(self).reader.spec_pos(),
            ));
        }
        self.reader.read_bytes(N)
    }

    /// A pack sub-decoder needs no explicit close: its parent already
    /// stands past the packed region.
    pub fn finish(self) -> (res: Result<(), Error>)
        ensures
            res == Ok::<(), Error>(()),
    {
        Ok(())
    }

    /// Skip one value of any shape: read its tag and traverse the payload
    /// the tag's kind dictates, recursing through sequences.
    #[verifier::loop_isolation(false)]
    #[verifier::rlimit(60)]
    pub fn skip_any(&mut self) -> (res: Result<(), Error>)
        requires
            old(self).wf(),
        ensures
            final(self).wf(),
            final(self).same_stream(*old(self)),
            final(self).reader.spec_pos() >= old(self).reader.spec_pos(),
            match skip_len(old(self).rem(), old(self).lpol) {
                Some(k) => res == Ok::<(), Error>(()) && final(self).reader.spec_pos() == old(
                    self,
                ).reader.spec_pos() + k,
                None => res is Err,
            },
        decreases old(self).rem().len(),
    {
        let ghost orig = *old(self);
        let b = match self.reader.read_byte() {
            Ok(b) => b,
            Err(e) => {
                return Err(e);
            },
        };
        let tag = Tag::from_byte(b);
        match tag.kind() {
            Kind::Byte => {
                if tag.data().is_none() {
                    match self.reader.skip(1) {
                        Ok(_) => {},
                        Err(e) => {
                            return Err(e);
                        },
                    }
                }
                Ok(())
            },
            Kind::Prefix => {
                let len = match tag.data() {
                    Some(d) => d as usize,
                    None => match self.decode_len() {
                        Ok(l) => l,
                        Err(e) => {
                            return Err(e);
                        },
                    },
                };
                proof {
                    lemma_len_parse_bounds_here(orig.rem().skip(1), orig.lpol);
                    assert(self.rem() =~= orig.rem().skip(
                        self.reader.spec_pos() - orig.reader.spec_pos(),
                    ));
                }
                match self.reader.skip(len) {
                    Ok(_) => Ok(()),
                    Err(e) => Err(e),
                }
            },
            Kind::Sequence => {
                let count = match tag.data() {
                    Some(d) => d as usize,
                    None => match self.decode_len() {
                        Ok(l) => l,
                        Err(e) => {
                            return Err(e);
                        },
                    },
                };
                let ghost s0 = self.rem();
                let ghost p0 = self.reader.spec_pos();
                proof {
                    let hc = p0 - orig.reader.spec_pos();
                    let tail = orig.rem().skip(1);
                    lemma_len_parse_bounds_here(tail, orig.lpol);
                    assert(self.rem() =~= orig.reader.spec_data().subrange(
                        p0 as int,
                        orig.reader.spec_end() as int,
                    ));
                    assert(tail.skip(hc - 1) =~= s0);
                    if data_of(b) == MARK_NONE {
                        assert(crate::format::data_parse(data_of(b), tail, orig.lpol) == Some(
                            ((count as nat), (hc - 1) as nat),
                        ));
                    } else {
                        assert(tail.skip(0) =~= tail);
                        assert(crate::format::data_parse(data_of(b), tail, orig.lpol) == Some(
                            ((count as nat), 0nat),
                        ));
                    }
                    assert(match skip_n(s0, orig.lpol, count as nat) {
                        Some(m) => skip_len(orig.rem(), orig.lpol) == Some((hc + m) as nat),
                        None => skip_len(orig.rem(), orig.lpol) is None,
                    });
                }
                let mut i: usize = 0;
                while i < count
                    invariant
                        self.wf(),
                        self.same_stream(orig),
                        orig == *old(self),
                        i <= count,
                        orig.reader.spec_pos() < p0,
                        p0 <= self.reader.spec_pos(),
                        self.reader.spec_pos() - p0 <= s0.len(),
                        s0.len() == orig.reader.spec_end() - p0,
                        s0 == orig.reader.spec_data().subrange(
                            p0 as int,
                            orig.reader.spec_end() as int,
                        ),
                        self.rem() == s0.skip(self.reader.spec_pos() - p0),
                        match skip_n(s0, orig.lpol, count as nat) {
                            Some(m) => skip_n(self.rem(), orig.lpol, (count - i) as nat) == Some(
                                (m - (self.reader.spec_pos() - p0)) as nat,
                            ) && self.reader.spec_pos() - p0 <= m && skip_len(
                                orig.rem(),
                                orig.lpol,
                            ) == Some((p0 - orig.reader.spec_pos() + m) as nat),
                            None => skip_n(self.rem(), orig.lpol, (count - i) as nat) is None
                                && skip_len(orig.rem(), orig.lpol) is None,
                        },
                    decreases count - i,
                {
                    let ghost before = *self;
                    proof {
                        assert(before.rem().len() < orig.rem().len());
                    }
                    match self.skip_any() {
                        Ok(_) => {},
                        Err(e) => {
                            proof {
                                assert(skip_len(before.rem(), orig.lpol) is None);
                                assert(skip_n(before.rem(), orig.lpol, (count - i) as nat)
                                    is None);
                            }
                            return Err(e);
                        },
                    }
                    proof {
                        let k = skip_len(before.rem(), orig.lpol).unwrap();
                        lemma_skip_len_bounds(before.rem(), orig.lpol);
                        assert(self.rem() =~= before.rem().skip(k as int));
                        assert(self.rem() =~= s0.skip(self.reader.spec_pos() - p0));
                    }
                    i = i + 1;
                }
                proof {
                    if skip_n(s0, orig.lpol, count as nat) is None {
                        assert(skip_n(self.rem(), orig.lpol, 0) is None);
                        assert(false);
                    }
                }
                Ok(())
            },
            Kind::Continuation => {
                if tag.data().is_none() {
                    match continuation::decode(&mut self.reader) {
                        Ok(_) => Ok(()),
                        Err(e) => Err(e),
                    }
                } else {
                    Ok(())
                }
            },
        }
    }
}

/// See [`crate::format::lemma_len_parse_bounds`]; restated here so the
/// skipper's proofs can call it by a local name.
proof fn lemma_len_parse_bounds_here(s: Seq<u8>, lp: IntEncoding)
    ensures
        len_parse(s, lp) matches Some(vc) ==> 1 <= vc.1 <= s.len(),
{
    crate::format::lemma_len_parse_bounds(s, lp);
}

/// Relies on core::str::from_utf8: it succeeds exactly on valid UTF-8 and
/// represents exactly the input bytes.
#[verifier::external_body]
fn bytes_to_str<'a>(v: &'a [u8]) -> (r: Option<&'a str>)
    ensures
        r is Some <==> vstd::utf8::valid_utf8(v@),
        r matches Some(st) ==> st.spec_bytes() == v@,
{
    core::str::from_utf8(v).ok()
}

/// A decoder over the elements of a sequence, counting how many are left.
/// Each `decode_next` (or `decode_entry`, `decode_field`) hands the count
/// down by one while an element is left; the element itself is then read
/// through `decoder`.
pub struct RemainingWireDecoder<'de> {
    /// How many elements (or pairs) are left to read.
    pub remaining: usize,
    /// The decoder positioned at the next element.
    pub decoder: WireDecoder<'de>,
}

impl<'de> RemainingWireDecoder<'de> {
    /// Wrap `decoder` with `remaining` elements left to read.
    pub fn new(remaining: usize, decoder: WireDecoder<'de>) -> (r: RemainingWireDecoder<'de>)
        ensures
            r.remaining == remaining,
            r.decoder == decoder,
    {
        RemainingWireDecoder { remaining, decoder }
    }

    /// How many elements are left.
    pub fn size_hint(&self) -> (r: Option<usize>)
        ensures
            r == Some(self.remaining),
    {
        Some(self.remaining)
    }

    /// Whether an element is left; if so, the count goes down by one and
    /// the element is read through `decoder`.
    pub fn decode_next(&mut self) -> (r: bool)
        ensures
            final(self).decoder == old(self).decoder,
            old(self).remaining == 0 ==> !r && final(self).remaining == 0,
            old(self).remaining > 0 ==> r && final(self).remaining == old(self).remaining - 1,
    {
        if self.remaining == 0 {
            false
        } else {
            self.remaining = self.remaining - 1;
            true
        }
    }

    /// Whether a map entry is left; the key and value are then read
    /// through `decoder`.
    pub fn decode_entry(&mut self) -> (r: bool)
        ensures
            final(self).decoder == old(self).decoder,
            old(self).remaining == 0 ==> !r && final(self).remaining == 0,
            old(self).remaining > 0 ==> r && final(self).remaining == old(self).remaining - 1,
    {
        self.decode_next()
    }

    /// Whether a struct field is left; its key and value are then read
    /// through `decoder`.
    pub fn decode_field(&mut self) -> (r: bool)
        ensures
            final(self).decoder == old(self).decoder,
            old(self).remaining == 0 ==> !r && final(self).remaining == 0,
            old(self).remaining > 0 ==> r && final(self).remaining == old(self).remaining - 1,
    {
        self.decode_next()
    }
}

} // verus!
