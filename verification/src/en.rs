//! The wire encoder: every operation writes exactly one tag and the payload
//! the tag's kind dictates, so the result is traversable without a schema.

use vstd::prelude::*;
use vstd::string::StringSliceAdditionalSpecFns;
use crate::continuation;
use crate::format::enc_bool;
use crate::format::enc_bytes;
use crate::format::enc_header;
use crate::format::enc_none;
use crate::format::enc_some_marker;
use crate::format::enc_u8;
use crate::format::enc_uint;
use crate::format::enc_variant_marker;
use crate::integer;
use crate::integer::IntEncoding;
use crate::tag::Kind;
use crate::tag::Tag;
use crate::tag::MARK_NONE;
use crate::writer::push_slice;
use crate::zigzag;

verus! {

/// The two's-complement unsigned image of a signed value of width `2^bits`.
pub open spec fn twos(v: int, range: int) -> nat {
    if v >= 0 {
        v as nat
    } else {
        (v + range) as nat
    }
}

/// What a signed value becomes before its unsigned encoding: its zigzag
/// image under the varint policy, its two's complement under fixed-width.
pub open spec fn sint_wire(v: int, range: int, ip: IntEncoding) -> nat {
    match ip {
        IntEncoding::Varint => zigzag::zz_enc(v) as nat,
        IntEncoding::Fixed(_) => twos(v, range),
    }
}

/// The signed wire image is injective over its width: two values that
/// encode alike are equal, so decoding an encoding gives the value back
/// under either policy.
pub proof fn lemma_sint_wire_injective(a: int, b: int, range: int, ip: IntEncoding)
    requires
        range > 0,
        -range / 2 <= a < range / 2,
        -range / 2 <= b < range / 2,
        sint_wire(a, range, ip) == sint_wire(b, range, ip),
    ensures
        a == b,
{
    match ip {
        IntEncoding::Varint => {
            crate::zigzag::lemma_zigzag_round_trip(a);
            crate::zigzag::lemma_zigzag_round_trip(b);
        },
        IntEncoding::Fixed(_) => {},
    }
}

/// An encoder that appends the wire form of each value to its output
/// buffer. The policy pair is fixed at construction; a decoder must use the
/// identical pair.
pub struct WireEncoder {
    /// The bytes written so far.
    pub out: Vec<u8>,
    /// The policy for multi-byte integers.
    pub ipol: IntEncoding,
    /// The policy for lengths and counts.
    pub lpol: IntEncoding,
}

impl WireEncoder {
    /// An empty encoder under the given policy pair.
    pub fn new(ipol: IntEncoding, lpol: IntEncoding) -> (r: WireEncoder)
        ensures
            r.out@ == Seq::<u8>::empty(),
            r.ipol == ipol,
            r.lpol == lpol,
    {
        WireEncoder { out: Vec::new(), ipol, lpol }
    }

    /// The bytes written so far, surrendered.
    pub fn into_bytes(self) -> (r: Vec<u8>)
        ensures
            r == self.out,
    {
        self.out
    }

    /// Write a tag of kind `k` carrying `n`: inline when it fits the data
    /// field, else the sentinel and `n` under the length policy.
    pub fn encode_len_header(&mut self, k: Kind, n: usize)
        ensures
            final(self).out@ == old(self).out@ + enc_header(k, n as nat, old(self).lpol),
            final(self).ipol == old(self).ipol,
            final(self).lpol == old(self).lpol,
    {
        if n < MARK_NONE as usize {
            let t = Tag::new(k, n as u8);
            self.out.push(t.byte());
            proof {
                assert(self.out@ =~= old(self).out@ + enc_header(k, n as nat, self.lpol));
            }
        } else {
            let t = Tag::new(k, MARK_NONE);
            self.out.push(t.byte());
            match self.lpol {
                IntEncoding::Varint => continuation::encode(&mut self.out, n as u128),
                IntEncoding::Fixed(bo) => integer::encode_fixed(&mut self.out, n as u128, 8, bo),
            }
            proof {
                assert(self.out@ =~= old(self).out@ + enc_header(k, n as nat, self.lpol));
            }
        }
    }

    /// Write a `u8`: inline in a `Byte` tag when below the sentinel, else
    /// the sentinel tag and the raw byte.
    pub fn encode_u8(&mut self, v: u8)
        ensures
            final(self).out@ == old(self).out@ + enc_u8(v),
            final(self).ipol == old(self).ipol,
            final(self).lpol == old(self).lpol,
    {
        if v < MARK_NONE {
            let t = Tag::new(Kind::Byte, v);
            self.out.push(t.byte());
            proof {
                assert(self.out@ =~= old(self).out@ + enc_u8(v));
            }
        } else {
            let t = Tag::new(Kind::Byte, MARK_NONE);
            self.out.push(t.byte());
            self.out.push(v);
            proof {
                assert(self.out@ =~= old(self).out@ + enc_u8(v));
            }
        }
    }

    /// Write a `bool` as `Tag(Byte, 0)` or `Tag(Byte, 1)`.
    pub fn encode_bool(&mut self, v: bool)
        ensures
            final(self).out@ == old(self).out@ + enc_bool(v),
            final(self).ipol == old(self).ipol,
            final(self).lpol == old(self).lpol,
    {
        let t = Tag::new(Kind::Byte, if v { 1 } else { 0 });
        self.out.push(t.byte());
        proof {
            assert(self.out@ =~= old(self).out@ + enc_bool(v));
        }
    }

    /// Write an unsigned value of `width` bytes under the integer policy.
    fn encode_uint(&mut self, v: u128, width: usize, ip: IntEncoding)
        requires
            1 <= width <= 16,
        ensures
            final(self).out@ == old(self).out@ + enc_uint(v as nat, width as nat, ip),
            final(self).ipol == old(self).ipol,
            final(self).lpol == old(self).lpol,
    {
        match ip {
            IntEncoding::Varint => {
                if v < MARK_NONE as u128 {
                    let t = Tag::new(Kind::Continuation, v as u8);
                    self.out.push(t.byte());
                    proof {
                        assert(self.out@ =~= old(self).out@ + enc_uint(v as nat, width as nat, ip));
                    }
                } else {
                    let t = Tag::new(Kind::Continuation, MARK_NONE);
                    self.out.push(t.byte());
                    continuation::encode(&mut self.out, v);
                    proof {
                        assert(self.out@ =~= old(self).out@ + enc_uint(v as nat, width as nat, ip));
                    }
                }
            },
            IntEncoding::Fixed(bo) => {
                let t = Tag::new(Kind::Continuation, MARK_NONE);
                self.out.push(t.byte());
                integer::encode_fixed(&mut self.out, v, width, bo);
                proof {
                    assert(self.out@ =~= old(self).out@ + enc_uint(v as nat, width as nat, ip));
                }
            },
        }
    }

    /// Write a `u16` under the integer policy.
    pub fn encode_u16(&mut self, v: u16)
        ensures
            final(self).out@ == old(self).out@ + enc_uint(v as nat, 2, old(self).ipol),
            final(self).ipol == old(self).ipol,
            final(self).lpol == old(self).lpol,
    {
        let ip = self.ipol;
        self.encode_uint(v as u128, 2, ip);
    }

    /// Write a `u32` under the integer policy.
    pub fn encode_u32(&mut self, v: u32)
        ensures
            final(self).out@ == old(self).out@ + enc_uint(v as nat, 4, old(self).ipol),
            final(self).ipol == old(self).ipol,
            final(self).lpol == old(self).lpol,
    {
        let ip = self.ipol;
        self.encode_uint(v as u128, 4, ip);
    }

    /// Write a `u64` under the integer policy.
    pub fn encode_u64(&mut self, v: u64)
        ensures
            final(self).out@ == old(self).out@ + enc_uint(v as nat, 8, old(self).ipol),
            final(self).ipol == old(self).ipol,
            final(self).lpol == old(self).lpol,
    {
        let ip = self.ipol;
        self.encode_uint(v as u128, 8, ip);
    }

    /// Write a `u128` under the integer policy.
    pub fn encode_u128(&mut self, v: u128)
        ensures
            final(self).out@ == old(self).out@ + enc_uint(v as nat, 16, old(self).ipol),
            final(self).ipol == old(self).ipol,
            final(self).lpol == old(self).lpol,
    {
        let ip = self.ipol;
        self.encode_uint(v, 16, ip);
    }

    /// Write a `usize` length-or-count value under the length policy.
    pub fn encode_usize(&mut self, v: usize)
        ensures
            final(self).out@ == old(self).out@ + enc_uint(v as nat, 8, old(self).lpol),
            final(self).ipol == old(self).ipol,
            final(self).lpol == old(self).lpol,
    {
        let lp = self.lpol;
        self.encode_uint(v as u128, 8, lp);
    }

    /// Write an `i8` through the `u8` path, reinterpreted.
    pub fn encode_i8(&mut self, v: i8)
        ensures
            final(self).out@ == old(self).out@ + enc_u8((twos(v as int, 0x100) as u8)),
            final(self).ipol == old(self).ipol,
            final(self).lpol == old(self).lpol,
    {
        let u: u8 = if v >= 0 {
            v as u8
        } else {
            ((v as i16) + 0x100) as u8
        };
        self.encode_u8(u);
    }

    /// Write an `i16`: zigzag under the varint policy, two's complement
    /// under fixed-width.
    pub fn encode_i16(&mut self, v: i16)
        ensures
            final(self).out@ == old(self).out@ + enc_uint(
                sint_wire(v as int, 0x10000, old(self).ipol),
                2,
                old(self).ipol,
            ),
            final(self).ipol == old(self).ipol,
            final(self).lpol == old(self).lpol,
    {
        let ip = self.ipol;
        let u: u128 = match ip {
            IntEncoding::Varint => zigzag::encode_i16(v) as u128,
            IntEncoding::Fixed(_) => if v >= 0 {
                v as u128
            } else {
                ((v as i32) + 0x10000) as u128
            },
        };
        self.encode_uint(u, 2, ip);
    }

    /// Write an `i32`: zigzag under the varint policy, two's complement
    /// under fixed-width.
    pub fn encode_i32(&mut self, v: i32)
        ensures
            final(self).out@ == old(self).out@ + enc_uint(
                sint_wire(v as int, 0x100000000, old(self).ipol),
                4,
                old(self).ipol,
            ),
            final(self).ipol == old(self).ipol,
            final(self).lpol == old(self).lpol,
    {
        let ip = self.ipol;
        let u: u128 = match ip {
            IntEncoding::Varint => zigzag::encode_i32(v) as u128,
            IntEncoding::Fixed(_) => if v >= 0 {
                v as u128
            } else {
                ((v as i64) + 0x100000000) as u128
            },
        };
        self.encode_uint(u, 4, ip);
    }

    /// Write an `i64`: zigzag under the varint policy, two's complement
    /// under fixed-width.
    pub fn encode_i64(&mut self, v: i64)
        ensures
            final(self).out@ == old(self).out@ + enc_uint(
                sint_wire(v as int, 0x10000000000000000, old(self).ipol),
                8,
                old(self).ipol,
            ),
            final(self).ipol == old(self).ipol,
            final(self).lpol == old(self).lpol,
    {
        let ip = self.ipol;
        let u: u128 = match ip {
            IntEncoding::Varint => zigzag::encode_i64(v) as u128,
            IntEncoding::Fixed(_) => if v >= 0 {
                v as u128
            } else {
                ((v as i128) + 0x10000000000000000) as u128
            },
        };
        self.encode_uint(u, 8, ip);
    }

    /// Write an `i128`: zigzag under the varint policy, two's complement
    /// under fixed-width.
    pub fn encode_i128(&mut self, v: i128)
        ensures
            final(self).out@ == old(self).out@ + enc_uint(
                sint_wire(v as int, 0x100000000000000000000000000000000int, old(self).ipol),
                16,
                old(self).ipol,
            ),
            final(self).ipol == old(self).ipol,
            final(self).lpol == old(self).lpol,
    {
        let ip = self.ipol;
        let u: u128 = match ip {
            IntEncoding::Varint => zigzag::encode_i128(v),
            IntEncoding::Fixed(_) => if v >= 0 {
                v as u128
            } else {
                let m = (-(v + 1)) as u128;
                u128::MAX - m
            },
        };
        self.encode_uint(u, 16, ip);
    }

    /// Write an `isize` through the `usize` length path, reinterpreted
    /// two's complement.
    pub fn encode_isize(&mut self, v: isize)
        ensures
            final(self).out@ == old(self).out@ + enc_uint(
                twos(v as int, usize::MAX + 1),
                8,
                old(self).lpol,
            ),
            final(self).ipol == old(self).ipol,
            final(self).lpol == old(self).lpol,
    {
        let u: usize = if v >= 0 {
            v as usize
        } else {
            usize::MAX - ((-(v + 1)) as usize)
        };
        self.encode_usize(u);
    }

    /// Write a `char` as its scalar value through the `u32` path.
    pub fn encode_char(&mut self, v: char)
        ensures
            final(self).out@ == old(self).out@ + enc_uint((v as u32) as nat, 4, old(self).ipol),
            final(self).ipol == old(self).ipol,
            final(self).lpol == old(self).lpol,
    {
        self.encode_u32(v as u32);
    }

    /// Write a byte run: a `Prefix` header with the length, then the bytes.
    pub fn encode_bytes(&mut self, b: &[u8])
        ensures
            final(self).out@ == old(self).out@ + enc_bytes(b@, old(self).lpol),
            final(self).ipol == old(self).ipol,
            final(self).lpol == old(self).lpol,
    {
        self.encode_len_header(Kind::Prefix, b.len());
        push_slice(&mut self.out, b);
        proof {
            assert(self.out@ =~= old(self).out@ + enc_bytes(b@, self.lpol));
        }
    }

    /// Write a string as the byte run of its UTF-8 form.
    pub fn encode_str(&mut self, s: &str)
        ensures
            final(self).out@ == old(self).out@ + enc_bytes(s.spec_bytes(), old(self).lpol),
            final(self).ipol == old(self).ipol,
            final(self).lpol == old(self).lpol,
    {
        let b = s.as_bytes();
        self.encode_bytes(b);
    }

    /// Write the header of a sequence of `n` values.
    pub fn encode_sequence_header(&mut self, n: usize)
        ensures
            final(self).out@ == old(self).out@ + enc_header(
                Kind::Sequence,
                n as nat,
                old(self).lpol,
            ),
            final(self).ipol == old(self).ipol,
            final(self).lpol == old(self).lpol,
    {
        self.encode_len_header(Kind::Sequence, n);
    }

    /// Write the header of a map, struct or tuple of `n` pairs: a sequence
    /// of `2 * n` values, keys and values alternating.
    pub fn encode_pair_sequence_header(&mut self, n: usize)
        requires
            n <= usize::MAX / 2,
        ensures
            final(self).out@ == old(self).out@ + enc_header(
                Kind::Sequence,
                2 * n as nat,
                old(self).lpol,
            ),
            final(self).ipol == old(self).ipol,
            final(self).lpol == old(self).lpol,
    {
        self.encode_len_header(Kind::Sequence, 2 * n);
    }

    /// Write the marker of an absent option.
    pub fn encode_none(&mut self)
        ensures
            final(self).out@ == old(self).out@ + enc_none(),
            final(self).ipol == old(self).ipol,
            final(self).lpol == old(self).lpol,
    {
        let t = Tag::new(Kind::Sequence, 0);
        self.out.push(t.byte());
        proof {
            assert(self.out@ =~= old(self).out@ + enc_none());
        }
    }

    /// Write the marker of a present option; encode the value after it.
    pub fn encode_some_marker(&mut self)
        ensures
            final(self).out@ == old(self).out@ + enc_some_marker(),
            final(self).ipol == old(self).ipol,
            final(self).lpol == old(self).lpol,
    {
        let t = Tag::new(Kind::Sequence, 1);
        self.out.push(t.byte());
        proof {
            assert(self.out@ =~= old(self).out@ + enc_some_marker());
        }
    }

    /// Write the marker of a variant: a sequence of two values, the
    /// discriminant and the payload, which follow it.
    pub fn encode_variant_marker(&mut self)
        ensures
            final(self).out@ == old(self).out@ + enc_variant_marker(),
            final(self).ipol == old(self).ipol,
            final(self).lpol == old(self).lpol,
    {
        let t = Tag::new(Kind::Sequence, 2);
        self.out.push(t.byte());
        proof {
            assert(self.out@ =~= old(self).out@ + enc_variant_marker());
        }
    }
}

} // verus!
