//! Fixed-width integer bytes in either endianness, and the width policies
//! that choose between fixed-width and continuation-varint encodings.
//!
//! Both sides of a stream must agree on the policy pair: it is not recorded
//! in the stream. Fixed-width lengths and counts are carried as 8 bytes.

use vstd::prelude::*;
use crate::error::Error;
use crate::reader::Reader;

verus! {

/// The byte order of a fixed-width encoding.
#[derive(Clone, Copy, PartialEq, Eq, Structural, Debug)]
pub enum ByteOrder {
    Little,
    Big,
}

/// A width policy: fixed-width in a byte order, or continuation varint.
/// One policy governs multi-byte integers, an independent one governs
/// lengths and counts.
#[derive(Clone, Copy, PartialEq, Eq, Structural, Debug)]
pub enum IntEncoding {
    Fixed(ByteOrder),
    Varint,
}

/// The number of bytes a fixed-width length or count occupies.
pub const USIZE_WIDTH: usize = 8;

/// The `w` little-endian bytes of `v`: least significant first.
pub open spec fn le_bytes(v: nat, w: nat) -> Seq<u8>
    decreases w,
{
    if w == 0 {
        Seq::empty()
    } else {
        seq![(v % 256) as u8] + le_bytes(v / 256, (w - 1) as nat)
    }
}

/// The `w` big-endian bytes of `v`: most significant first.
pub open spec fn be_bytes(v: nat, w: nat) -> Seq<u8>
    decreases w,
{
    if w == 0 {
        Seq::empty()
    } else {
        be_bytes(v / 256, (w - 1) as nat) + seq![(v % 256) as u8]
    }
}

/// The `w` bytes of `v` in the byte order `bo`.
pub open spec fn fixed_bytes(v: nat, w: nat, bo: ByteOrder) -> Seq<u8> {
    match bo {
        ByteOrder::Little => le_bytes(v, w),
        ByteOrder::Big => be_bytes(v, w),
    }
}

/// The value the bytes `s` spell little-endian.
pub open spec fn le_val(s: Seq<u8>) -> nat
    decreases s.len(),
{
    if s.len() == 0 {
        0
    } else {
        (s[0] + 256 * le_val(s.skip(1))) as nat
    }
}

/// The value the bytes `s` spell big-endian.
pub open spec fn be_val(s: Seq<u8>) -> nat
    decreases s.len(),
{
    if s.len() == 0 {
        0
    } else {
        (be_val(s.drop_last()) * 256 + s.last()) as nat
    }
}

/// The value the bytes `s` spell in the byte order `bo`.
pub open spec fn fixed_val(s: Seq<u8>, bo: ByteOrder) -> nat {
    match bo {
        ByteOrder::Little => le_val(s),
        ByteOrder::Big => be_val(s),
    }
}

/// `w` bytes spell a value below `256^w`.
pub proof fn lemma_le_val_bound(s: Seq<u8>)
    ensures
        le_val(s) < vstd::arithmetic::power::pow(256, s.len()),
    decreases s.len(),
{
    vstd::arithmetic::power::lemma_pow_positive(256, s.len());
    if s.len() > 0 {
        lemma_le_val_bound(s.skip(1));
        assert(vstd::arithmetic::power::pow(256, s.len()) == 256 * vstd::arithmetic::power::pow(
            256,
            (s.len() - 1) as nat,
        )) by {
            vstd::arithmetic::power::lemma_pow1(256);
            vstd::arithmetic::power::lemma_pow_adds(256, 1, (s.len() - 1) as nat);
        }
    }
}

/// `w` bytes spell a value below `256^w`, big-endian.
pub proof fn lemma_be_val_bound(s: Seq<u8>)
    ensures
        be_val(s) < vstd::arithmetic::power::pow(256, s.len()),
    decreases s.len(),
{
    vstd::arithmetic::power::lemma_pow_positive(256, s.len());
    if s.len() > 0 {
        lemma_be_val_bound(s.drop_last());
        let hi = be_val(s.drop_last());
        let p = vstd::arithmetic::power::pow(256, (s.len() - 1) as nat);
        assert(vstd::arithmetic::power::pow(256, s.len()) == 256 * p) by {
            vstd::arithmetic::power::lemma_pow1(256);
            vstd::arithmetic::power::lemma_pow_adds(256, 1, (s.len() - 1) as nat);
        }
        assert(hi * 256 + s.last() < 256 * p) by (nonlinear_arith)
            requires
                hi < p,
                s.last() < 256;
    }
}

/// Round trip: the bytes of `v` spell `v` again.
pub proof fn lemma_le_round_trip(v: nat, w: nat)
    ensures
        le_val(le_bytes(v, w)) == v % (vstd::arithmetic::power::pow(256, w) as nat),
        le_bytes(v, w).len() == w,
    decreases w,
{
    vstd::arithmetic::power::lemma_pow_positive(256, w);
    if w == 0 {
        vstd::arithmetic::power::lemma_pow0(256);
        assert(v % (vstd::arithmetic::power::pow(256, 0) as nat) == 0) by {
            vstd::arithmetic::power::lemma_pow0(256);
        }
    } else {
        lemma_le_round_trip(v / 256, (w - 1) as nat);
        let p1 = vstd::arithmetic::power::pow(256, (w - 1) as nat);
        let p = vstd::arithmetic::power::pow(256, w);
        assert(p == 256 * p1) by {
            vstd::arithmetic::power::lemma_pow1(256);
            vstd::arithmetic::power::lemma_pow_adds(256, 1, (w - 1) as nat);
        }
        assert(le_bytes(v, w).skip(1) =~= le_bytes(v / 256, (w - 1) as nat));
        vstd::arithmetic::div_mod::lemma_breakdown(v as int, 256, p1);
    }
}

/// Round trip, big-endian.
pub proof fn lemma_be_round_trip(v: nat, w: nat)
    ensures
        be_val(be_bytes(v, w)) == v % (vstd::arithmetic::power::pow(256, w) as nat),
        be_bytes(v, w).len() == w,
    decreases w,
{
    vstd::arithmetic::power::lemma_pow_positive(256, w);
    if w == 0 {
        vstd::arithmetic::power::lemma_pow0(256);
        assert(v % (vstd::arithmetic::power::pow(256, 0) as nat) == 0) by {
            vstd::arithmetic::power::lemma_pow0(256);
        }
    } else {
        lemma_be_round_trip(v / 256, (w - 1) as nat);
        let p1 = vstd::arithmetic::power::pow(256, (w - 1) as nat);
        let p = vstd::arithmetic::power::pow(256, w);
        assert(p == 256 * p1) by {
            vstd::arithmetic::power::lemma_pow1(256);
            vstd::arithmetic::power::lemma_pow_adds(256, 1, (w - 1) as nat);
        }
        assert(be_bytes(v, w).drop_last() =~= be_bytes(v / 256, (w - 1) as nat));
        vstd::arithmetic::div_mod::lemma_breakdown(v as int, 256, p1);
    }
}

/// The encoding always has exactly `w` bytes.
pub proof fn lemma_fixed_len(v: nat, w: nat, bo: ByteOrder)
    ensures
        fixed_bytes(v, w, bo).len() == w,
        le_bytes(v, w).len() == w,
        be_bytes(v, w).len() == w,
    decreases w,
{
    if w > 0 {
        lemma_fixed_len(v / 256, (w - 1) as nat, bo);
    }
}

/// Round trip in either byte order, for values that fit the width.
pub proof fn lemma_fixed_round_trip(v: nat, w: nat, bo: ByteOrder)
    requires
        v < vstd::arithmetic::power::pow(256, w),
    ensures
        fixed_val(fixed_bytes(v, w, bo), bo) == v,
        fixed_bytes(v, w, bo).len() == w,
{
    vstd::arithmetic::power::lemma_pow_positive(256, w);
    vstd::arithmetic::div_mod::lemma_small_mod(v, vstd::arithmetic::power::pow(256, w) as nat);
    match bo {
        ByteOrder::Little => lemma_le_round_trip(v, w),
        ByteOrder::Big => lemma_be_round_trip(v, w),
    }
}

/// Write the `width` bytes of `v` in byte order `bo` onto the end of `out`.
pub fn encode_fixed(out: &mut Vec<u8>, v: u128, width: usize, bo: ByteOrder)
    requires
        width <= 16,
    ensures
        final(out)@ == old(out)@ + fixed_bytes(v as nat, width as nat, bo),
    decreases width,
{
    if width == 0 {
        proof {
            assert(final(out)@ =~= old(out)@ + fixed_bytes(v as nat, width as nat, bo));
        }
    } else {
        match bo {
            ByteOrder::Little => {
                out.push((v % 256) as u8);
                encode_fixed(out, v / 256, width - 1, bo);
                proof {
                    assert(final(out)@ =~= old(out)@ + le_bytes(v as nat, width as nat));
                }
            },
            ByteOrder::Big => {
                encode_fixed(out, v / 256, width - 1, bo);
                out.push((v % 256) as u8);
                proof {
                    assert(final(out)@ =~= old(out)@ + be_bytes(v as nat, width as nat));
                }
            },
        }
    }
}

/// Read `width` bytes and return the value they spell in byte order `bo`.
/// `Truncated` when fewer are left; the reader then does not move.
pub fn decode_fixed(r: &mut Reader<'_>, width: usize, bo: ByteOrder) -> (res: Result<
    u128,
    Error,
>)
    requires
        old(r).wf(),
        width <= 16,
    ensures
        final(r).wf(),
        final(r).spec_data() == old(r).spec_data(),
        final(r).spec_end() == old(r).spec_end(),
        old(r).rem().len() < width ==> (res matches Err(e) && e matches Error::Truncated
            && *final(r) == *old(r)),
        old(r).rem().len() >= width ==> (res matches Ok(v)
            && v == fixed_val(old(r).rem().take(width as int), bo)
            && final(r).spec_pos() == old(r).spec_pos() + width),
{
    let bytes = match r.read_bytes(width) {
        Ok(b) => b,
        Err(e) => {
            return Err(e);
        },
    };
    proof {
        lemma_fixed_width_val_bound(bytes@, bo);
    }
    let ghost s = bytes@;
    let mut v: u128 = 0;
    match bo {
        ByteOrder::Little => {
            let mut i: usize = width;
            while i > 0
                invariant
                    i <= width,
                    width <= 16,
                    s.len() == width,
                    forall|j: int| 0 <= j < s.len() ==> s[j] < 256,
                    v == le_val(s.skip(i as int)),
                    le_val(s.skip(i as int)) <= u128::MAX,
                    bytes@ == s,
                decreases i,
            {
                proof {
                    assert(s.skip(i as int - 1).skip(1) =~= s.skip(i as int));
                    lemma_le_val_fits(s.skip(i as int - 1));
                }
                i = i - 1;
                v = v * 256 + (bytes[i] as u128);
            }
            proof {
                assert(s.skip(0) =~= s);
            }
            Ok(v)
        },
        ByteOrder::Big => {
            let mut i: usize = 0;
            while i < width
                invariant
                    i <= width,
                    width <= 16,
                    s.len() == width,
                    v == be_val(s.take(i as int)),
                    be_val(s) <= u128::MAX,
                    bytes@ == s,
                decreases width - i,
            {
                proof {
                    assert(s.take(i as int + 1).drop_last() =~= s.take(i as int));
                    assert(s.take(i as int + 1).last() == s[i as int]);
                    lemma_be_val_take_bound(s, i as int + 1);
                }
                v = v * 256 + (bytes[i] as u128);
                i = i + 1;
            }
            proof {
                assert(s.take(width as int) =~= s);
            }
            Ok(v)
        },
    }
}

/// `256^16` is one more than `u128::MAX`.
pub proof fn lemma_pow256_16()
    ensures
        vstd::arithmetic::power::pow(256, 16) == 0x100000000000000000000000000000000,
{
    vstd::arithmetic::power2::lemma_pow2(8);
    vstd::arithmetic::power2::lemma_pow2(128);
    vstd::arithmetic::power::lemma_pow_multiplies(2, 8, 16);
    vstd::arithmetic::power2::lemma_pow2_adds(64, 64);
    vstd::arithmetic::power2::lemma2_to64();
    assert(vstd::arithmetic::power::pow(256, 16) == vstd::arithmetic::power2::pow2(128));
}

/// Sixteen or fewer bytes always fit a `u128`.
proof fn lemma_fixed_width_val_bound(s: Seq<u8>, bo: ByteOrder)
    requires
        s.len() <= 16,
    ensures
        fixed_val(s, bo) <= u128::MAX,
        le_val(s) <= u128::MAX,
        be_val(s) <= u128::MAX,
{
    lemma_le_val_bound(s);
    lemma_be_val_bound(s);
    vstd::arithmetic::power::lemma_pow_increases(256, s.len(), 16);
    lemma_pow256_16();
}

/// A suffix of at most sixteen bytes fits a `u128`.
proof fn lemma_le_val_fits(s: Seq<u8>)
    requires
        s.len() <= 16,
    ensures
        le_val(s) <= u128::MAX,
{
    lemma_le_val_bound(s);
    vstd::arithmetic::power::lemma_pow_increases(256, s.len(), 16);
    lemma_pow256_16();
}

/// A longer big-endian prefix still fits whenever the whole fits.
proof fn lemma_be_val_take_bound(s: Seq<u8>, i: int)
    requires
        0 < i <= s.len(),
        s.len() <= 16,
    ensures
        be_val(s.take(i)) <= u128::MAX,
{
    lemma_be_val_bound(s.take(i));
    vstd::arithmetic::power::lemma_pow_increases(256, s.take(i).len(), 16);
    lemma_pow256_16();
}

} // verus!
