//! The wire grammar: what each value class spells on the wire, and how far
//! one well-formed value reaches, so a reader can skip it without knowing
//! its type.
//!
//! Lengths and counts follow the ambient length policy. The payload of a
//! `Continuation` tag with the sentinel data field is always traversed as a
//! varint, so a stream is skippable when its multi-byte integers were
//! written under the varint policy.

use vstd::prelude::*;
use crate::continuation::cont_enc;
use crate::continuation::cont_parse;
use crate::continuation::lemma_cont_parse_bounds;
use crate::continuation::lemma_cont_parse_extend;
use crate::continuation::lemma_cont_round_trip;
use crate::integer::fixed_bytes;
use crate::integer::fixed_val;
use crate::integer::IntEncoding;
use crate::tag::data_of;
use crate::tag::kind_of;
use crate::tag::tag_byte;
use crate::tag::Kind;
use crate::tag::MARK_NONE;

verus! {

/// The bytes that carry a length or count `n` after a tag whose data field
/// could not hold it, under the length policy `lp`.
pub open spec fn len_payload(n: nat, lp: IntEncoding) -> Seq<u8> {
    match lp {
        IntEncoding::Varint => cont_enc(n),
        IntEncoding::Fixed(bo) => fixed_bytes(n, 8, bo),
    }
}

/// Parse a length or count from the front of `s` under `lp`: the value and
/// the bytes consumed. Values beyond `usize` are refused.
pub open spec fn len_parse(s: Seq<u8>, lp: IntEncoding) -> Option<(nat, nat)> {
    match lp {
        IntEncoding::Varint => match cont_parse(s) {
            None => None,
            Some((v, k)) => if v <= usize::MAX {
                Some((v, k))
            } else {
                None
            },
        },
        IntEncoding::Fixed(bo) => if s.len() >= 8 {
            if fixed_val(s.take(8), bo) <= usize::MAX {
                Some((fixed_val(s.take(8), bo), 8))
            } else {
                None
            }
        } else {
            None
        },
    }
}

/// Resolve the data field `d` of a tag: inline when it is below the
/// sentinel, else read from `s`, the bytes after the tag. The value and the
/// bytes consumed after the tag.
pub open spec fn data_parse(d: u8, s: Seq<u8>, lp: IntEncoding) -> Option<(nat, nat)> {
    if d < MARK_NONE {
        Some((d as nat, 0))
    } else {
        len_parse(s, lp)
    }
}

/// A tag of kind `k` carrying the length or count `n`: inline when it fits
/// the data field, else the sentinel and the length after it.
pub open spec fn enc_header(k: Kind, n: nat, lp: IntEncoding) -> Seq<u8> {
    if n < MARK_NONE {
        seq![tag_byte(k, n as u8)] + Seq::<u8>::empty()
    } else {
        seq![tag_byte(k, MARK_NONE)] + len_payload(n, lp)
    }
}

/// How many bytes one well-formed value occupies at the front of `s`, under
/// the length policy `lp`; `None` when no well-formed value starts there.
pub open spec fn skip_len(s: Seq<u8>, lp: IntEncoding) -> Option<nat>
    decreases s.len(), 0nat,
{
    if s.len() == 0 {
        None
    } else {
        let d = data_of(s[0]);
        let tail = s.skip(1);
        match kind_of(s[0]) {
            Kind::Byte => if d == MARK_NONE {
                if s.len() >= 2 {
                    Some(2)
                } else {
                    None
                }
            } else {
                Some(1)
            },
            Kind::Prefix => match data_parse(d, tail, lp) {
                None => None,
                Some((len, c)) => if 1 + c + len <= s.len() {
                    Some(1 + c + len)
                } else {
                    None
                },
            },
            Kind::Sequence => match data_parse(d, tail, lp) {
                None => None,
                Some((count, c)) => if c <= tail.len() {
                    match skip_n(tail.skip(c as int), lp, count) {
                        None => None,
                        Some(m) => Some(1 + c + m),
                    }
                } else {
                    None
                },
            },
            Kind::Continuation => if d == MARK_NONE {
                match cont_parse(tail) {
                    None => None,
                    Some((v, k)) => if v <= u128::MAX {
                        Some(1 + k)
                    } else {
                        None
                    },
                }
            } else {
                Some(1)
            },
        }
    }
}

/// How many bytes `n` consecutive well-formed values occupy at the front of
/// `s`.
pub open spec fn skip_n(s: Seq<u8>, lp: IntEncoding, n: nat) -> Option<nat>
    decreases s.len(), n,
{
    if n == 0 {
        Some(0)
    } else {
        match skip_len(s, lp) {
            None => None,
            Some(k) => if 1 <= k <= s.len() {
                match skip_n(s.skip(k as int), lp, (n - 1) as nat) {
                    None => None,
                    Some(m) => Some(k + m),
                }
            } else {
                None
            },
        }
    }
}

/// `v` is exactly one well-formed value.
pub open spec fn is_value(v: Seq<u8>, lp: IntEncoding) -> bool {
    skip_len(v, lp) == Some(v.len() as nat)
}

/// A parsed length or count consumes no more than the input.
pub proof fn lemma_len_parse_bounds(s: Seq<u8>, lp: IntEncoding)
    ensures
        len_parse(s, lp) matches Some(vc) ==> 1 <= vc.1 <= s.len(),
{
    match lp {
        IntEncoding::Varint => lemma_cont_parse_bounds(s),
        IntEncoding::Fixed(_) => {},
    }
}

/// A well-formed value is at least one byte and lies within the input; `n`
/// well-formed values lie within the input.
pub proof fn lemma_skip_len_bounds(s: Seq<u8>, lp: IntEncoding)
    ensures
        skip_len(s, lp) matches Some(k) ==> 1 <= k <= s.len(),
    decreases s.len(), 0nat,
{
    if s.len() > 0 {
        let d = data_of(s[0]);
        let tail = s.skip(1);
        match kind_of(s[0]) {
            Kind::Byte => {},
            Kind::Prefix => {},
            Kind::Sequence => {
                if let Some((count, c)) = data_parse(d, tail, lp) {
                    if c <= tail.len() {
                        lemma_skip_n_bounds(tail.skip(c as int), lp, count);
                    }
                }
            },
            Kind::Continuation => {
                if d == MARK_NONE {
                    lemma_cont_parse_bounds(tail);
                }
            },
        }
    }
}

/// See [`lemma_skip_len_bounds`].
pub proof fn lemma_skip_n_bounds(s: Seq<u8>, lp: IntEncoding, n: nat)
    ensures
        skip_n(s, lp, n) matches Some(m) ==> m <= s.len(),
    decreases s.len(), n,
{
    if n > 0 {
        if let Some(k) = skip_len(s, lp) {
            if 1 <= k <= s.len() {
                lemma_skip_n_bounds(s.skip(k as int), lp, (n - 1) as nat);
            }
        }
    }
}

/// Extending the input does not change a parsed length.
pub proof fn lemma_len_parse_extend(s: Seq<u8>, t: Seq<u8>, lp: IntEncoding)
    ensures
        len_parse(s, lp) matches Some(vc) ==> len_parse(s + t, lp) == Some(vc),
{
    match lp {
        IntEncoding::Varint => lemma_cont_parse_extend(s, t),
        IntEncoding::Fixed(_) => {
            if s.len() >= 8 {
                assert((s + t).take(8) =~= s.take(8));
            }
        },
    }
}

/// Extending the input past one well-formed value does not change its
/// reach.
pub proof fn lemma_skip_len_extend(s: Seq<u8>, t: Seq<u8>, lp: IntEncoding)
    ensures
        skip_len(s, lp) matches Some(k) ==> skip_len(s + t, lp) == Some(k),
    decreases s.len(), 0nat,
{
    if s.len() > 0 && skip_len(s, lp) is Some {
        let st = s + t;
        assert(st[0] == s[0]);
        let d = data_of(s[0]);
        let tail = s.skip(1);
        assert(st.skip(1) =~= tail + t);
        match kind_of(s[0]) {
            Kind::Byte => {},
            Kind::Prefix => {
                if let Some((len, c)) = data_parse(d, tail, lp) {
                    if d >= MARK_NONE {
                        lemma_len_parse_extend(tail, t, lp);
                    }
                }
            },
            Kind::Sequence => {
                if let Some((count, c)) = data_parse(d, tail, lp) {
                    if d >= MARK_NONE {
                        lemma_len_parse_extend(tail, t, lp);
                        lemma_len_parse_bounds(tail, lp);
                    }
                    if c <= tail.len() {
                        lemma_skip_n_extend(tail.skip(c as int), t, lp, count);
                        assert((tail + t).skip(c as int) =~= tail.skip(c as int) + t);
                    }
                }
            },
            Kind::Continuation => {
                if d == MARK_NONE {
                    lemma_cont_parse_extend(tail, t);
                }
            },
        }
    }
}

/// See [`lemma_skip_len_extend`].
pub proof fn lemma_skip_n_extend(s: Seq<u8>, t: Seq<u8>, lp: IntEncoding, n: nat)
    ensures
        skip_n(s, lp, n) matches Some(m) ==> skip_n(s + t, lp, n) == Some(m),
    decreases s.len(), n,
{
    if n > 0 && skip_n(s, lp, n) is Some {
        if let Some(k) = skip_len(s, lp) {
            lemma_skip_len_extend(s, t, lp);
            if 1 <= k <= s.len() {
                lemma_skip_n_extend(s.skip(k as int), t, lp, (n - 1) as nat);
                assert((s + t).skip(k as int) =~= s.skip(k as int) + t);
            }
        }
    }
}

/// Skip identity: wherever one well-formed value stands in a stream, its
/// reach is exactly its own bytes, whatever follows it.
pub proof fn lemma_skip_value(v: Seq<u8>, rest: Seq<u8>, lp: IntEncoding)
    requires
        is_value(v, lp),
    ensures
        skip_len(v + rest, lp) == Some(v.len() as nat),
{
    lemma_skip_len_extend(v, rest, lp);
}

/// A run of well-formed values is traversed value by value, ending exactly
/// where the run ends.
pub proof fn lemma_skip_n_values(vs: Seq<Seq<u8>>, rest: Seq<u8>, lp: IntEncoding)
    requires
        forall|i: int| 0 <= i < vs.len() ==> is_value(#[trigger] vs[i], lp),
    ensures
        skip_n(vs.flatten() + rest, lp, vs.len() as nat) == Some(vs.flatten().len() as nat),
    decreases vs.len(),
{
    if vs.len() == 0 {
        assert(vs.flatten() + rest =~= rest);
    } else {
        let head = vs[0];
        let tailcat = vs.drop_first().flatten();
        assert(vs.flatten() == head + tailcat);
        assert(vs.flatten() + rest =~= head + (tailcat + rest));
        lemma_skip_value(head, tailcat + rest, lp);
        lemma_skip_n_values(vs.drop_first(), rest, lp);
        let s = vs.flatten() + rest;
        assert(s.skip(head.len() as int) =~= tailcat + rest);
        if head.len() == 0 {
            assert(skip_len(head, lp) == Some(0nat));
            lemma_skip_len_bounds(head, lp);
            assert(false);
        }
    }
}

/// Forward compatibility: a reader that has consumed the first values of a
/// run can skip each remaining value and ends exactly at the run's end,
/// whatever was appended after it. An older decoder thus reads a struct
/// written by a newer schema, skipping the fields it does not know.
pub proof fn lemma_forward_compat(vs: Seq<Seq<u8>>, consumed: int, rest: Seq<u8>, lp: IntEncoding)
    requires
        0 <= consumed <= vs.len(),
        forall|i: int| 0 <= i < vs.len() ==> is_value(#[trigger] vs[i], lp),
    ensures
        skip_n(vs.skip(consumed).flatten() + rest, lp, (vs.len() - consumed) as nat) == Some(
            vs.skip(consumed).flatten().len() as nat,
        ),
{
    let tail = vs.skip(consumed);
    assert forall|i: int| 0 <= i < tail.len() implies is_value(#[trigger] tail[i], lp) by {
        assert(tail[i] == vs[i + consumed]);
    }
    lemma_skip_n_values(tail, rest, lp);
}

/// The header of a sequence of `n` well-formed values, followed by them,
/// is one well-formed value.
pub proof fn lemma_sequence_is_value(n: nat, parts: Seq<Seq<u8>>, lp: IntEncoding)
    requires
        parts.len() == n,
        n <= usize::MAX,
        forall|i: int| 0 <= i < parts.len() ==> is_value(#[trigger] parts[i], lp),
    ensures
        is_value(enc_header(Kind::Sequence, n, lp) + parts.flatten(), lp),
{
    let h = enc_header(Kind::Sequence, n, lp);
    let s = h + parts.flatten();
    crate::tag::lemma_tag_byte_inverts(Kind::Sequence, if n < MARK_NONE {
        n as u8
    } else {
        MARK_NONE
    });
    lemma_skip_n_values(parts, Seq::empty(), lp);
    assert(parts.flatten() + Seq::<u8>::empty() =~= parts.flatten());
    if n < MARK_NONE {
        assert(s[0] == tag_byte(Kind::Sequence, n as u8));
        assert(s.skip(1) =~= parts.flatten());
        assert(data_parse(data_of(s[0]), s.skip(1), lp) == Some((n, 0nat)));
        assert(s.skip(1).skip(0) =~= parts.flatten());
    } else {
        assert(s[0] == tag_byte(Kind::Sequence, MARK_NONE));
        assert(s.skip(1) =~= len_payload(n, lp) + parts.flatten());
        lemma_len_payload_parse(n, parts.flatten(), lp);
        let c = len_payload(n, lp).len();
        assert(s.skip(1).skip(c as int) =~= parts.flatten());
        lemma_len_payload_min(n, lp);
    }
}

/// The length payload of `n` parses back to `n`, whatever follows it.
pub proof fn lemma_len_payload_parse(n: nat, rest: Seq<u8>, lp: IntEncoding)
    requires
        n <= usize::MAX,
    ensures
        len_parse(len_payload(n, lp) + rest, lp) == Some((n, len_payload(n, lp).len() as nat)),
{
    match lp {
        IntEncoding::Varint => {
            lemma_cont_round_trip(n, rest);
        },
        IntEncoding::Fixed(bo) => {
            lemma_usize_fits_8(n);
            crate::integer::lemma_fixed_round_trip(n, 8, bo);
            assert((fixed_bytes(n, 8, bo) + rest).take(8) =~= fixed_bytes(n, 8, bo));
        },
    }
}

/// A length payload is at least one byte.
pub proof fn lemma_len_payload_min(n: nat, lp: IntEncoding)
    ensures
        len_payload(n, lp).len() >= 1,
{
    match lp {
        IntEncoding::Varint => crate::continuation::lemma_cont_enc_shape(n),
        IntEncoding::Fixed(bo) => {
            crate::integer::lemma_fixed_len(n, 8, bo);
        },
    }
}

/// A `usize` value fits eight bytes.
pub proof fn lemma_usize_fits_8(n: nat)
    requires
        n <= usize::MAX,
    ensures
        n < vstd::arithmetic::power::pow(256, 8),
{
    vstd::arithmetic::power2::lemma_pow2(8);
    vstd::arithmetic::power2::lemma_pow2(64);
    vstd::arithmetic::power::lemma_pow_multiplies(2, 8, 8);
    vstd::arithmetic::power2::lemma_pow2_adds(32, 32);
    vstd::arithmetic::power2::lemma2_to64();
    assert(vstd::arithmetic::power::pow(256, 8) == vstd::arithmetic::power2::pow2(64));
    assert(usize::MAX <= 0xffffffffffffffff);
}


/// The encoding of a `u8`: inline in the tag when it fits below the
/// sentinel, else the sentinel and one raw byte.
pub open spec fn enc_u8(v: u8) -> Seq<u8> {
    if v < MARK_NONE {
        seq![tag_byte(Kind::Byte, v)]
    } else {
        seq![tag_byte(Kind::Byte, MARK_NONE), v]
    }
}

/// The encoding of a `bool`.
pub open spec fn enc_bool(v: bool) -> Seq<u8> {
    seq![tag_byte(Kind::Byte, if v { 1 } else { 0 })]
}

/// The encoding of a multi-byte unsigned integer of width `w` bytes under
/// the integer policy `ip`. Varint: inline in the tag when small, else the
/// sentinel and the varint. Fixed: always the sentinel and `w` bytes.
pub open spec fn enc_uint(v: nat, w: nat, ip: IntEncoding) -> Seq<u8> {
    match ip {
        IntEncoding::Varint => if v < MARK_NONE {
            seq![tag_byte(Kind::Continuation, v as u8)]
        } else {
            seq![tag_byte(Kind::Continuation, MARK_NONE)] + cont_enc(v)
        },
        IntEncoding::Fixed(bo) => seq![tag_byte(Kind::Continuation, MARK_NONE)] + fixed_bytes(
            v,
            w,
            bo,
        ),
    }
}

/// The encoding of a byte run: a `Prefix` header with its length, then the
/// bytes themselves.
pub open spec fn enc_bytes(payload: Seq<u8>, lp: IntEncoding) -> Seq<u8> {
    enc_header(Kind::Prefix, payload.len() as nat, lp) + payload
}

/// The single byte that marks an absent option.
pub open spec fn enc_none() -> Seq<u8> {
    seq![tag_byte(Kind::Sequence, 0)]
}

/// The byte that marks a present option; the value follows it.
pub open spec fn enc_some_marker() -> Seq<u8> {
    seq![tag_byte(Kind::Sequence, 1)]
}

/// The byte that marks a variant; its discriminant and payload follow it.
pub open spec fn enc_variant_marker() -> Seq<u8> {
    seq![tag_byte(Kind::Sequence, 2)]
}

/// Parse a `u8` from the front of `s`.
pub open spec fn u8_parse(s: Seq<u8>) -> Option<(u8, nat)> {
    if s.len() > 0 && kind_of(s[0]) == Kind::Byte {
        if data_of(s[0]) < MARK_NONE {
            Some((data_of(s[0]), 1))
        } else if s.len() >= 2 {
            Some((s[1], 2))
        } else {
            None
        }
    } else {
        None
    }
}

/// Parse a `bool` from the front of `s`. Only the two exact byte patterns
/// are accepted.
pub open spec fn bool_parse(s: Seq<u8>) -> Option<(bool, nat)> {
    if s.len() > 0 && s[0] == tag_byte(Kind::Byte, 0) {
        Some((false, 1))
    } else if s.len() > 0 && s[0] == tag_byte(Kind::Byte, 1) {
        Some((true, 1))
    } else {
        None
    }
}

/// Parse a multi-byte unsigned integer of width `w` under policy `ip`: the
/// value before any width check, and the bytes consumed.
pub open spec fn uint_parse(s: Seq<u8>, w: nat, ip: IntEncoding) -> Option<(nat, nat)> {
    if s.len() > 0 && kind_of(s[0]) == Kind::Continuation {
        match ip {
            IntEncoding::Varint => if data_of(s[0]) < MARK_NONE {
                Some((data_of(s[0]) as nat, 1))
            } else {
                match cont_parse(s.skip(1)) {
                    None => None,
                    Some((v, k)) => Some((v, 1 + k)),
                }
            },
            IntEncoding::Fixed(bo) => if data_of(s[0]) == MARK_NONE && s.len() >= 1 + w {
                Some((fixed_val(s.skip(1).take(w as int), bo), 1 + w))
            } else {
                None
            },
        }
    } else {
        None
    }
}

/// Parse a `Prefix` header and its payload: the payload bytes and the total
/// bytes consumed.
pub open spec fn bytes_parse(s: Seq<u8>, lp: IntEncoding) -> Option<(Seq<u8>, nat)> {
    if s.len() > 0 && kind_of(s[0]) == Kind::Prefix {
        match data_parse(data_of(s[0]), s.skip(1), lp) {
            None => None,
            Some((len, c)) => if 1 + c + len <= s.len() {
                Some((s.skip(1 + c as int).take(len as int), 1 + c + len))
            } else {
                None
            },
        }
    } else {
        None
    }
}

/// Parse a header of kind `k`: the length or count it carries and the bytes
/// consumed.
pub open spec fn header_parse(s: Seq<u8>, k: Kind, lp: IntEncoding) -> Option<(nat, nat)> {
    if s.len() > 0 && kind_of(s[0]) == k {
        match data_parse(data_of(s[0]), s.skip(1), lp) {
            None => None,
            Some((count, c)) => Some((count, 1 + c)),
        }
    } else {
        None
    }
}

/// A `u8` encoding is one well-formed value and parses back to its value,
/// whatever follows it.
pub proof fn lemma_u8_round_trip(v: u8, rest: Seq<u8>)
    ensures
        u8_parse(enc_u8(v) + rest) == Some((v, enc_u8(v).len() as nat)),
        forall|lp: IntEncoding| is_value(enc_u8(v), lp),
{
    if v < MARK_NONE {
        crate::tag::lemma_tag_byte_inverts(Kind::Byte, v);
    } else {
        crate::tag::lemma_tag_byte_inverts(Kind::Byte, MARK_NONE);
    }
    assert((enc_u8(v) + rest)[0] == enc_u8(v)[0]);
}

/// A `bool` encoding is one well-formed value and parses back to its value.
pub proof fn lemma_bool_round_trip(v: bool, rest: Seq<u8>)
    ensures
        bool_parse(enc_bool(v) + rest) == Some((v, 1nat)),
        forall|lp: IntEncoding| is_value(enc_bool(v), lp),
{
    crate::tag::lemma_tag_byte_inverts(Kind::Byte, if v { 1 } else { 0 });
    assert((enc_bool(v) + rest)[0] == enc_bool(v)[0]);
}

/// An unsigned integer encoding parses back to its value, whatever follows
/// it; for values that fit the width, under the varint policy, it is also
/// one skippable well-formed value.
pub proof fn lemma_uint_round_trip(v: nat, w: nat, ip: IntEncoding, rest: Seq<u8>)
    requires
        1 <= w <= 16,
        v < vstd::arithmetic::power::pow(256, w),
    ensures
        uint_parse(enc_uint(v, w, ip) + rest, w, ip) == Some((v, enc_uint(v, w, ip).len() as nat)),
        forall|lp: IntEncoding| ip == IntEncoding::Varint ==> #[trigger] is_value(
            enc_uint(v, w, ip),
            lp,
        ),
{
    let e = enc_uint(v, w, ip);
    let s = e + rest;
    vstd::arithmetic::power::lemma_pow_increases(256, w, 16);
    crate::integer::lemma_pow256_16();
    match ip {
        IntEncoding::Varint => {
            if v < MARK_NONE {
                crate::tag::lemma_tag_byte_inverts(Kind::Continuation, v as u8);
            } else {
                crate::tag::lemma_tag_byte_inverts(Kind::Continuation, MARK_NONE);
                lemma_cont_round_trip(v, rest);
                assert(s.skip(1) =~= cont_enc(v) + rest);
                lemma_cont_round_trip(v, Seq::empty());
                assert(e.skip(1) =~= cont_enc(v) + Seq::<u8>::empty());
                assert(e.skip(1) =~= cont_enc(v));
            }
            assert(s[0] == e[0]);
        },
        IntEncoding::Fixed(bo) => {
            crate::tag::lemma_tag_byte_inverts(Kind::Continuation, MARK_NONE);
            crate::integer::lemma_fixed_round_trip(v, w, bo);
            assert(s[0] == e[0]);
            assert(s.skip(1).take(w as int) =~= fixed_bytes(v, w, bo));
        },
    }
}

/// A byte-run encoding is one well-formed value and parses back to its
/// payload, whatever follows it.
pub proof fn lemma_bytes_round_trip(payload: Seq<u8>, lp: IntEncoding, rest: Seq<u8>)
    requires
        payload.len() <= usize::MAX,
    ensures
        bytes_parse(enc_bytes(payload, lp) + rest, lp) == Some(
            (payload, enc_bytes(payload, lp).len() as nat),
        ),
        is_value(enc_bytes(payload, lp), lp),
{
    let n = payload.len() as nat;
    let h = enc_header(Kind::Prefix, n, lp);
    let e = enc_bytes(payload, lp);
    let s = e + rest;
    if n < MARK_NONE {
        crate::tag::lemma_tag_byte_inverts(Kind::Prefix, n as u8);
        assert(s[0] == tag_byte(Kind::Prefix, n as u8));
        assert(e[0] == tag_byte(Kind::Prefix, n as u8));
        assert(s.skip(1).take(n as int) =~= payload);
        assert(e.skip(1).take(n as int) =~= payload);
        assert(e.skip(1) =~= payload);
    } else {
        crate::tag::lemma_tag_byte_inverts(Kind::Prefix, MARK_NONE);
        assert(s[0] == tag_byte(Kind::Prefix, MARK_NONE));
        assert(e[0] == tag_byte(Kind::Prefix, MARK_NONE));
        let c = len_payload(n, lp).len();
        assert(s.skip(1) =~= len_payload(n, lp) + (payload + rest));
        assert(e.skip(1) =~= len_payload(n, lp) + payload);
        lemma_len_payload_parse(n, payload + rest, lp);
        lemma_len_payload_parse(n, payload, lp);
        assert(s.skip(1 + c as int).take(n as int) =~= payload);
        assert(e.skip(1 + c as int).take(n as int) =~= payload);
    }
}

/// A header of kind `k` parses back to its count, whatever follows it.
pub proof fn lemma_header_round_trip(k: Kind, n: nat, rest: Seq<u8>, lp: IntEncoding)
    requires
        n <= usize::MAX,
    ensures
        header_parse(enc_header(k, n, lp) + rest, k, lp) == Some(
            (n, enc_header(k, n, lp).len() as nat),
        ),
{
    let h = enc_header(k, n, lp);
    let s = h + rest;
    if n < MARK_NONE {
        crate::tag::lemma_tag_byte_inverts(k, n as u8);
        assert(s[0] == tag_byte(k, n as u8));
    } else {
        crate::tag::lemma_tag_byte_inverts(k, MARK_NONE);
        assert(s[0] == tag_byte(k, MARK_NONE));
        assert(s.skip(1) =~= len_payload(n, lp) + rest);
        lemma_len_payload_parse(n, rest, lp);
    }
}

} // verus!
