//! Continuation varints: little-endian 7-bit groups, high bit set meaning
//! "more groups follow". The encoding is canonical: a decoder rejects any
//! encoding whose trailing groups are zero, and any value that overflows the
//! target width.

use vstd::prelude::*;
use crate::error::Error;
use crate::reader::Reader;

verus! {

/// The canonical continuation encoding of `n`: the low 7 bits first, the
/// high bit of every group but the last set.
pub open spec fn cont_enc(n: nat) -> Seq<u8>
    decreases n,
{
    if n < 128 {
        seq![n as u8]
    } else {
        seq![(128 + n % 128) as u8] + cont_enc(n / 128)
    }
}

/// Parse one canonical continuation varint from the front of `s`: the value
/// and the count of bytes it occupies. `None` on truncation, and on a
/// non-canonical encoding whose trailing groups are zero.
pub open spec fn cont_parse(s: Seq<u8>) -> Option<(nat, nat)>
    decreases s.len(),
{
    if s.len() == 0 {
        None
    } else if s[0] < 128 {
        Some((s[0] as nat, 1))
    } else {
        match cont_parse(s.skip(1)) {
            None => None,
            Some((v, k)) => if v == 0 {
                None
            } else {
                Some((v * 128 + (s[0] - 128) as nat, k + 1))
            },
        }
    }
}

/// A parse that fails does so for one of two reasons; this tells them
/// apart: the bytes ran out before a group with the high bit clear. The
/// other failure is a non-canonical encoding, whose trailing groups are
/// zero.
pub open spec fn cont_truncated(s: Seq<u8>) -> bool
    decreases s.len(),
{
    if s.len() == 0 {
        true
    } else if s[0] < 128 {
        false
    } else {
        cont_truncated(s.skip(1))
    }
}

/// A parse of two or more groups carries at least `128^(k-1)`: the last
/// group of a canonical encoding is never zero.
pub proof fn lemma_cont_parse_min_value(s: Seq<u8>)
    ensures
        cont_parse(s) matches Some(vk) ==> (vk.1 >= 2 ==> vk.0 >= vstd::arithmetic::power::pow(
            128,
            (vk.1 - 1) as nat,
        )),
    decreases s.len(),
{
    if s.len() > 0 && s[0] >= 128 {
        lemma_cont_parse_min_value(s.skip(1));
        if let Some((v, k)) = cont_parse(s.skip(1)) {
            if v != 0 {
                let p1 = vstd::arithmetic::power::pow(128, (k - 1) as nat);
                vstd::arithmetic::power::lemma_pow_positive(128, (k - 1) as nat);
                vstd::arithmetic::power::lemma_pow0(128);
                vstd::arithmetic::power::lemma_pow1(128);
                if k >= 2 {
                    assert(v * 128 >= p1 * 128) by (nonlinear_arith)
                        requires
                            v >= p1,
                            p1 >= 1;
                } else {
                    assert(v * 128 >= 1 * 128) by (nonlinear_arith)
                        requires
                            v >= 1;
                }
                assert(vstd::arithmetic::power::pow(128, k as nat) == 128 * vstd::arithmetic::power::pow(
                    128,
                    (k - 1) as nat,
                )) by {
                    vstd::arithmetic::power::lemma_pow1(128);
                    vstd::arithmetic::power::lemma_pow_adds(128, 1, (k - 1) as nat);
                }
            }
        }
    }
}

/// A value that fits a `u128` occupies at most `ceil(128 / 7) == 19`
/// groups.
pub proof fn lemma_cont_max_groups(s: Seq<u8>)
    ensures
        cont_parse(s) matches Some(vk) ==> (vk.0 <= u128::MAX ==> vk.1 <= 19),
{
    lemma_cont_parse_min_value(s);
    if let Some((v, k)) = cont_parse(s) {
        if v <= u128::MAX && k >= 20 {
            vstd::arithmetic::power::lemma_pow_increases(128, 19, (k - 1) as nat);
            assert(vstd::arithmetic::power::pow(128, 19) > u128::MAX) by {
                vstd::arithmetic::power2::lemma_pow2(7);
                vstd::arithmetic::power2::lemma_pow2(133);
                vstd::arithmetic::power2::lemma_pow2(128);
                vstd::arithmetic::power2::lemma_pow2(5);
                vstd::arithmetic::power::lemma_pow_multiplies(2, 7, 19);
                vstd::arithmetic::power2::lemma_pow2_adds(128, 5);
                vstd::arithmetic::power2::lemma_pow2_adds(64, 64);
                vstd::arithmetic::power2::lemma2_to64();
            }
        }
    }
}

/// A parse that succeeds did not run short of bytes.
pub proof fn lemma_cont_parse_not_truncated(s: Seq<u8>)
    ensures
        cont_parse(s) is Some ==> !cont_truncated(s),
    decreases s.len(),
{
    if s.len() > 0 && s[0] >= 128 {
        lemma_cont_parse_not_truncated(s.skip(1));
    }
}

/// An encoding is at least one byte, and its last byte has the high bit
/// clear.
pub proof fn lemma_cont_enc_shape(n: nat)
    ensures
        cont_enc(n).len() >= 1,
        cont_enc(n).last() < 128,
    decreases n,
{
    if n >= 128 {
        lemma_cont_enc_shape(n / 128);
        assert(cont_enc(n).last() == cont_enc(n / 128).last());
    }
}

/// Canonicality: the encoding has no trailing zero group. Whenever more than
/// one group is written, the last one is not zero.
pub proof fn lemma_cont_enc_canonical(n: nat)
    ensures
        n >= 1 ==> cont_enc(n).last() != 0,
        cont_enc(n).len() > 1 ==> cont_enc(n).last() != 0,
    decreases n,
{
    if n >= 128 {
        lemma_cont_enc_canonical(n / 128);
        assert(cont_enc(n).last() == cont_enc(n / 128).last());
    }
}

/// Round trip: parsing an encoding, whatever follows it, gives back the
/// value and consumes exactly the encoding.
pub proof fn lemma_cont_round_trip(n: nat, rest: Seq<u8>)
    ensures
        cont_parse(cont_enc(n) + rest) == Some((n, cont_enc(n).len())),
    decreases n,
{
    let s = cont_enc(n) + rest;
    if n < 128 {
        assert(s[0] == n);
    } else {
        lemma_cont_round_trip(n / 128, rest);
        assert(s.skip(1) =~= cont_enc(n / 128) + rest);
        lemma_cont_enc_canonical(n / 128);
        assert(s[0] == 128 + n % 128);
        assert((n / 128) * 128 + n % 128 == n) by (nonlinear_arith);
    }
}

/// A successful parse consumes at least one byte and at most all of them.
pub proof fn lemma_cont_parse_bounds(s: Seq<u8>)
    ensures
        cont_parse(s) matches Some(vk) ==> 1 <= vk.1 <= s.len(),
    decreases s.len(),
{
    if s.len() > 0 && s[0] >= 128 {
        lemma_cont_parse_bounds(s.skip(1));
    }
}

/// Extending the input past a successful parse does not change it.
pub proof fn lemma_cont_parse_extend(s: Seq<u8>, t: Seq<u8>)
    ensures
        cont_parse(s) matches Some(vk) ==> cont_parse(s + t) == Some(vk),
    decreases s.len(),
{
    if s.len() > 0 {
        assert((s + t)[0] == s[0]);
        if s[0] >= 128 {
            lemma_cont_parse_extend(s.skip(1), t);
            assert((s + t).skip(1) =~= s.skip(1) + t);
        }
    }
}

/// A parse is what the value's own encoding spells: if the parse gives `v`
/// in `k` bytes, the first `k` bytes are `cont_enc(v)`.
pub proof fn lemma_cont_parse_is_enc(s: Seq<u8>)
    ensures
        cont_parse(s) matches Some(vk) ==> s.take(vk.1 as int) == cont_enc(vk.0),
    decreases s.len(),
{
    if s.len() > 0 && s[0] >= 128 {
        lemma_cont_parse_is_enc(s.skip(1));
        lemma_cont_parse_bounds(s.skip(1));
        if let Some((v, k)) = cont_parse(s.skip(1)) {
            if v != 0 {
                assert(cont_parse(s) == Some(((v * 128 + (s[0] - 128) as nat), (k + 1) as nat)));
                let m = v * 128 + (s[0] - 128) as nat;
                assert(m >= 128) by (nonlinear_arith)
                    requires v >= 1, m == v * 128 + (s[0] - 128) as nat;
                assert(m % 128 == (s[0] - 128) as nat && m / 128 == v) by (nonlinear_arith)
                    requires m == v * 128 + (s[0] - 128) as nat, ((s[0] - 128) as nat) < 128;
                assert(s.take(k as int + 1)[0] == s[0]);
                assert(s.take(k as int + 1).skip(1) =~= s.skip(1).take(k as int));
                assert(s.take(k as int + 1) =~= seq![(128 + m % 128) as u8] + cont_enc(m / 128));
            }
        }
    } else if s.len() > 0 {
        assert(s.take(1) =~= seq![s[0]]);
    }
}

/// Encode `v` onto the end of `out`.
pub fn encode(out: &mut Vec<u8>, v: u128)
    ensures
        final(out)@ == old(out)@ + cont_enc(v as nat),
    decreases v,
{
    if v < 128 {
        out.push(v as u8);
        proof {
            assert(final(out)@ =~= old(out)@ + cont_enc(v as nat));
        }
    } else {
        out.push(128 + (v % 128) as u8);
        encode(out, v / 128);
        proof {
            assert(final(out)@ =~= old(out)@ + cont_enc(v as nat));
        }
    }
}

/// Decode one canonical continuation varint as a `u128`. The reader moves
/// exactly past the varint on success. `Truncated` when the bytes run out
/// before a final group, `Overflow` on a non-canonical encoding and on a
/// value beyond `u128`.
pub fn decode(r: &mut Reader<'_>) -> (res: Result<u128, Error>)
    requires
        old(r).wf(),
    ensures
        final(r).wf(),
        final(r).spec_data() == old(r).spec_data(),
        final(r).spec_end() == old(r).spec_end(),
        final(r).spec_pos() >= old(r).spec_pos(),
        match cont_parse(old(r).rem()) {
            Some(vk) => if vk.0 <= u128::MAX {
                res == Ok::<u128, Error>(vk.0 as u128) && final(r).spec_pos() == old(r).spec_pos() + vk.1
            } else {
                res == Err::<u128, Error>(Error::Overflow)
            },
            None => res == Err::<u128, Error>(
                if cont_truncated(old(r).rem()) {
                    Error::Truncated
                } else {
                    Error::Overflow
                },
            ),
        },
    decreases old(r).rem().len(),
{
    let b = match r.read_byte() {
        Ok(b) => b,
        Err(e) => {
            return Err(e);
        },
    };
    if b < 128 {
        Ok(b as u128)
    } else {
        let rest = match decode(r) {
            Ok(v) => v,
            Err(e) => {
                return Err(e);
            },
        };
        if rest == 0 {
            proof {
                lemma_cont_parse_not_truncated(old(r).rem().skip(1));
            }
            return Err(Error::Overflow);
        }
        if rest > (u128::MAX - (b - 128) as u128) / 128 {
            proof {
                let vv = cont_parse(old(r).rem().skip(1)).unwrap().0;
                let total = cont_parse(old(r).rem()).unwrap().0;
                let low = (b - 128) as nat;
                let cap = (u128::MAX - (b - 128) as u128) as nat;
                assert(total == vv * 128 + low);
                assert(total > u128::MAX) by (nonlinear_arith)
                    requires
                        total == vv * 128 + low,
                        vv > cap / 128,
                        cap == u128::MAX - low;
            }
            return Err(Error::Overflow);
        }
        proof {
            let vv = cont_parse(old(r).rem().skip(1)).unwrap().0;
            let low = (b - 128) as nat;
            let cap = (u128::MAX - (b - 128) as u128) as nat;
            assert(vv * 128 + low <= u128::MAX) by (nonlinear_arith)
                requires
                    vv <= cap / 128,
                    cap == u128::MAX - low,
                    low < 128;
        }
        Ok(rest * 128 + (b - 128) as u128)
    }
}

} // verus!
