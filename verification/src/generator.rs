//! The perfect-hash generator: a two-level compress-hash-displace build
//! over a set of byte-string keys, and the constant-time lookup against a
//! built table.
//!
//! Keys are partitioned into `ceil(n / 5)` buckets by `g`; buckets are
//! sorted ascending by size and assigned from the largest down, and for
//! each one a displacement pair `(d1, d2)` is searched so that every key of
//! the bucket lands on a free slot. A
//! successful build places every key, which is what the `phf_ok` invariant
//! states and `try_generate_hash` proves.

use vstd::prelude::*;
use vstd::pervasive::VecAdditionalExecFns;
use rand::Rng;
use rand::SeedableRng;
use crate::error::Error;
use crate::hashing::displace;
use crate::hashing::hash;
use crate::hashing::spec_displace;
use crate::hashing::spec_hashes;
use crate::hashing::HashKey;
use crate::hashing::Hashes;

verus! {

/// Keys per bucket the table is laid out for.
pub const DEFAULT_LAMBDA: usize = 5;

/// The fixed seed the candidate-key generator starts from, so that two
/// builds over the same keys draw the same candidates.
pub const FIXED_SEED: u64 = 1234567890;

/// How many candidate seeds are tried before the build gives up.
pub const MAX_SEED_ATTEMPTS: u64 = 100000;

/// A displacement pair, stored per bucket.
#[derive(Clone, Copy, PartialEq, Eq, Structural, Debug)]
pub struct Entry {
    pub d1: u32,
    pub d2: u32,
}

impl Entry {
    /// The pair `(d1, d2)`.
    pub fn new(d1: u32, d2: u32) -> (r: Entry)
        ensures
            r.d1 == d1,
            r.d2 == d2,
    {
        Entry { d1, d2 }
    }
}

/// A built table: the seed that worked, one displacement pair per bucket,
/// and the slot-to-entry map.
#[derive(Debug)]
pub struct HashState {
    /// The seed under which every placement verifies.
    pub key: HashKey,
    /// One displacement pair per bucket.
    pub displacements: Vec<Entry>,
    /// For each slot, the index of the entry placed there.
    pub map: Vec<usize>,
}

/// The number of buckets a table of `n` entries uses: `ceil(n / 5)`.
pub open spec fn spec_displacements_len(n: nat) -> nat {
    (n + 4) / 5
}

/// Calculate the displacements length for `len` entries.
pub fn displacements_len(len: usize) -> (r: usize)
    ensures
        r == spec_displacements_len(len as nat),
{
    let r = len / DEFAULT_LAMBDA + if len % DEFAULT_LAMBDA != 0 {
        1
    } else {
        0
    };
    proof {
        assert(r == (len as nat + 4) / 5) by (nonlinear_arith)
            requires
                r == len as nat / 5 + if len as nat % 5 != 0 {
                    1nat
                } else {
                    0nat
                };
    }
    r
}

/// The views of a list of byte-string keys.
pub open spec fn key_views(entries: Seq<Vec<u8>>) -> Seq<Seq<u8>> {
    entries.map_values(|v: Vec<u8>| v@)
}

/// The bucket a key falls in, out of `nb` buckets.
pub open spec fn bucket_of(key: Seq<u8>, seed: u64, nb: nat) -> nat
    recommends
        nb > 0,
{
    (spec_hashes(key, seed).g as nat) % nb
}

/// The slot a key lands on: its bucket's displacement pair folded into its
/// hashes, modulo the table length.
pub open spec fn slot_of(key: Seq<u8>, seed: u64, disps: Seq<Entry>, n: nat) -> nat
    recommends
        n > 0,
        disps.len() > 0,
{
    let h = spec_hashes(key, seed);
    let e = disps[bucket_of(key, seed, disps.len()) as int];
    (spec_displace(h.f1, h.f2, e.d1, e.d2) as nat) % n
}

/// What a successful build guarantees: the map and displacements have
/// their laid-out lengths, every key's slot holds that key's own entry
/// index, and every slot holds a valid entry index.
pub open spec fn phf_ok(keys: Seq<Seq<u8>>, st: HashState) -> bool {
    let n = keys.len();
    &&& st.map@.len() == n
    &&& st.displacements@.len() == spec_displacements_len(n)
    &&& forall|i: int|
        0 <= i < n ==> st.map@[#[trigger] slot_of(keys[i], st.key, st.displacements@, n) as int]
            == i
    &&& forall|s: int| 0 <= s < n ==> #[trigger] st.map@[s] < n
}

/// What a lookup needs of a table, stated over the table alone.
pub open spec fn table_wf(st: HashState) -> bool {
    &&& st.map@.len() > 0
    &&& st.displacements@.len() == spec_displacements_len(st.map@.len())
    &&& forall|s: int| 0 <= s < st.map@.len() ==> #[trigger] st.map@[s] < st.map@.len()
}

/// A successful build over at least one key is a table a lookup can use.
pub proof fn lemma_phf_ok_table_wf(keys: Seq<Seq<u8>>, st: HashState)
    requires
        phf_ok(keys, st),
        keys.len() > 0,
    ensures
        table_wf(st),
{
}

/// Totality: after a successful build over `keys`, any key equal to the
/// set's `i`-th key lands on a slot that holds exactly `i`. A key outside
/// the set lands on some valid entry index, whose key then differs from it.
pub proof fn lemma_phf_totality(keys: Seq<Seq<u8>>, st: HashState, i: int, k: Seq<u8>)
    requires
        phf_ok(keys, st),
        0 <= i < keys.len(),
        k == keys[i],
    ensures
        st.map@[slot_of(k, st.key, st.displacements@, keys.len()) as int] == i,
{
}

/// The hashes of every key under a seed.
pub open spec fn spec_hash_seq(keys: Seq<Seq<u8>>, seed: u64) -> Seq<Hashes> {
    keys.map_values(|k: Seq<u8>| spec_hashes(k, seed))
}

/// The members of bucket `b` among the first `upto` keys, in key order.
pub open spec fn bucket_prefix(hs: Seq<Hashes>, nb: nat, b: nat, upto: nat) -> Seq<usize>
    recommends
        nb > 0,
        upto <= hs.len(),
    decreases upto,
{
    if upto == 0 {
        Seq::empty()
    } else {
        let rest = bucket_prefix(hs, nb, b, (upto - 1) as nat);
        if (hs[upto - 1].g as nat) % nb == b {
            rest.push((upto - 1) as usize)
        } else {
            rest
        }
    }
}

/// All buckets of a table.
pub open spec fn spec_buckets(hs: Seq<Hashes>, nb: nat) -> Seq<Seq<usize>> {
    Seq::new(nb, |b: int| bucket_prefix(hs, nb, b as nat, hs.len()))
}

/// The ids below `c` of buckets of length exactly `l`, ascending.
pub open spec fn order_pass(bs: Seq<Seq<usize>>, l: nat, c: nat) -> Seq<usize>
    recommends
        c <= bs.len(),
    decreases c,
{
    if c == 0 {
        Seq::empty()
    } else {
        let rest = order_pass(bs, l, (c - 1) as nat);
        if bs[c - 1].len() == l {
            rest.push((c - 1) as usize)
        } else {
            rest
        }
    }
}

/// The ids of buckets of length below `l`, grouped ascending by length.
pub open spec fn order_upto(bs: Seq<Seq<usize>>, l: nat) -> Seq<usize>
    decreases l,
{
    if l == 0 {
        Seq::empty()
    } else {
        order_upto(bs, (l - 1) as nat) + order_pass(bs, (l - 1) as nat, bs.len())
    }
}

/// The assignment order over buckets of at most `n` keys: ascending by
/// size. The placement walks it from the end, largest bucket first.
pub open spec fn spec_order(bs: Seq<Seq<usize>>, n: nat) -> Seq<usize> {
    order_upto(bs, n + 1)
}

/// Place the members of `bucket` from position `j` on under `(d1, d2)`,
/// given the slots this attempt has already taken: the placed pairs, or
/// `None` at the first member whose slot is occupied or already taken.
pub open spec fn place_rest(
    bucket: Seq<usize>,
    d1: u32,
    d2: u32,
    map: Seq<usize>,
    hs: Seq<Hashes>,
    j: nat,
    vals: Seq<(usize, usize)>,
) -> Option<Seq<(usize, usize)>>
    recommends
        map.len() >= 1,
        j <= bucket.len(),
    decreases bucket.len() - j,
{
    if j >= bucket.len() {
        Some(vals)
    } else {
        let idx = bucket[j as int];
        let slot = (((spec_displace(hs[idx as int].f1, hs[idx as int].f2, d1, d2) as nat)
            % map.len()) as usize);
        if map[slot as int] != usize::MAX || (exists|u: int|
            0 <= u < vals.len() && (#[trigger] vals[u]).0 == slot) {
            None
        } else {
            place_rest(bucket, d1, d2, map, hs, (j + 1) as nat, vals.push((slot, idx)))
        }
    }
}

/// The first displacement pair at or after `(d1, d2)` in the scan order —
/// `d2` innermost — that places the whole bucket.
pub open spec fn find_from(
    bucket: Seq<usize>,
    map: Seq<usize>,
    hs: Seq<Hashes>,
    n32: u32,
    d1: u32,
    d2: u32,
) -> Option<(u32, u32, Seq<(usize, usize)>)>
    recommends
        map.len() >= 1,
    decreases n32 - d1, n32 - d2,
{
    if d1 >= n32 {
        None
    } else if d2 >= n32 {
        find_from(bucket, map, hs, n32, (d1 + 1) as u32, 0)
    } else {
        match place_rest(bucket, d1, d2, map, hs, 0, Seq::empty()) {
            Some(v) => Some((d1, d2, v)),
            None => find_from(bucket, map, hs, n32, d1, (d2 + 1) as u32),
        }
    }
}

/// The map after the first `t` placed pairs are written into it.
pub open spec fn apply_vals(map: Seq<usize>, vals: Seq<(usize, usize)>, t: nat) -> Seq<usize>
    recommends
        t <= vals.len(),
    decreases t,
{
    if t == 0 {
        map
    } else {
        apply_vals(map, vals, (t - 1) as nat).update(
            vals[t - 1].0 as int,
            vals[t - 1].1,
        )
    }
}

/// The greedy placement, walking the assignment order from position `p`
/// down: each bucket takes the first displacement pair that places it, or
/// the whole search fails.
pub open spec fn place_down(
    order: Seq<usize>,
    bs: Seq<Seq<usize>>,
    hs: Seq<Hashes>,
    map: Seq<usize>,
    disps: Seq<Entry>,
    p: nat,
    n32: u32,
) -> Option<(Seq<usize>, Seq<Entry>)>
    recommends
        p <= order.len(),
        map.len() >= 1,
    decreases p,
{
    if p == 0 {
        Some((map, disps))
    } else {
        let b = order[p - 1];
        match find_from(bs[b as int], map, hs, n32, 0, 0) {
            None => None,
            Some(r) => place_down(
                order,
                bs,
                hs,
                apply_vals(map, r.2, r.2.len()),
                disps.update(b as int, Entry { d1: r.0, d2: r.1 }),
                (p - 1) as nat,
                n32,
            ),
        }
    }
}

/// The whole search under one seed: what `try_generate_hash` computes.
/// `Some` holds the finished map and displacements.
pub open spec fn spec_search(keys: Seq<Seq<u8>>, seed: u64) -> Option<(Seq<usize>, Seq<Entry>)> {
    let n = keys.len();
    let nb = spec_displacements_len(n);
    let hs = spec_hash_seq(keys, seed);
    let bs = spec_buckets(hs, nb);
    let order = spec_order(bs, n);
    place_down(
        order,
        bs,
        hs,
        Seq::new(n, |i: int| usize::MAX),
        Seq::new(nb, |i: int| Entry { d1: 0, d2: 0 }),
        order.len(),
        n as u32,
    )
}

/// Try to place every key of one bucket under the displacement pair
/// `(d1, d2)`: the slots they would take, or `None` as soon as one key
/// lands on an occupied slot or on a slot another key of the bucket took.
#[verifier::loop_isolation(false)]
fn try_place(
    bucket: &Vec<usize>,
    d1: u32,
    d2: u32,
    map: &Vec<usize>,
    hashes: &Vec<Hashes>,
) -> (res: Option<Vec<(usize, usize)>>)
    requires
        map@.len() >= 1,
        forall|t: int| 0 <= t < bucket@.len() ==> #[trigger] bucket@[t] < hashes@.len(),
    ensures
        res matches Some(v) ==> ({
            &&& v@.len() == bucket@.len()
            &&& forall|t: int|
                0 <= t < v@.len() ==> #[trigger] v@[t] == (
                (((spec_displace(
                    hashes@[bucket@[t] as int].f1,
                    hashes@[bucket@[t] as int].f2,
                    d1,
                    d2,
                ) as nat) % map@.len()) as usize),
                bucket@[t],
                )
            &&& forall|t: int| 0 <= t < v@.len() ==> map@[#[trigger] v@[t].0 as int] == usize::MAX
            &&& forall|t1: int, t2: int|
                0 <= t1 < t2 < v@.len() ==> #[trigger] v@[t1].0 != #[trigger] v@[t2].0
        }),
        match place_rest(bucket@, d1, d2, map@, hashes@, 0, Seq::empty()) {
            Some(v) => res matches Some(rv) && rv@ == v,
            None => res is None,
        },
{
    let n = map.len();
    let mut vals: Vec<(usize, usize)> = Vec::new();
    let mut j: usize = 0;
    while j < bucket.len()
        invariant
            j <= bucket@.len(),
            n == map@.len(),
            n >= 1,
            vals@.len() == j,
            place_rest(bucket@, d1, d2, map@, hashes@, 0, Seq::empty()) == place_rest(
                bucket@,
                d1,
                d2,
                map@,
                hashes@,
                j as nat,
                vals@,
            ),
            forall|t: int| 0 <= t < bucket@.len() ==> #[trigger] bucket@[t] < hashes@.len(),
            forall|t: int|
                0 <= t < j ==> #[trigger] vals@[t] == (
                (((spec_displace(
                    hashes@[bucket@[t] as int].f1,
                    hashes@[bucket@[t] as int].f2,
                    d1,
                    d2,
                ) as nat) % map@.len()) as usize),
                bucket@[t],
                ),
            forall|t: int| 0 <= t < j ==> map@[#[trigger] vals@[t].0 as int] == usize::MAX,
            forall|t1: int, t2: int| 0 <= t1 < t2 < j ==> #[trigger] vals@[t1].0 != #[trigger] vals@[t2].0,
        decreases bucket@.len() - j,
    {
        let idx = bucket[j];
        let h = hashes[idx];
        let slot = (displace(h.f1, h.f2, d1, d2) as usize) % n;
        if map[slot] != usize::MAX {
            return None;
        }
        let mut t: usize = 0;
        while t < vals.len()
            invariant
                t <= vals@.len(),
                forall|u: int| 0 <= u < t ==> #[trigger] vals@[u].0 != slot,
            decreases vals@.len() - t,
        {
            if vals[t].0 == slot {
                proof {
                    assert(vals@[t as int].0 == slot);
                    assert(exists|u: int|
                        0 <= u < vals@.len() && (#[trigger] vals@[u]).0 == slot);
                    assert(place_rest(bucket@, d1, d2, map@, hashes@, j as nat, vals@)
                        is None);
                }
                return None;
            }
            t = t + 1;
        }
        proof {
            if exists|u: int| 0 <= u < vals@.len() && (#[trigger] vals@[u]).0 == slot {
                let u = choose|u: int| 0 <= u < vals@.len() && (#[trigger] vals@[u]).0 == slot;
                assert(false);
            }
        }
        vals.push((slot, idx));
        j = j + 1;
    }
    Some(vals)
}

/// Every slot of a table in which every key's slot holds its own index is
/// itself filled with a valid index: the keys' slots are pairwise distinct
/// and as many as the slots.
proof fn lemma_map_filled(keys: Seq<Seq<u8>>, st: HashState)
    requires
        keys.len() > 0,
        st.map@.len() == keys.len(),
        forall|i: int|
            0 <= i < keys.len() ==> st.map@[#[trigger] slot_of(
                keys[i],
                st.key,
                st.displacements@,
                keys.len(),
            ) as int] == i,
    ensures
        forall|s: int| 0 <= s < keys.len() ==> #[trigger] st.map@[s] < keys.len(),
{
    let n = keys.len() as int;
    let f = |i: int| slot_of(keys[i], st.key, st.displacements@, keys.len()) as int;
    let x = vstd::set_lib::set_int_range(0, n);
    let y = x.map(f);
    vstd::set_lib::lemma_int_range(0, n);
    assert(vstd::relations::injective_on(f, x)) by {
        assert forall|a: int, b: int|
            x.contains(a) && x.contains(b) && #[trigger] f(a) == #[trigger] f(b) implies a == b by {
            assert(st.map@[slot_of(keys[a], st.key, st.displacements@, keys.len()) as int] == a);
            assert(st.map@[slot_of(keys[b], st.key, st.displacements@, keys.len()) as int] == b);
        }
    }
    vstd::set_lib::lemma_map_size(x, y, f);
    assert(y.subset_of(x)) by {
        assert forall|s: int| y.contains(s) implies x.contains(s) by {
            let a = choose|a: int| x.contains(a) && #[trigger] f(a) == s;
        }
    }
    vstd::set_lib::lemma_subset_equality(y, x);
    assert forall|s: int| 0 <= s < n implies #[trigger] st.map@[s] < keys.len() by {
        assert(x.contains(s));
        assert(y.contains(s));
        let a = choose|a: int| x.contains(a) && #[trigger] f(a) == s;
        assert(st.map@[s] == a);
    }
}

/// Hash every key under the candidate seed.
fn compute_hashes(entries: &Vec<Vec<u8>>, key: u64) -> (r: Vec<Hashes>)
    ensures
        r@.len() == entries@.len(),
        forall|j: int|
            0 <= j < r@.len() ==> #[trigger] r@[j] == spec_hashes(entries@[j]@, key),
{
    let n = entries.len();
    let mut hashes: Vec<Hashes> = Vec::new();
    let mut idx: usize = 0;
    while idx < n
        invariant
            idx <= n,
            n == entries@.len(),
            hashes@.len() == idx,
            forall|j: int|
                0 <= j < idx ==> #[trigger] hashes@[j] == spec_hashes(entries@[j]@, key),
        decreases n - idx,
    {
        hashes.push(hash(&entries[idx], key));
        idx = idx + 1;
    }
    hashes
}

/// Partition the entry indices into `nb` buckets by `g`.
fn build_buckets(hashes: &Vec<Hashes>, nb: usize) -> (r: Vec<Vec<usize>>)
    requires
        nb >= 1,
    ensures
        r@.len() == nb,
        forall|bb: int, t: int|
            0 <= bb < nb && 0 <= t < r@[bb]@.len() ==> (#[trigger] r@[bb]@[t] < hashes@.len()
                && ((hashes@[r@[bb]@[t] as int].g as nat) % (nb as nat)) == bb),
        forall|bb: int| 0 <= bb < nb ==> #[trigger] r@[bb]@.len() <= hashes@.len(),
        forall|i: int|
            0 <= i < hashes@.len() ==> r@[((#[trigger] hashes@[i].g as nat) % (
            nb as nat)) as int]@.contains(i as usize),
        forall|bb: int|
            0 <= bb < nb ==> #[trigger] r@[bb]@ == bucket_prefix(
                hashes@,
                nb as nat,
                bb as nat,
                hashes@.len(),
            ),
{
    broadcast use vstd::seq_lib::lemma_seq_contains_after_push;

    let n = hashes.len();
    let mut buckets: Vec<Vec<usize>> = Vec::new();
    let mut b: usize = 0;
    while b < nb
        invariant
            b <= nb,
            n == hashes@.len(),
            buckets@.len() == b,
            forall|bb: int, t: int|
                0 <= bb < b && 0 <= t < buckets@[bb]@.len() ==> (#[trigger] buckets@[bb]@[t] < n
                    && ((hashes@[buckets@[bb]@[t] as int].g as nat) % (nb as nat)) == bb),
            forall|bb: int| 0 <= bb < b ==> #[trigger] buckets@[bb]@.len() <= n,
            forall|i: int|
                0 <= i < n && (((#[trigger] hashes@[i].g as nat) % (nb as nat)) as int) < b
                    ==> buckets@[((hashes@[i].g as nat) % (nb as nat)) as int]@.contains(
                    i as usize,
                ),
            forall|bb: int|
                0 <= bb < b ==> #[trigger] buckets@[bb]@ == bucket_prefix(
                    hashes@,
                    nb as nat,
                    bb as nat,
                    n as nat,
                ),
        decreases nb - b,
    {
        let mut bucket: Vec<usize> = Vec::new();
        let mut i: usize = 0;
        while i < n
            invariant
                i <= n,
                n == hashes@.len(),
                nb >= 1,
                bucket@.len() <= i,
                forall|t: int|
                    0 <= t < bucket@.len() ==> (#[trigger] bucket@[t] < n && ((hashes@[bucket@[
                        t
                    ] as int].g as nat) % (nb as nat)) == b),
                forall|j: int|
                    0 <= j < i && ((#[trigger] hashes@[j].g as nat) % (nb as nat)) == b
                        ==> bucket@.contains(j as usize),
                bucket@ == bucket_prefix(hashes@, nb as nat, b as nat, i as nat),
            decreases n - i,
        {
            if (hashes[i].g as usize) % nb == b {
                let ghost prev = bucket@;
                bucket.push(i);
                proof {
                    assert(bucket@ == prev.push(i as usize));
                    assert forall|x: usize| prev.contains(x) || x == i implies bucket@.contains(
                        x,
                    ) by {
                        vstd::seq_lib::lemma_seq_contains_after_push(prev, i, x);
                    }
                }
                proof {
                    assert forall|j: int|
                        0 <= j < i + 1 && ((#[trigger] hashes@[j].g as nat) % (nb as nat))
                            == b implies bucket@.contains(j as usize) by {
                        if j < i {
                            assert(prev.contains(j as usize));
                        } else {
                            assert(bucket@[prev.len() as int] == i);
                            assert(bucket@.contains(i));
                        }
                    }
                }
            }
            i = i + 1;
        }
        buckets.push(bucket);
        b = b + 1;
    }
    buckets
}

/// The bucket ids, ascending by bucket size; ids of equally long buckets
/// keep their own order, and every id appears exactly once. The placement
/// walks this list from its end, so the largest bucket is assigned first,
/// while the map is emptiest.
#[verifier::loop_isolation(false)]
fn sort_bucket_order(buckets: &Vec<Vec<usize>>, n: usize) -> (r: Vec<usize>)
    requires
        n < usize::MAX,
        forall|bb: int| 0 <= bb < buckets@.len() ==> #[trigger] buckets@[bb]@.len() <= n,
    ensures
        forall|t: int| 0 <= t < r@.len() ==> #[trigger] r@[t] < buckets@.len(),
        forall|t1: int, t2: int|
            0 <= t1 < t2 < r@.len() ==> #[trigger] r@[t1] != #[trigger] r@[t2],
        forall|bb: int| 0 <= bb < buckets@.len() ==> #[trigger] r@.contains(bb as usize),
        r@ == spec_order(buckets@.map_values(|v: Vec<usize>| v@), n as nat),
{
    broadcast use vstd::seq_lib::lemma_seq_contains_after_push;

    let ghost bs = buckets@.map_values(|v: Vec<usize>| v@);
    let nb = buckets.len();
    let mut order: Vec<usize> = Vec::new();
    let mut l: usize = 0;
    while l <= n
        invariant
            l <= n + 1,
            n < usize::MAX,
            nb == buckets@.len(),
            forall|bb: int| 0 <= bb < nb ==> #[trigger] buckets@[bb]@.len() <= n,
            forall|t: int| 0 <= t < order@.len() ==> #[trigger] order@[t] < nb,
            forall|t1: int, t2: int|
                0 <= t1 < t2 < order@.len() ==> #[trigger] order@[t1] != #[trigger] order@[t2],
            forall|t: int|
                0 <= t < order@.len() ==> #[trigger] buckets@[order@[t] as int]@.len() < l,
            forall|bb: int|
                0 <= bb < nb && #[trigger] buckets@[bb]@.len() < l ==> order@.contains(
                    bb as usize,
                ),
            order@ == order_upto(bs, l as nat),
        decreases n + 1 - l,
    {
        proof {
            assert(order_upto(bs, l as nat) + order_pass(bs, l as nat, 0) =~= order_upto(
                bs,
                l as nat,
            ));
        }
        let mut c: usize = 0;
        while c < nb
            invariant
                c <= nb,
                l <= n,
                n < usize::MAX,
                nb == buckets@.len(),
                forall|bb: int| 0 <= bb < nb ==> #[trigger] buckets@[bb]@.len() <= n,
                forall|t: int| 0 <= t < order@.len() ==> #[trigger] order@[t] < nb,
                forall|t1: int, t2: int|
                    0 <= t1 < t2 < order@.len() ==> #[trigger] order@[t1] != #[trigger] order@[
                        t2
                    ],
                forall|t: int|
                    0 <= t < order@.len() ==> (#[trigger] buckets@[order@[t] as int]@.len() < l
                        || (buckets@[order@[t] as int]@.len() == l && order@[t] < c)),
                forall|bb: int|
                    0 <= bb < nb && (#[trigger] buckets@[bb]@.len() < l || (buckets@[bb]@.len()
                        == l && bb < c)) ==> order@.contains(bb as usize),
                order@ == order_upto(bs, l as nat) + order_pass(bs, l as nat, c as nat),
            decreases nb - c,
        {
            if buckets[c].len() == l {
                proof {
                    if order@.contains(c as usize) {
                        let t = choose|t: int| 0 <= t < order@.len() && order@[t] == c as usize;
                        assert(false);
                    }
                }
                let ghost prev = order@;
                order.push(c);
                proof {
                    assert(order@ == prev.push(c));
                    assert forall|x: usize| prev.contains(x) || x == c implies order@.contains(
                        x,
                    ) by {
                        vstd::seq_lib::lemma_seq_contains_after_push(prev, c, x);
                    }
                }
            }
            proof {
                assert(bs[c as int] == buckets@[c as int]@);
                if buckets@[c as int]@.len() == l {
                    assert(order_pass(bs, l as nat, (c + 1) as nat) == order_pass(
                        bs,
                        l as nat,
                        c as nat,
                    ).push(c));
                    assert(order@ =~= order_upto(bs, l as nat) + order_pass(
                        bs,
                        l as nat,
                        (c + 1) as nat,
                    ));
                } else {
                    assert(order_pass(bs, l as nat, (c + 1) as nat) == order_pass(
                        bs,
                        l as nat,
                        c as nat,
                    ));
                }
            }
            c = c + 1;
        }
        proof {
            assert(order@ == order_upto(bs, (l + 1) as nat));
        }
        l = l + 1;
    }
    proof {
        assert forall|bb: int| 0 <= bb < nb implies #[trigger] order@.contains(bb as usize) by {
            assert(buckets@[bb]@.len() <= n);
        }
    }
    order
}

/// Search the displacement pairs in order for one that places the whole
/// bucket on free, pairwise distinct slots.
#[verifier::loop_isolation(false)]
fn find_displacements(
    bucket: &Vec<usize>,
    map: &Vec<usize>,
    hashes: &Vec<Hashes>,
    n32: u32,
) -> (res: Option<(u32, u32, Vec<(usize, usize)>)>)
    requires
        map@.len() >= 1,
        forall|t: int| 0 <= t < bucket@.len() ==> #[trigger] bucket@[t] < hashes@.len(),
    ensures
        res matches Some(r) ==> ({
            &&& r.2@.len() == bucket@.len()
            &&& forall|t: int|
                0 <= t < r.2@.len() ==> #[trigger] r.2@[t] == (
                (((spec_displace(
                    hashes@[bucket@[t] as int].f1,
                    hashes@[bucket@[t] as int].f2,
                    r.0,
                    r.1,
                ) as nat) % map@.len()) as usize),
                bucket@[t],
                )
            &&& forall|t: int|
                0 <= t < r.2@.len() ==> map@[#[trigger] r.2@[t].0 as int] == usize::MAX
            &&& forall|t1: int, t2: int|
                0 <= t1 < t2 < r.2@.len() ==> #[trigger] r.2@[t1].0 != #[trigger] r.2@[t2].0
        }),
        match find_from(bucket@, map@, hashes@, n32, 0, 0) {
            Some(f) => res matches Some(r) && r.0 == f.0 && r.1 == f.1 && r.2@ == f.2,
            None => res is None,
        },
{
    let mut d1: u32 = 0;
    while d1 < n32
        invariant
            map@.len() >= 1,
            forall|t: int| 0 <= t < bucket@.len() ==> #[trigger] bucket@[t] < hashes@.len(),
            d1 <= n32,
            find_from(bucket@, map@, hashes@, n32, 0, 0) == find_from(
                bucket@,
                map@,
                hashes@,
                n32,
                d1,
                0,
            ),
        decreases n32 - d1,
    {
        let mut d2: u32 = 0;
        while d2 < n32
            invariant
                map@.len() >= 1,
                forall|t: int| 0 <= t < bucket@.len() ==> #[trigger] bucket@[t] < hashes@.len(),
                d1 < n32,
                d2 <= n32,
                find_from(bucket@, map@, hashes@, n32, 0, 0) == find_from(
                    bucket@,
                    map@,
                    hashes@,
                    n32,
                    d1,
                    d2,
                ),
            decreases n32 - d2,
        {
            match try_place(bucket, d1, d2, map, hashes) {
                Some(vals) => {
                    return Some((d1, d2, vals));
                },
                None => {},
            }
            d2 = d2 + 1;
        }
        d1 = d1 + 1;
    }
    None
}

/// Write the placed `(slot, entry)` pairs into the map. Slots outside the
/// pairs keep their value.
fn commit(map: &mut Vec<usize>, vals: &Vec<(usize, usize)>)
    requires
        forall|u: int| 0 <= u < vals@.len() ==> #[trigger] vals@[u].0 < old(map)@.len(),
        forall|u1: int, u2: int|
            0 <= u1 < u2 < vals@.len() ==> #[trigger] vals@[u1].0 != #[trigger] vals@[u2].0,
    ensures
        final(map)@.len() == old(map)@.len(),
        forall|u: int|
            0 <= u < vals@.len() ==> final(map)@[#[trigger] vals@[u].0 as int] == vals@[u].1,
        forall|s: int|
            0 <= s < old(map)@.len() && (forall|u: int|
                0 <= u < vals@.len() ==> (#[trigger] vals@[u].0 as int) != s) ==> final(map)@[s] == old(map)@[s],
        final(map)@ == apply_vals(old(map)@, vals@, vals@.len()),
{
    let mut t: usize = 0;
    while t < vals.len()
        invariant
            t <= vals@.len(),
            map@.len() == old(map)@.len(),
            map@ == apply_vals(old(map)@, vals@, t as nat),
            forall|u: int|
                0 <= u < vals@.len() ==> #[trigger] vals@[u].0 < map@.len(),
            forall|u1: int, u2: int|
                0 <= u1 < u2 < vals@.len() ==> #[trigger] vals@[u1].0 != #[trigger] vals@[u2].0,
            forall|u: int|
                0 <= u < t ==> map@[#[trigger] vals@[u].0 as int] == vals@[u].1,
            forall|s: int|
                0 <= s < map@.len() && (forall|u: int|
                    0 <= u < t ==> (#[trigger] vals@[u].0 as int) != s) ==> map@[s] == old(map)@[s],
        decreases vals@.len() - t,
    {
        let pair = vals[t];
        map.set(pair.0, pair.1);
        t = t + 1;
    }
}

/// Over an empty key set the search trivially succeeds with empty tables.
proof fn lemma_search_empty(keys: Seq<Seq<u8>>, key: u64)
    requires
        keys.len() == 0,
    ensures
        spec_search(keys, key) == Some((Seq::<usize>::empty(), Seq::<Entry>::empty())),
{
    let hs0 = spec_hash_seq(keys, key);
    let bs0 = spec_buckets(hs0, 0);
    assert(bs0 =~= Seq::<Seq<usize>>::empty());
    assert(bs0.len() == 0);
    assert(order_upto(bs0, 0) =~= Seq::<usize>::empty());
    assert(order_pass(bs0, 0, 0) =~= Seq::<usize>::empty());
    assert(order_upto(bs0, 1) =~= Seq::<usize>::empty());
    assert(Seq::new(0nat, |i: int| usize::MAX) =~= Seq::<usize>::empty());
    assert(Seq::new(0nat, |i: int| Entry { d1: 0, d2: 0 }) =~= Seq::<Entry>::empty());
}

/// When every bucket of the partition is placed — each of its members'
/// slots holding the member itself — every key is placed: each key sits in
/// its own bucket, and its bucket stands somewhere in the assignment order.
#[verifier::rlimit(100)]
#[verifier::spinoff_prover]
proof fn lemma_all_placed(
    keys: Seq<Seq<u8>>,
    key: u64,
    nb: nat,
    order: Seq<usize>,
    bviews: Seq<Seq<usize>>,
    m: Seq<usize>,
    d: Seq<Entry>,
)
    requires
        nb >= 1,
        nb <= usize::MAX,
        keys.len() <= usize::MAX,
        d.len() == nb,
        bviews.len() == nb,
        forall|i: int|
            0 <= i < keys.len() ==> bviews[(#[trigger] bucket_of(keys[i], key, nb)) as int]
                .contains(i as usize),
        forall|bb: int| 0 <= bb < nb ==> #[trigger] order.contains(bb as usize),
        forall|q: int, t: int|
            0 <= q < order.len() && 0 <= t < bviews[order[q] as int].len() ==> {
                let i = #[trigger] bviews[order[q] as int][t];
                m[slot_of(keys[i as int], key, d, keys.len()) as int] == i
            },
    ensures
        forall|i: int|
            0 <= i < keys.len() ==> m[#[trigger] slot_of(keys[i], key, d, keys.len()) as int]
                == i,
{
    assert forall|i: int|
        0 <= i < keys.len() implies m[#[trigger] slot_of(keys[i], key, d, keys.len()) as int]
        == i by {
        let bb = bucket_of(keys[i], key, nb) as int;
        assert(0 <= bb < nb);
        assert(bviews[bb].contains(i as usize));
        assert(order.contains(bb as usize));
        let q = choose|q: int| 0 <= q < order.len() && order[q] == bb as usize;
        let tt = choose|tt: int| 0 <= tt < bviews[bb].len() && bviews[bb][tt] == i as usize;
        assert(order[q] as int == bb);
        assert(bviews[order[q] as int][tt] == i as usize);
        assert(m[slot_of(
            keys[bviews[order[q] as int][tt] as int],
            key,
            d,
            keys.len(),
        ) as int] == bviews[order[q] as int][tt]);
    }
}

/// Walk the assignment order from its end and place every bucket: the
/// finished map and displacements, or `None` when some bucket exhausts the
/// displacement search. This is the exec side of [`place_down`].
#[verifier::loop_isolation(false)]
#[verifier::rlimit(100)]
fn place_all(
    order: &Vec<usize>,
    buckets: &Vec<Vec<usize>>,
    hashes: &Vec<Hashes>,
    n: usize,
    nb: usize,
    Ghost(keys): Ghost<Seq<Seq<u8>>>,
    Ghost(key): Ghost<u64>,
) -> (res: Option<(Vec<usize>, Vec<Entry>)>)
    requires
        1 <= n < usize::MAX,
        nb >= 1,
        keys.len() == n,
        hashes@.len() == n,
        buckets@.len() == nb,
        forall|j: int| 0 <= j < n ==> #[trigger] hashes@[j] == spec_hashes(keys[j], key),
        forall|bb: int, t: int|
            0 <= bb < nb && 0 <= t < buckets@[bb]@.len() ==> (#[trigger] buckets@[bb]@[t] < n
                && bucket_of(keys[buckets@[bb]@[t] as int], key, nb as nat) == bb),
        forall|t: int| 0 <= t < order@.len() ==> #[trigger] order@[t] < nb,
        forall|t1: int, t2: int|
            0 <= t1 < t2 < order@.len() ==> #[trigger] order@[t1] != #[trigger] order@[t2],
        order@ == spec_order(spec_buckets(spec_hash_seq(keys, key), nb as nat), n as nat),
        buckets@.map_values(|v: Vec<usize>| v@) == spec_buckets(spec_hash_seq(keys, key), nb as nat),
    ensures
        ({
            let search = place_down(
                order@,
                spec_buckets(spec_hash_seq(keys, key), nb as nat),
                spec_hash_seq(keys, key),
                Seq::new(n as nat, |i: int| usize::MAX),
                Seq::new(nb as nat, |i: int| Entry { d1: 0, d2: 0 }),
                order@.len(),
                n as u32,
            );
            match search {
                Some(md) => res matches Some(r) && r.0@ == md.0 && r.1@ == md.1,
                None => res is None,
            }
        }),
        res matches Some(r) ==> ({
            &&& r.0@.len() == n
            &&& r.1@.len() == nb
            &&& forall|s: int| 0 <= s < n ==> #[trigger] r.0@[s] == usize::MAX || r.0@[s] < n
            &&& forall|q: int, t: int|
                0 <= q < order@.len() && 0 <= t < buckets@[order@[q] as int]@.len() ==> {
                    let i = #[trigger] buckets@[order@[q] as int]@[t];
                    r.0@[slot_of(keys[i as int], key, r.1@, n as nat) as int] == i
                }
        }),
{
    let ghost hs = spec_hash_seq(keys, key);
    let ghost bs = spec_buckets(hs, nb as nat);
    proof {
        assert(hashes@ =~= hs);
    }
    let mut map: Vec<usize> = vec![usize::MAX; n];
    let mut disps: Vec<Entry> = vec![Entry { d1: 0, d2: 0 }; nb];
    let ghost map0 = map@;
    let ghost disps0 = disps@;
    proof {
        assert(map0 =~= Seq::new(n as nat, |i: int| usize::MAX));
        assert(disps0 =~= Seq::new(nb as nat, |i: int| Entry { d1: 0, d2: 0 }));
    }
    let mut p: usize = order.len();
    while p > 0
        invariant
            p <= order@.len(),
            map@.len() == n,
            disps@.len() == nb,
            place_down(order@, bs, hs, map0, disps0, order@.len(), n as u32) == place_down(
                order@,
                bs,
                hs,
                map@,
                disps@,
                p as nat,
                n as u32,
            ),
            forall|s: int| 0 <= s < n ==> (#[trigger] map@[s] == usize::MAX || map@[s] < n),
            forall|q: int, t: int|
                p <= q < order@.len() && 0 <= t < buckets@[order@[q] as int]@.len() ==> {
                    let i = #[trigger] buckets@[order@[q] as int]@[t];
                    map@[slot_of(keys[i as int], key, disps@, n as nat) as int] == i
                },
        decreases p,
    {
        p = p - 1;
        let bidx = order[p];
        let found = find_displacements(&buckets[bidx], &map, &hashes, n as u32);
        let (d1, d2, vals) = match found {
            Some(r) => r,
            None => {
                proof {
                    assert(bs[bidx as int] == buckets@[bidx as int]@);
                    assert(find_from(bs[bidx as int], map@, hs, n as u32, 0, 0) is None);
                    assert(place_down(order@, bs, hs, map@, disps@, (p + 1) as nat, n as u32)
                        is None);
                }
                return None;
            },
        };
        let ghost old_map = map@;
        let ghost old_disps = disps@;
        disps.set(bidx, Entry { d1, d2 });
        commit(&mut map, &vals);
        proof {
            assert forall|tt: int| 0 <= tt < buckets@[bidx as int]@.len() implies {
                let i = #[trigger] buckets@[bidx as int]@[tt];
                map@[slot_of(keys[i as int], key, disps@, n as nat) as int] == i
            } by {
                let i = buckets@[bidx as int]@[tt];
                assert(bucket_of(keys[i as int], key, nb as nat) == bidx);
                assert(disps@[bidx as int] == Entry { d1, d2 });
                assert(vals@[tt].0 as int == slot_of(keys[i as int], key, disps@, n as nat));
                assert(map@[vals@[tt].0 as int] == vals@[tt].1);
            }
            assert forall|s: int| 0 <= s < n implies (#[trigger] map@[s] == usize::MAX || map@[s]
                < n) by {
                if map@[s] != old_map[s] {
                    if forall|u: int|
                        0 <= u < vals@.len() ==> (#[trigger] vals@[u].0 as int) != s {
                        assert(map@[s] == old_map[s]);
                    }
                    let u = choose|u: int|
                        0 <= u < vals@.len() && (#[trigger] vals@[u].0 as int) == s;
                    assert(map@[s] == vals@[u].1);
                    assert(vals@[u].1 == buckets@[bidx as int]@[u]);
                }
            }
            assert forall|q: int, tt: int|
                p + 1 <= q < order@.len() && 0 <= tt < buckets@[order@[q] as int]@.len() implies {
                let i = #[trigger] buckets@[order@[q] as int]@[tt];
                map@[slot_of(keys[i as int], key, disps@, n as nat) as int] == i
            } by {
                let i = buckets@[order@[q] as int]@[tt];
                assert(order@[q] != bidx);
                assert(bucket_of(keys[i as int], key, nb as nat) == order@[q]);
                assert(slot_of(keys[i as int], key, disps@, n as nat) == slot_of(
                    keys[i as int],
                    key,
                    old_disps,
                    n as nat,
                ));
                let sl = slot_of(keys[i as int], key, old_disps, n as nat) as int;
                assert(old_map[sl] == i);
                assert(i < n);
                if exists|u: int| 0 <= u < vals@.len() && (#[trigger] vals@[u].0 as int) == sl {
                    let u = choose|u: int|
                        0 <= u < vals@.len() && (#[trigger] vals@[u].0 as int) == sl;
                    assert(old_map[vals@[u].0 as int] == usize::MAX);
                    assert(false);
                }
                assert(map@[sl] == old_map[sl]);
            }
            assert(bs[bidx as int] == buckets@[bidx as int]@);
            assert(find_from(bs[bidx as int], old_map, hs, n as u32, 0, 0) matches Some(f)
                && f.0 == d1 && f.1 == d2 && f.2 == vals@);
            assert(map@ == apply_vals(old_map, vals@, vals@.len()));
            assert(disps@ == old_disps.update(bidx as int, Entry { d1, d2 }));
            assert(place_down(order@, bs, hs, old_map, old_disps, (p + 1) as nat, n as u32)
                == place_down(order@, bs, hs, map@, disps@, p as nat, n as u32));
        }
    }
    proof {
        assert(place_down(order@, bs, hs, map@, disps@, 0, n as u32) == Some((map@, disps@)));
    }
    Some((map, disps))
}

/// Build a table over `entries` under the candidate seed `key`: hash every
/// key, partition into buckets, take the buckets largest first, and search
/// each a displacement pair that places all its keys on free slots.
/// `Some` exactly when that search — mirrored by [`spec_search`] — places
/// every bucket, and the returned table is the one the search builds, so
/// the `phf_ok` invariant holds of it. An empty key set always builds; a
/// key set of `usize::MAX` keys is refused, its map being unaddressable.
#[verifier::loop_isolation(false)]
#[verifier::rlimit(100)]
pub fn try_generate_hash(entries: &Vec<Vec<u8>>, key: u64) -> (res: Option<HashState>)
    requires
        entries@.len() <= u32::MAX,
    ensures
        res matches Some(st) ==> st.key == key && phf_ok(key_views(entries@), st) && (spec_search(
            key_views(entries@),
            key,
        ) matches Some(md) && st.map@ == md.0 && st.displacements@ == md.1),
        entries@.len() == 0 ==> res is Some,
        0 < entries@.len() < usize::MAX ==> (res is Some <==> spec_search(
            key_views(entries@),
            key,
        ) is Some),
        entries@.len() == usize::MAX ==> res is None,
{
    let ghost keys = key_views(entries@);
    let n = entries.len();
    if n == 0 {
        let st = HashState { key, displacements: Vec::new(), map: Vec::new() };
        proof {
            lemma_search_empty(keys, key);
            assert(st.map@ =~= Seq::<usize>::empty());
            assert(st.displacements@ =~= Seq::<Entry>::empty());
        }
        return Some(st);
    }
    let nb = displacements_len(n);
    proof {
        assert(nb >= 1) by (nonlinear_arith)
            requires
                nb == (n as nat + 4) / 5,
                n >= 1;
    }

    if n == usize::MAX {
        return None;
    }
    let hashes = compute_hashes(entries, key);
    let buckets = build_buckets(&hashes, nb);
    let order = sort_bucket_order(&buckets, n);
    proof {
        assert(forall|i: int|
            0 <= i < n ==> #[trigger] bucket_of(keys[i], key, nb as nat) == (hashes@[i].g as nat)
                % (nb as nat));
        assert(hashes@ =~= spec_hash_seq(keys, key));
        assert(buckets@.map_values(|v: Vec<usize>| v@) =~= spec_buckets(
            spec_hash_seq(keys, key),
            nb as nat,
        ));
    }

    let placed = place_all(&order, &buckets, &hashes, n, nb, Ghost(keys), Ghost(key));
    let (map, disps) = match placed {
        Some(md) => md,
        None => {
            return None;
        },
    };

    let st = HashState { key, displacements: disps, map };
    proof {
        let bviews = buckets@.map_values(|v: Vec<usize>| v@);
        assert forall|i: int|
            0 <= i < n implies bviews[(#[trigger] bucket_of(keys[i], key, nb as nat)) as int]
            .contains(i as usize) by {
            assert(buckets@[bucket_of(keys[i], key, nb as nat) as int]@.contains(i as usize));
        }
        lemma_all_placed(keys, key, nb as nat, order@, bviews, st.map@, st.displacements@);
        lemma_map_filled(keys, st);
        assert(spec_search(keys, key) == Some((st.map@, st.displacements@)));
    }
    Some(st)
}

/// Resolve a key against a built table: its hashes under the stored seed,
/// its bucket's displacement pair, and the entry index in the slot they
/// select. The table does not verify key equality: a caller holding the
/// entry compares keys to guard against absent ones.
pub fn lookup(st: &HashState, key: &Vec<u8>) -> (r: usize)
    requires
        table_wf(*st),
    ensures
        r == st.map@[slot_of(key@, st.key, st.displacements@, st.map@.len() as nat) as int],
        r < st.map@.len(),
{
    let n = st.map.len();
    let nb = st.displacements.len();
    proof {
        assert(nb >= 1) by (nonlinear_arith)
            requires
                nb == (n as nat + 4) / 5,
                n >= 1;
    }
    let h = hash(key, st.key);
    let e = st.displacements[(h.g as usize) % nb];
    let slot = (displace(h.f1, h.f2, e.d1, e.d2) as usize) % n;
    st.map[slot]
}

#[verifier::external_type_specification]
#[verifier::external_body]
pub struct ExSmallRng(rand::rngs::SmallRng);

/// Relies on rand::rngs::SmallRng::seed_from_u64 (SeedableRng): a
/// generator deterministically constructed from the seed.
#[verifier::external_body]
fn rng_from_seed(seed: u64) -> rand::rngs::SmallRng {
    rand::rngs::SmallRng::seed_from_u64(seed)
}

/// Relies on rand::Rng::gen via the Standard distribution: the generator's
/// next 64-bit draw. Nothing is promised of the value.
#[verifier::external_body]
fn rng_next(rng: &mut rand::rngs::SmallRng) -> u64 {
    rng.gen()
}

/// Build a table over `entries`: draw candidate seeds from a generator
/// seeded with [`FIXED_SEED`] and try each until one places every key.
/// Whatever seeds come back, a table is only returned when `phf_ok` holds
/// of it; after [`MAX_SEED_ATTEMPTS`] candidates the build gives up with
/// `FailedPhf`, as it must when two keys are equal.
pub fn generate_hash(entries: &Vec<Vec<u8>>) -> (res: Result<HashState, Error>)
    requires
        entries@.len() <= u32::MAX,
    ensures
        res matches Ok(st) ==> phf_ok(key_views(entries@), st),
        res matches Err(e) ==> e matches Error::FailedPhf,
        entries@.len() == 0 ==> res is Ok,
{
    let mut rng = rng_from_seed(FIXED_SEED);
    let mut attempts: u64 = 0;
    while attempts < MAX_SEED_ATTEMPTS
        invariant
            entries@.len() <= u32::MAX,
            entries@.len() > 0 || attempts == 0,
        decreases MAX_SEED_ATTEMPTS - attempts,
    {
        let key = rng_next(&mut rng);
        match try_generate_hash(entries, key) {
            Some(st) => {
                return Ok(st);
            },
            None => {},
        }
        attempts = attempts + 1;
    }
    Err(Error::FailedPhf)
}

} // verus!
