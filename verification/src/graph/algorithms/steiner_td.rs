//! Signatures of the dynamic programme over a tree decomposition.
//!
//! A signature describes a partial solution at a bag of `b <= MAX_BAG`
//! positions: position `j` holds the block of the forest's partition that bag
//! vertex `j` lies in, or `OUT` when the vertex is not in the forest. Packed,
//! position `j` is the `j`-th 4-bit nibble of a `u64`.
use vstd::prelude::*;
use std::collections::HashMap;
use crate::graph::types::{Cost, Edge, EdgeId, NodeId};
use crate::graph::undirected::UndirectedGraph;
use super::tree_decomposition::{MAX_BAG, TreeDecomposition};
use super::vertex_sets::{strictly_sorted, list_contains, sorted_insert, sorted_without, sorted_intersect, list_copy};
use super::rank_reduction::{Basis, by_cost, reduce};
use crate::deadline::passed;
use crate::heuristics::sph::{find, uf_ok, usum, lemma_usum_update};
use std::time::Instant;

verus! {

broadcast use vstd::std_specs::hash::group_hash_axioms;

/// The block index that marks a position not in the forest.
pub const OUT: u8 = 15;

/// Nibble `j` of a packed signature.
pub open spec fn nibble(code: u64, j: int) -> u8 {
    ((code >> ((4 * j) as u64)) & 0xFu64) as u8
}

/// `code` packs `s`: nibble `j` is `s[j]` for every position, and the bits
/// above the last position are zero.
pub open spec fn packs(code: u64, s: Seq<u8>) -> bool {
    &&& s.len() == MAX_BAG
    &&& forall|j: int| 0 <= j < MAX_BAG ==> #[trigger] nibble(code, j) == s[j]
    &&& code >> 60u64 == 0
}

/// The signature `code` describes over its first `b` positions, the rest
/// marked `OUT`.
pub open spec fn decoded(code: u64, b: int) -> Seq<u8> {
    Seq::new(MAX_BAG as nat, |j: int| if j < b { nibble(code, j) } else { OUT })
}

proof fn lemma_nibble_bound(code: u64, j: u64)
    by (bit_vector)
    requires
        j < 16,
    ensures
        (code >> (4 * j)) & 0xF < 16,
{
}

/// The positions `0..b` of `code`, unpacked.
pub fn decode(code: u64, b: usize) -> (d: [u8; MAX_BAG])
    requires
        b <= MAX_BAG,
    ensures
        d@ == decoded(code, b as int),
{
    let mut d = [OUT; MAX_BAG];
    let mut j: usize = 0;
    while j < b
        invariant
            b <= MAX_BAG,
            j <= b,
            d@.len() == MAX_BAG,
            forall|t: int| 0 <= t < MAX_BAG ==> #[trigger] d@[t] == if t < j { nibble(code, t) } else { OUT },
        decreases b - j,
    {
        proof {
            lemma_nibble_bound(code, j as u64);
        }
        d[j] = ((code >> (4 * j as u64)) & 0xF) as u8;
        j += 1;
    }
    proof {
        assert(d@ =~= decoded(code, b as int));
    }
    d
}

proof fn lemma_mask_bit(m: u32, j: u32, k: u32)
    by (bit_vector)
    requires
        j < 32,
        k < 32,
    ensures
        ((m | (1u32 << j)) >> k) & 1 == 1 <==> (k == j || (m >> k) & 1 == 1),
{
}

proof fn lemma_mask_zero(k: u32)
    by (bit_vector)
    ensures
        !((0u32 >> k) & 1 == 1),
{
}

/// The bitmask of the positions below `j` that `code` uses.
pub open spec fn mask_upto(code: u64, j: int) -> u32
    decreases j,
{
    if j <= 0 {
        0
    } else if nibble(code, j - 1) != OUT {
        mask_upto(code, j - 1) | (1u32 << ((j - 1) as u32))
    } else {
        mask_upto(code, j - 1)
    }
}

/// Which of the positions `0..b` the signature uses, as a bitmask.
pub fn used_mask(code: u64, b: usize) -> (m: u32)
    requires
        b <= MAX_BAG,
    ensures
        forall|k: u32| k < 32 ==> (#[trigger] ((m >> k) & 1) == 1) == ((k as int) < b && nibble(code, k as int) != OUT),
        m == mask_upto(code, b as int),
{
    let mut m: u32 = 0;
    let mut j: usize = 0;
    proof {
        assert forall|k: u32| k < 32 implies !(#[trigger] ((m >> k) & 1) == 1) by {
            lemma_mask_zero(k);
        }
    }
    while j < b
        invariant
            b <= MAX_BAG,
            j <= b,
            forall|k: u32| k < 32 ==> (#[trigger] ((m >> k) & 1) == 1) == ((k as int) < j && nibble(code, k as int) != OUT),
            m == mask_upto(code, j as int),
        decreases b - j,
    {
        proof {
            lemma_nibble_bound(code, j as u64);
        }
        if ((code >> (4 * j as u64)) & 0xF) as u8 != OUT {
            let ghost old_m = m;
            m = m | (1u32 << (j as u32));
            proof {
                assert forall|k: u32| k < 32 implies (#[trigger] ((m >> k) & 1) == 1)
                    == ((k as int) < j + 1 && nibble(code, k as int) != OUT) by {
                    lemma_mask_bit(old_m, j as u32, k);
                }
            }
        }
        j += 1;
    }
    m
}

/// The largest block index among the used positions `0..j`, or -1.
pub open spec fn max_before(c: Seq<u8>, j: int) -> int
    decreases j,
{
    if j <= 0 {
        -1
    } else {
        let m = max_before(c, j - 1);
        if c[j - 1] != OUT && c[j - 1] > m { c[j - 1] as int } else { m }
    }
}

/// `c` and `d` describe the same partition of the used positions among `0..b`.
pub open spec fn same_partition(c: Seq<u8>, d: Seq<u8>, b: int) -> bool {
    &&& forall|j: int| 0 <= j < b ==> (#[trigger] c[j] == OUT) == (d[j] == OUT)
    &&& forall|i: int, j: int| 0 <= i < b && 0 <= j < b && d[i] != OUT && d[j] != OUT
        ==> (#[trigger] c[i] == #[trigger] c[j]) == (d[i] == d[j])
}

/// `c` is the canonical form of `d` over `0..b`: the same partition, blocks
/// numbered `0, 1, 2, ...` in order of first appearance, and every later
/// position `OUT`.
pub open spec fn canonical_of(c: Seq<u8>, d: Seq<u8>, b: int) -> bool {
    &&& c.len() == MAX_BAG
    &&& same_partition(c, d, b)
    &&& forall|j: int| 0 <= j < b && #[trigger] c[j] != OUT ==> c[j] <= max_before(c, j) + 1
    &&& forall|j: int| b <= j < MAX_BAG ==> #[trigger] c[j] == OUT
}

proof fn lemma_pack_step(c0: u64, id: u64, j: u64)
    by (bit_vector)
    requires
        j < 15,
        id < 16,
        c0 >> (4 * j) == 0,
    ensures
        ((c0 | (id << (4 * j))) >> (4 * j)) & 0xF == id,
        (c0 | (id << (4 * j))) >> (4 * (j + 1)) == 0,
{
}

proof fn lemma_pack_keep(c0: u64, id: u64, j: u64, t: u64)
    by (bit_vector)
    requires
        j < 15,
        t < j,
        id < 16,
    ensures
        ((c0 | (id << (4 * j))) >> (4 * t)) & 0xF == (c0 >> (4 * t)) & 0xF,
{
}

proof fn lemma_zero_shift(j: u64)
    by (bit_vector)
    ensures
        0u64 >> (4 * j) == 0,
{
}

proof fn lemma_max_before_bound(c: Seq<u8>, j: int, bound: int)
    requires
        forall|t: int| 0 <= t < j && c[t] != OUT ==> c[t] < bound,
        bound >= 0,
    ensures
        max_before(c, j) < bound,
    decreases j,
{
    if j > 0 {
        lemma_max_before_bound(c, j - 1, bound);
    }
}

/// The renaming state after positions `0..j`: the labels met so far, what
/// they were renamed to, and the renamed prefix.
pub open spec fn rename_inv(orig: Seq<u8>, d: Seq<u8>, map: Seq<u8>, next: int, seen: Set<int>, j: int, b: int) -> bool {
    &&& 0 <= j <= b <= MAX_BAG
    &&& d.len() == MAX_BAG
    &&& orig.len() == MAX_BAG
    &&& map.len() == 16
    &&& forall|t: int| 0 <= t < b ==> orig[t] <= OUT
    &&& forall|t: int| j <= t < MAX_BAG ==> d[t] == orig[t]
    &&& seen.finite()
    &&& seen.len() == next
    &&& next <= OUT
    &&& forall|x: int| #[trigger] seen.contains(x) ==> 0 <= x < OUT
    &&& forall|x: int| 0 <= x < 16 ==> (#[trigger] map[x] != OUT) == seen.contains(x)
    &&& forall|x: int| #[trigger] seen.contains(x) ==> map[x] < next
    &&& forall|x: int, y: int| seen.contains(x) && seen.contains(y) && x != y ==> #[trigger] map[x] != #[trigger] map[y]
    &&& forall|x: int| #[trigger] seen.contains(x) <==> exists|t: int| 0 <= t < j && orig[t] == x && x != OUT
    &&& forall|t: int| 0 <= t < j ==> #[trigger] d[t] == if orig[t] == OUT { OUT } else { map[orig[t] as int] }
    &&& max_before(d, j) == next - 1
    &&& forall|t: int| 0 <= t < j && #[trigger] d[t] != OUT ==> d[t] <= max_before(d, t) + 1
}

proof fn lemma_rename_step(orig: Seq<u8>, d: Seq<u8>, map: Seq<u8>, next: int, seen: Set<int>, j: int, b: int)
    requires
        rename_inv(orig, d, map, next, seen, j, b),
        j < b,
    ensures
        ({
            let x = orig[j];
            let fresh = x != OUT && map[x as int] == OUT;
            let map2 = if fresh { map.update(x as int, next as u8) } else { map };
            let next2 = if fresh { next + 1 } else { next };
            let seen2 = if fresh { seen.insert(x as int) } else { seen };
            let id = if x == OUT { OUT } else { map2[x as int] };
            &&& next2 <= OUT
            &&& id <= OUT
            &&& rename_inv(orig, d.update(j, id), map2, next2, seen2, j + 1, b)
        }),
{
    let x = orig[j];
    let fresh = x != OUT && map[x as int] == OUT;
    let map2 = if fresh { map.update(x as int, next as u8) } else { map };
    let next2 = if fresh { next + 1 } else { next };
    let seen2 = if fresh { seen.insert(x as int) } else { seen };
    let id = if x == OUT { OUT } else { map2[x as int] };
    let d2 = d.update(j, id);
    vstd::set_lib::lemma_int_range(0, 15);
    if fresh {
        assert(!seen.contains(x as int));
        assert(seen.subset_of(vstd::set_lib::set_int_range(0, 15).remove(x as int)));
        vstd::set_lib::lemma_len_subset(seen, vstd::set_lib::set_int_range(0, 15).remove(x as int));
    } else {
        assert(seen.subset_of(vstd::set_lib::set_int_range(0, 15)));
        vstd::set_lib::lemma_len_subset(seen, vstd::set_lib::set_int_range(0, 15));
    }
    lemma_max_before_prefix(d2, d, j);
    assert forall|t: int| 0 <= t < j + 1 && #[trigger] d2[t] != OUT implies d2[t] <= max_before(d2, t) + 1 by {
        if t < j {
            lemma_max_before_prefix(d2, d, t);
        }
    }
    assert forall|y: int| #[trigger] seen2.contains(y) <==> exists|t: int| 0 <= t < j + 1 && orig[t] == y && y != OUT by {
        if seen2.contains(y) && !(exists|t: int| 0 <= t < j && orig[t] == y && y != OUT) {
            assert(orig[j] == y);
        }
        if exists|t: int| 0 <= t < j + 1 && orig[t] == y && y != OUT {
            let t = choose|t: int| 0 <= t < j + 1 && orig[t] == y && y != OUT;
            if t < j {
                assert(seen.contains(y));
            }
        }
    }
    assert forall|t: int| 0 <= t < j + 1 implies #[trigger] d2[t] == if orig[t] == OUT { OUT } else { map2[orig[t] as int] } by {
        if t < j && orig[t] != OUT {
            assert(seen.contains(orig[t] as int));
        }
    }
}

/// After all of `0..b`, the renamed prefix is the canonical form.
proof fn lemma_rename_done(orig: Seq<u8>, d: Seq<u8>, map: Seq<u8>, next: int, seen: Set<int>, b: int)
    requires
        rename_inv(orig, d, map, next, seen, b, b),
    ensures
        canonical_of(Seq::new(MAX_BAG as nat, |t: int| if t < b { d[t] } else { OUT }), orig, b),
        forall|t: int| 0 <= t < b ==> d[t] <= OUT,
{
    let c = Seq::new(MAX_BAG as nat, |t: int| if t < b { d[t] } else { OUT });
    assert forall|t: int| 0 <= t < b implies d[t] <= OUT by {
        if orig[t] != OUT {
            assert(seen.contains(orig[t] as int));
        }
    }
    assert forall|t: int| 0 <= t < b && #[trigger] c[t] != OUT implies c[t] <= max_before(c, t) + 1 by {
        lemma_max_before_prefix(c, d, t);
    }
    assert forall|i: int, t: int| 0 <= i < b && 0 <= t < b && orig[i] != OUT && orig[t] != OUT
        implies (#[trigger] c[i] == #[trigger] c[t]) == (orig[i] == orig[t]) by {
        assert(seen.contains(orig[i] as int));
        assert(seen.contains(orig[t] as int));
    }
    assert forall|t: int| 0 <= t < b implies (#[trigger] c[t] == OUT) == (orig[t] == OUT) by {
        if orig[t] != OUT {
            assert(seen.contains(orig[t] as int));
        }
    }
}

/// Renumber blocks by first appearance over positions `0..b` and pack, the
/// positions from `b` on packed as `OUT`. Canonical form is what makes two
/// signatures equal exactly when they describe the same partition.
pub fn encode_canonical(d: &mut [u8; MAX_BAG], b: usize) -> (code: u64)
    requires
        b <= MAX_BAG,
        forall|j: int| 0 <= j < b ==> old(d)@[j] <= OUT,
    ensures
        canonical_of(Seq::new(MAX_BAG as nat, |t: int| if t < b { final(d)@[t] } else { OUT }), old(d)@, b as int),
        forall|t: int| b <= t < MAX_BAG ==> final(d)@[t] == old(d)@[t],
        packs(code, Seq::new(MAX_BAG as nat, |t: int| if t < b { final(d)@[t] } else { OUT })),
{
    let ghost orig = d@;
    let mut map = [OUT; 16];
    let mut next: u8 = 0;
    let ghost mut seen: Set<int> = Set::empty();
    let mut j: usize = 0;
    proof {
        assert(seen =~= Set::new(|x: int| exists|t: int| 0 <= t < 0 && orig[t] == x && x != OUT));
    }
    while j < b
        invariant
            rename_inv(orig, d@, map@, next as int, seen, j as int, b as int),
        decreases b - j,
    {
        proof {
            lemma_rename_step(orig, d@, map@, next as int, seen, j as int, b as int);
        }
        let x = d[j];
        let id = if x == OUT {
            OUT
        } else {
            if map[x as usize] == OUT {
                proof {
                    seen = seen.insert(x as int);
                }
                map[x as usize] = next;
                next += 1;
            }
            map[x as usize]
        };
        d[j] = id;
        j += 1;
    }
    proof {
        lemma_rename_done(orig, d@, map@, next as int, seen, b as int);
    }
    let ghost canon = Seq::new(MAX_BAG as nat, |t: int| if t < b { d@[t] } else { OUT });
    let mut code: u64 = 0;
    let mut k: usize = 0;
    proof {
        lemma_zero_shift(0);
    }
    while k < MAX_BAG
        invariant
            k <= MAX_BAG,
            b <= MAX_BAG,
            d@.len() == MAX_BAG,
            canon == Seq::new(MAX_BAG as nat, |t: int| if t < b { d@[t] } else { OUT }),
            forall|t: int| 0 <= t < b ==> d@[t] <= OUT,
            forall|t: int| 0 <= t < k ==> #[trigger] nibble(code, t) == canon[t],
            code >> ((4 * k) as u64) == 0,
        decreases MAX_BAG - k,
    {
        let id: u8 = if k < b { d[k] } else { OUT };
        proof {
            lemma_pack_step(code, id as u64, k as u64);
            assert forall|t: int| 0 <= t < k implies #[trigger] nibble(code | ((id as u64) << ((4 * k) as u64)), t)
                == nibble(code, t) by {
                lemma_pack_keep(code, id as u64, k as u64, t as u64);
            }
        }
        code = code | ((id as u64) << (4 * k as u64));
        k += 1;
    }
    proof {
        lemma_rename_done(orig, d@, map@, next as int, seen, b as int);
    }
    code
}

/// `max_before` only reads the positions before `j`.
proof fn lemma_max_before_prefix(c: Seq<u8>, e: Seq<u8>, j: int)
    requires
        j <= c.len(),
        j <= e.len(),
        forall|t: int| 0 <= t < j ==> c[t] == e[t],
    ensures
        max_before(c, j) == max_before(e, j),
    decreases j,
{
    if j > 0 {
        lemma_max_before_prefix(c, e, j - 1);
    }
}

/// Block `k` holds one of the positions `0..b`.
pub open spec fn block_used(d: Seq<u8>, b: int, k: int) -> bool {
    exists|j: int| 0 <= j < b && d[j] != OUT && d[j] == k
}

proof fn lemma_u16_bit(m: u16, j: u16, k: u16)
    by (bit_vector)
    requires
        j < 16,
        k < 16,
    ensures
        ((m | (1u16 << j)) >> k) & 1 == 1 <==> (k == j || (m >> k) & 1 == 1),
{
}

proof fn lemma_u16_zero(k: u16)
    by (bit_vector)
    ensures
        !((0u16 >> k) & 1 == 1),
{
}

/// The lowest block index no position of `0..b` uses, for a newly introduced
/// isolated vertex; 0 when all fifteen are in use.
pub fn free_block(d: &[u8; MAX_BAG], b: usize) -> (r: u8)
    requires
        b <= MAX_BAG,
        forall|j: int| 0 <= j < b ==> d@[j] <= OUT,
    ensures
        (exists|k: int| 0 <= k < OUT && !block_used(d@, b as int, k)) ==> {
            &&& r < OUT
            &&& !block_used(d@, b as int, r as int)
            &&& forall|k: int| 0 <= k < r ==> block_used(d@, b as int, k)
        },
        (forall|k: int| 0 <= k < OUT ==> block_used(d@, b as int, k)) ==> r == 0,
{
    let mut used: u16 = 0;
    let mut j: usize = 0;
    proof {
        assert forall|k: u16| k < 16 implies !(#[trigger] ((used >> k) & 1) == 1) by {
            lemma_u16_zero(k);
        }
    }
    while j < b
        invariant
            b <= MAX_BAG,
            j <= b,
            forall|t: int| 0 <= t < b ==> d@[t] <= OUT,
            forall|k: u16| k < 16 ==> (#[trigger] ((used >> k) & 1) == 1) == block_used(d@, j as int, k as int),
        decreases b - j,
    {
        if d[j] != OUT {
            let ghost old_used = used;
            used = used | (1u16 << (d[j] as u16));
            proof {
                assert forall|k: u16| k < 16 implies (#[trigger] ((used >> k) & 1) == 1) == block_used(d@, j + 1, k as int) by {
                    lemma_u16_bit(old_used, d@[j as int] as u16, k);
                    if block_used(d@, j as int, k as int) {
                        let t = choose|t: int| 0 <= t < j && d@[t] != OUT && d@[t] == k;
                        assert(0 <= t < j + 1 && d@[t] != OUT && d@[t] == k);
                    }
                    if block_used(d@, j + 1, k as int) && (k as int) != d@[j as int] {
                        let t = choose|t: int| 0 <= t < j + 1 && d@[t] != OUT && d@[t] == k;
                        assert(0 <= t < j && d@[t] != OUT && d@[t] == k);
                    }
                    if (k as int) == d@[j as int] {
                        assert(0 <= j < j + 1 && d@[j as int] != OUT && d@[j as int] == k);
                    }
                }
            }
        } else {
            proof {
                assert forall|k: u16| k < 16 implies (#[trigger] ((used >> k) & 1) == 1) == block_used(d@, j + 1, k as int) by {
                    if block_used(d@, j as int, k as int) {
                        let t = choose|t: int| 0 <= t < j && d@[t] != OUT && d@[t] == k;
                        assert(0 <= t < j + 1 && d@[t] != OUT && d@[t] == k);
                    }
                    if block_used(d@, j + 1, k as int) {
                        let t = choose|t: int| 0 <= t < j + 1 && d@[t] != OUT && d@[t] == k;
                        assert(0 <= t < j && d@[t] != OUT && d@[t] == k);
                    }
                }
            }
        }
        j += 1;
    }
    let mut k: u8 = 0;
    while k < OUT
        invariant
            k <= OUT,
            forall|q: u16| q < 16 ==> (#[trigger] ((used >> q) & 1) == 1) == block_used(d@, b as int, q as int),
            forall|q: int| 0 <= q < k ==> block_used(d@, b as int, q),
        decreases OUT - k,
    {
        if (used >> (k as u16)) & 1 == 0 {
            proof {
                assert(!(((used >> (k as u16)) & 1) == 1));
            }
            return k;
        }
        proof {
            let kk = k as u16;
            assert((used >> kk) & 1 != 0 ==> (used >> kk) & 1 == 1) by (bit_vector);
        }
        k += 1;
    }
    0
}

/// Strictly increasing.
pub open spec fn increasing(s: Seq<u32>) -> bool {
    forall|a: int, c: int| 0 <= a < c < s.len() ==> #[trigger] s[a] < #[trigger] s[c]
}

/// The signature over the bag `to` that keeps each vertex's block from the
/// signature `code` over the bag `from`; vertices of `to` not in `from`, and
/// positions from `b` on, are `OUT`.
pub open spec fn rebased(code: u64, from: Seq<u32>, to: Seq<u32>, b: int) -> Seq<u8> {
    Seq::new(MAX_BAG as nat, |j: int|
        if j < b && j < to.len() && from.contains(to[j]) {
            nibble(code, choose|i: int| 0 <= i < from.len() && from[i] == to[j])
        } else {
            OUT
        })
}

/// Re-express a signature over `from` as one over `to`, keeping each vertex's
/// block. Positions of `to` absent from `from` become unused.
pub fn rebase(code: u64, from: &[u32], to: &[u32], b: usize) -> (r: u64)
    requires
        from.len() <= MAX_BAG,
        b <= MAX_BAG,
        increasing(from@),
        increasing(to@),
    ensures
        exists|c: Seq<u8>| canonical_of(c, rebased(code, from@, to@, b as int), b as int) && packs(r, c),
{
    let d = decode(code, from.len());
    let mut out = [OUT; MAX_BAG];
    let mut i: usize = 0;
    let mut j: usize = 0;
    let ghost target = rebased(code, from@, to@, b as int);
    while j < to.len() && j < b
        invariant
            from.len() <= MAX_BAG,
            b <= MAX_BAG,
            increasing(from@),
            increasing(to@),
            d@ == decoded(code, from.len() as int),
            target == rebased(code, from@, to@, b as int),
            j <= to.len(),
            j <= b,
            i <= from.len(),
            j < to.len() ==> forall|t: int| 0 <= t < i ==> #[trigger] from@[t] < to@[j as int],
            forall|t: int| 0 <= t < MAX_BAG ==> #[trigger] out@[t] == if t < j { target[t] } else { OUT },
        decreases to.len() - j,
    {
        let v = to[j];
        while i < from.len() && from[i] < v
            invariant
                i <= from.len(),
                j < to.len(),
                v == to@[j as int],
                increasing(from@),
                forall|t: int| 0 <= t < i ==> #[trigger] from@[t] < v,
            decreases from.len() - i,
        {
            i += 1;
        }
        if i < from.len() && from[i] == v {
            proof {
                assert(from@.contains(v));
                let w = choose|w: int| 0 <= w < from@.len() && from@[w] == to@[j as int];
                if w < i {
                    assert(from@[w] < v);
                } else if w > i {
                    assert(from@[i as int] < from@[w]);
                }
                assert(target[j as int] == nibble(code, i as int));
            }
            out[j] = d[i];
        } else {
            proof {
                if from@.contains(v) {
                    let w = choose|w: int| 0 <= w < from@.len() && from@[w] == v;
                    if w >= i {
                        assert(i < from.len());
                        if w > i {
                            assert(from@[i as int] < from@[w]);
                        }
                    }
                }
                assert(target[j as int] == OUT);
            }
        }
        proof {
            if j + 1 < to.len() {
                assert forall|t: int| 0 <= t < i implies #[trigger] from@[t] < to@[j + 1] by {
                    assert(to@[j as int] < to@[j + 1]);
                }
            }
        }
        j += 1;
    }
    proof {
        assert(out@ =~= target);
        assert forall|t: int| 0 <= t < b implies out@[t] <= OUT by {
            if t < to.len() && from@.contains(to@[t]) {
                let w = choose|w: int| 0 <= w < from@.len() && from@[w] == to@[t];
                lemma_nibble_bound(code, w as u64);
            }
        }
    }
    let ghost before = out@;
    let r = encode_canonical(&mut out, b);
    proof {
        let c = Seq::new(MAX_BAG as nat, |t: int| if t < b { out@[t] } else { OUT });
        assert(canonical_of(c, target, b as int) && packs(r, c));
    }
    r
}

/// The labelling as integers.
pub open spec fn as_ints(p: Seq<u8>) -> Seq<int> {
    Seq::new(p.len(), |i: int| p[i] as int)
}

/// `q` puts together every two positions of `0..b` used in `u` that `p` puts
/// together.
pub open spec fn merges(q: Seq<int>, p: Seq<u8>, u: Seq<u8>, b: int) -> bool {
    forall|i: int, j: int| 0 <= i < b && 0 <= j < b && u[i] != OUT && u[j] != OUT && #[trigger] p[i] == #[trigger] p[j]
        ==> q[i] == q[j]
}

/// `out` is the join of `l` and `r` over the positions `0..b` that `u` uses:
/// it merges what either merges, and any labelling that merges what both
/// merge merges what it merges.
pub open spec fn is_join(out: Seq<u8>, l: Seq<u8>, r: Seq<u8>, u: Seq<u8>, b: int) -> bool {
    &&& merges(as_ints(out), l, u, b)
    &&& merges(as_ints(out), r, u, b)
    &&& forall|q: Seq<int>| merges(q, l, u, b) && merges(q, r, u, b) ==> #[trigger] merges(q, out, u, b)
}

/// Relabel every position of `0..b` labelled `c` to `a`.
fn relabel(lab: &mut [u8; MAX_BAG], c: u8, a: u8, b: usize)
    requires
        b <= MAX_BAG,
    ensures
        forall|t: int| 0 <= t < MAX_BAG ==> #[trigger] final(lab)@[t] == if t < b && old(lab)@[t] == c { a } else { old(lab)@[t] },
{
    let mut t: usize = 0;
    while t < b
        invariant
            b <= MAX_BAG,
            t <= b,
            forall|x: int| 0 <= x < MAX_BAG ==> #[trigger] lab@[x] == if x < t && old(lab)@[x] == c { a } else { old(lab)@[x] },
        decreases b - t,
    {
        if lab[t] == c {
            lab[t] = a;
        }
        t += 1;
    }
}

/// Merge the classes of `lab` that `side` puts together.
fn merge_side(lab: &mut [u8; MAX_BAG], side: &[u8; MAX_BAG], b: usize)
    requires
        b <= MAX_BAG,
        forall|t: int| 0 <= t < b ==> (old(lab)@[t] == OUT) == (side@[t] == OUT),
        forall|t: int| 0 <= t < MAX_BAG ==> old(lab)@[t] <= OUT,
    ensures
        forall|t: int| 0 <= t < b ==> (final(lab)@[t] == OUT) == (side@[t] == OUT),
        forall|t: int| 0 <= t < MAX_BAG ==> final(lab)@[t] <= OUT,
        forall|t: int| b <= t < MAX_BAG ==> final(lab)@[t] == old(lab)@[t],
        merges(as_ints(final(lab)@), side@, side@, b as int),
        merges(as_ints(final(lab)@), old(lab)@, side@, b as int),
        forall|q: Seq<int>| merges(q, side@, side@, b as int) && merges(q, old(lab)@, side@, b as int)
            ==> #[trigger] merges(q, final(lab)@, side@, b as int),
{
    let ghost orig = lab@;
    let mut j: usize = 0;
    while j < b
        invariant
            b <= MAX_BAG,
            j <= b,
            forall|t: int| 0 <= t < b ==> (lab@[t] == OUT) == (side@[t] == OUT),
            forall|t: int| 0 <= t < MAX_BAG ==> lab@[t] <= OUT,
            forall|t: int| b <= t < MAX_BAG ==> lab@[t] == orig[t],
            forall|i1: int, i2: int| 0 <= i1 < j && i1 < i2 < b && side@[i1] != OUT && #[trigger] side@[i1] == #[trigger] side@[i2]
                ==> lab@[i1] == lab@[i2],
            merges(as_ints(lab@), orig, side@, b as int),
            forall|q: Seq<int>| merges(q, side@, side@, b as int) && merges(q, orig, side@, b as int)
                ==> #[trigger] merges(q, lab@, side@, b as int),
        decreases b - j,
    {
        if side[j] != OUT {
            let mut k: usize = j + 1;
            while k < b
                invariant
                    b <= MAX_BAG,
                    j < b,
                    j < k <= b,
                    side@[j as int] != OUT,
                    forall|t: int| 0 <= t < b ==> (lab@[t] == OUT) == (side@[t] == OUT),
                    forall|t: int| 0 <= t < MAX_BAG ==> lab@[t] <= OUT,
                    forall|t: int| b <= t < MAX_BAG ==> lab@[t] == orig[t],
                    forall|i1: int, i2: int| 0 <= i1 < j && i1 < i2 < b && side@[i1] != OUT && #[trigger] side@[i1] == #[trigger] side@[i2]
                        ==> lab@[i1] == lab@[i2],
                    forall|i2: int| j < i2 < k && side@[j as int] == #[trigger] side@[i2] ==> lab@[j as int] == lab@[i2],
                    merges(as_ints(lab@), orig, side@, b as int),
                    forall|q: Seq<int>| merges(q, side@, side@, b as int) && merges(q, orig, side@, b as int)
                        ==> #[trigger] merges(q, lab@, side@, b as int),
                decreases b - k,
            {
                if side[k] == side[j] && lab[j] != lab[k] {
                    let a = lab[j];
                    let c = lab[k];
                    let ghost before = lab@;
                    relabel(lab, c, a, b);
                    proof {
                        assert forall|q: Seq<int>| merges(q, side@, side@, b as int) && merges(q, orig, side@, b as int)
                            implies #[trigger] merges(q, lab@, side@, b as int) by {
                            assert(merges(q, before, side@, b as int));
                            assert(q[j as int] == q[k as int]);
                            assert forall|i: int, t: int| 0 <= i < b && 0 <= t < b && side@[i] != OUT && side@[t] != OUT
                                && #[trigger] lab@[i] == #[trigger] lab@[t] implies q[i] == q[t] by {
                                if before[i] == c {
                                    assert(q[i] == q[k as int]);
                                }
                                if before[t] == c {
                                    assert(q[t] == q[k as int]);
                                }
                                if before[i] != c && before[t] == c {
                                    assert(before[i] == a);
                                    assert(q[i] == q[j as int]);
                                }
                                if before[i] == c && before[t] != c {
                                    assert(before[t] == a);
                                    assert(q[t] == q[j as int]);
                                }
                            }
                        }
                        assert forall|i: int, t: int| 0 <= i < b && 0 <= t < b && side@[i] != OUT && side@[t] != OUT
                            && #[trigger] orig[i] == #[trigger] orig[t] implies as_ints(lab@)[i] == as_ints(lab@)[t] by {
                            assert(as_ints(before)[i] == as_ints(before)[t]);
                        }
                        assert forall|i1: int, i2: int| 0 <= i1 < j && i1 < i2 < b && side@[i1] != OUT
                            && #[trigger] side@[i1] == #[trigger] side@[i2] implies lab@[i1] == lab@[i2] by {
                            assert(before[i1] == before[i2]);
                        }
                        assert forall|i2: int| j < i2 < k + 1 && side@[j as int] == #[trigger] side@[i2]
                            implies lab@[j as int] == lab@[i2] by {
                            if i2 < k {
                                assert(before[j as int] == before[i2]);
                            }
                        }
                    }
                }
                k += 1;
            }
            proof {
                assert forall|i1: int, i2: int| 0 <= i1 < j + 1 && i1 < i2 < b && side@[i1] != OUT
                    && #[trigger] side@[i1] == #[trigger] side@[i2] implies lab@[i1] == lab@[i2] by {
                    if i1 == j {
                        assert(side@[j as int] == side@[i2]);
                    }
                }
            }
        }
        j += 1;
    }
    proof {
        assert forall|i: int, t: int| 0 <= i < b && 0 <= t < b && side@[i] != OUT && side@[t] != OUT
            && #[trigger] side@[i] == #[trigger] side@[t] implies as_ints(lab@)[i] == as_ints(lab@)[t] by {
            if i < t {
                assert(lab@[i] == lab@[t]);
            } else if t < i {
                assert(lab@[t] == lab@[i]);
            }
        }
    }
}

/// The join of two partitions of the same positions, each block labelled by
/// one of its positions. `None` when the two disagree on which of the
/// positions `0..b` are used.
pub fn union_partitions(l: &[u8; MAX_BAG], r: &[u8; MAX_BAG], b: usize) -> (out: Option<[u8; MAX_BAG]>)
    requires
        b <= MAX_BAG,
    ensures
        out is None <==> exists|j: int| 0 <= j < b && (l@[j] == OUT) != (r@[j] == OUT),
        out matches Some(o) ==> {
            &&& forall|j: int| 0 <= j < MAX_BAG ==> ((#[trigger] o@[j] == OUT) <==> (j >= b || l@[j] == OUT))
            &&& forall|j: int| 0 <= j < MAX_BAG ==> (#[trigger] o@[j]) <= OUT
            &&& is_join(o@, l@, r@, l@, b as int)
        },
{
    let mut j: usize = 0;
    while j < b
        invariant
            b <= MAX_BAG,
            j <= b,
            forall|t: int| 0 <= t < j ==> (l@[t] == OUT) == (r@[t] == OUT),
        decreases b - j,
    {
        if (l[j] == OUT) != (r[j] == OUT) {
            return None;
        }
        j += 1;
    }
    let mut lab = [OUT; MAX_BAG];
    let mut t: usize = 0;
    while t < b
        invariant
            b <= MAX_BAG,
            t <= b,
            forall|x: int| 0 <= x < MAX_BAG ==> #[trigger] lab@[x] == if x < t && l@[x] != OUT { x as u8 } else { OUT },
        decreases b - t,
    {
        if l[t] != OUT {
            lab[t] = t as u8;
        }
        t += 1;
    }
    let ghost start = lab@;
    proof {
        assert forall|q: Seq<int>| merges(q, l@, l@, b as int) implies #[trigger] merges(q, start, l@, b as int) by {
            assert forall|i: int, k: int| 0 <= i < b && 0 <= k < b && l@[i] != OUT && l@[k] != OUT
                && #[trigger] start[i] == #[trigger] start[k] implies q[i] == q[k] by {
                assert(i == k);
            }
        }
    }
    merge_side(&mut lab, l, b);
    let ghost mid = lab@;
    merge_side(&mut lab, r, b);
    proof {
        assert(forall|x: int| 0 <= x < b ==> (l@[x] == OUT) == (r@[x] == OUT));
        assert forall|i: int, k: int| 0 <= i < b && 0 <= k < b && l@[i] != OUT && l@[k] != OUT
            && #[trigger] l@[i] == #[trigger] l@[k] implies as_ints(lab@)[i] == as_ints(lab@)[k] by {
            assert(as_ints(mid)[i] == as_ints(mid)[k]);
            assert(mid[i] == mid[k]);
        }
        assert forall|i: int, k: int| 0 <= i < b && 0 <= k < b && l@[i] != OUT && l@[k] != OUT
            && #[trigger] r@[i] == #[trigger] r@[k] implies as_ints(lab@)[i] == as_ints(lab@)[k] by {
        }
        assert forall|q: Seq<int>| merges(q, l@, l@, b as int) && merges(q, r@, l@, b as int)
            implies #[trigger] merges(q, lab@, l@, b as int) by {
            assert(merges(q, start, l@, b as int));
            assert(merges(q, mid, l@, b as int));
            assert(merges(q, r@, r@, b as int));
            assert(merges(q, mid, r@, b as int));
            assert(merges(q, lab@, r@, b as int));
        }
    }
    Some(lab)
}

/// Every block index up to the largest one used before `j` is used before `j`.
proof fn lemma_rgs_dense(c: Seq<u8>, d: Seq<u8>, b: int, j: int, v: int)
    requires
        canonical_of(c, d, b),
        0 <= j <= b,
        0 <= v <= max_before(c, j),
    ensures
        exists|i: int| 0 <= i < j && c[i] != OUT && c[i] == v,
    decreases j,
{
    if j > 0 {
        let m = max_before(c, j - 1);
        if v <= m {
            lemma_rgs_dense(c, d, b, j - 1, v);
            let i = choose|i: int| 0 <= i < j - 1 && c[i] != OUT && c[i] == v;
            assert(0 <= i < j && c[i] != OUT && c[i] == v);
        } else {
            assert(c[j - 1] != OUT && c[j - 1] <= m + 1);
            assert(c[j - 1] == v);
        }
    }
}

/// A labelling has one canonical form.
pub proof fn lemma_canonical_unique(c1: Seq<u8>, c2: Seq<u8>, d: Seq<u8>, b: int)
    requires
        canonical_of(c1, d, b),
        canonical_of(c2, d, b),
        0 <= b <= MAX_BAG,
    ensures
        c1 == c2,
{
    lemma_canonical_prefix(c1, c2, d, b, b);
    assert(c1 =~= c2);
}

proof fn lemma_canonical_prefix(c1: Seq<u8>, c2: Seq<u8>, d: Seq<u8>, b: int, j: int)
    requires
        canonical_of(c1, d, b),
        canonical_of(c2, d, b),
        0 <= j <= b <= MAX_BAG,
    ensures
        forall|t: int| 0 <= t < j ==> c1[t] == c2[t],
    decreases j,
{
    if j > 0 {
        let k = j - 1;
        lemma_canonical_prefix(c1, c2, d, b, k);
        if d[k] != OUT {
            if exists|i: int| 0 <= i < k && d[i] == d[k] {
                let i = choose|i: int| 0 <= i < k && d[i] == d[k];
                assert(c1[i] == c1[k]);
                assert(c2[i] == c2[k]);
            } else {
                lemma_max_before_prefix(c1, c2, k);
                let m = max_before(c1, k);
                assert(c1[k] != OUT && c2[k] != OUT);
                // A new block takes the next index: every smaller one is already used.
                if c1[k] <= m {
                    lemma_rgs_dense(c1, d, b, k, c1[k] as int);
                    let i = choose|i: int| 0 <= i < k && c1[i] != OUT && c1[i] == c1[k];
                    assert(d[i] == d[k]);
                }
                if c2[k] <= m {
                    lemma_rgs_dense(c2, d, b, k, c2[k] as int);
                    let i = choose|i: int| 0 <= i < k && c2[i] != OUT && c2[i] == c2[k];
                    assert(d[i] == d[k]);
                }
            }
        }
    }
}

proof fn lemma_packs_unique(x: u64, y: u64, s: Seq<u8>)
    requires
        packs(x, s),
        packs(y, s),
    ensures
        x == y,
{
    assert(nibble(x, 0) == nibble(y, 0));
    lemma_nibble_bound(x, 0);
    lemma_nibble_bound(y, 0);
    assert(x >> 0 & 0xF == y >> 0 & 0xF);
    assert(nibble(x, 1) == nibble(y, 1));
    lemma_nibble_bound(x, 1);
    lemma_nibble_bound(y, 1);
    assert(x >> 4 & 0xF == y >> 4 & 0xF);
    assert(nibble(x, 2) == nibble(y, 2));
    lemma_nibble_bound(x, 2);
    lemma_nibble_bound(y, 2);
    assert(x >> 8 & 0xF == y >> 8 & 0xF);
    assert(nibble(x, 3) == nibble(y, 3));
    lemma_nibble_bound(x, 3);
    lemma_nibble_bound(y, 3);
    assert(x >> 12 & 0xF == y >> 12 & 0xF);
    assert(nibble(x, 4) == nibble(y, 4));
    lemma_nibble_bound(x, 4);
    lemma_nibble_bound(y, 4);
    assert(x >> 16 & 0xF == y >> 16 & 0xF);
    assert(nibble(x, 5) == nibble(y, 5));
    lemma_nibble_bound(x, 5);
    lemma_nibble_bound(y, 5);
    assert(x >> 20 & 0xF == y >> 20 & 0xF);
    assert(nibble(x, 6) == nibble(y, 6));
    lemma_nibble_bound(x, 6);
    lemma_nibble_bound(y, 6);
    assert(x >> 24 & 0xF == y >> 24 & 0xF);
    assert(nibble(x, 7) == nibble(y, 7));
    lemma_nibble_bound(x, 7);
    lemma_nibble_bound(y, 7);
    assert(x >> 28 & 0xF == y >> 28 & 0xF);
    assert(nibble(x, 8) == nibble(y, 8));
    lemma_nibble_bound(x, 8);
    lemma_nibble_bound(y, 8);
    assert(x >> 32 & 0xF == y >> 32 & 0xF);
    assert(nibble(x, 9) == nibble(y, 9));
    lemma_nibble_bound(x, 9);
    lemma_nibble_bound(y, 9);
    assert(x >> 36 & 0xF == y >> 36 & 0xF);
    assert(nibble(x, 10) == nibble(y, 10));
    lemma_nibble_bound(x, 10);
    lemma_nibble_bound(y, 10);
    assert(x >> 40 & 0xF == y >> 40 & 0xF);
    assert(nibble(x, 11) == nibble(y, 11));
    lemma_nibble_bound(x, 11);
    lemma_nibble_bound(y, 11);
    assert(x >> 44 & 0xF == y >> 44 & 0xF);
    assert(nibble(x, 12) == nibble(y, 12));
    lemma_nibble_bound(x, 12);
    lemma_nibble_bound(y, 12);
    assert(x >> 48 & 0xF == y >> 48 & 0xF);
    assert(nibble(x, 13) == nibble(y, 13));
    lemma_nibble_bound(x, 13);
    lemma_nibble_bound(y, 13);
    assert(x >> 52 & 0xF == y >> 52 & 0xF);
    assert(nibble(x, 14) == nibble(y, 14));
    lemma_nibble_bound(x, 14);
    lemma_nibble_bound(y, 14);
    assert(x >> 56 & 0xF == y >> 56 & 0xF);
    assert(x == y) by (bit_vector)
        requires
            x >> 0 & 0xF == y >> 0 & 0xF,
            x >> 4 & 0xF == y >> 4 & 0xF,
            x >> 8 & 0xF == y >> 8 & 0xF,
            x >> 12 & 0xF == y >> 12 & 0xF,
            x >> 16 & 0xF == y >> 16 & 0xF,
            x >> 20 & 0xF == y >> 20 & 0xF,
            x >> 24 & 0xF == y >> 24 & 0xF,
            x >> 28 & 0xF == y >> 28 & 0xF,
            x >> 32 & 0xF == y >> 32 & 0xF,
            x >> 36 & 0xF == y >> 36 & 0xF,
            x >> 40 & 0xF == y >> 40 & 0xF,
            x >> 44 & 0xF == y >> 44 & 0xF,
            x >> 48 & 0xF == y >> 48 & 0xF,
            x >> 52 & 0xF == y >> 52 & 0xF,
            x >> 56 & 0xF == y >> 56 & 0xF,
            x >> 60 == 0,
            y >> 60 == 0,
    ;
}

/// Two labellings of the same positions get the same canonical code exactly
/// when they describe the same partition.
pub proof fn lemma_code_identifies_partition(
    d1: Seq<u8>,
    d2: Seq<u8>,
    b: int,
    c1: Seq<u8>,
    c2: Seq<u8>,
    code1: u64,
    code2: u64,
)
    requires
        0 <= b <= MAX_BAG,
        d1.len() == MAX_BAG,
        d2.len() == MAX_BAG,
        canonical_of(c1, d1, b),
        canonical_of(c2, d2, b),
        packs(code1, c1),
        packs(code2, c2),
    ensures
        (code1 == code2) <==> same_partition(d1, d2, b),
{
    if same_partition(d1, d2, b) {
        assert(canonical_of(c2, d1, b)) by {
            assert forall|i: int, j: int| 0 <= i < b && 0 <= j < b && d1[i] != OUT && d1[j] != OUT
                implies (#[trigger] c2[i] == #[trigger] c2[j]) == (d1[i] == d1[j]) by {
                assert(d2[i] != OUT && d2[j] != OUT);
            }
        }
        lemma_canonical_unique(c1, c2, d1, b);
        lemma_packs_unique(code1, code2, c1);
    }
    if code1 == code2 {
        assert(c1 =~= c2) by {
            assert forall|j: int| 0 <= j < MAX_BAG implies c1[j] == c2[j] by {
                assert(nibble(code1, j) == c1[j]);
                assert(nibble(code2, j) == c2[j]);
            }
        }
        assert forall|i: int, j: int| 0 <= i < b && 0 <= j < b && d2[i] != OUT && d2[j] != OUT
            implies (#[trigger] d1[i] == #[trigger] d1[j]) == (d2[i] == d2[j]) by {
            assert(c1[i] != OUT && c1[j] != OUT);
            assert(d1[i] != OUT && d1[j] != OUT);
        }
        assert forall|j: int| 0 <= j < b implies (#[trigger] d1[j] == OUT) == (d2[j] == OUT) by {
            assert((c1[j] == OUT) == (d1[j] == OUT));
            assert((c2[j] == OUT) == (d2[j] == OUT));
        }
    }
}

/// One node of a nice decomposition.
#[derive(Debug, Clone, Copy)]
pub enum Nice {
    Leaf,
    Introduce { child: usize, v: u32 },
    Forget { child: usize, v: u32 },
    Edge { child: usize, u: u32, w: u32, cost: Cost, id: EdgeId },
    Join { left: usize, right: usize },
}

/// Node `k` stands in the right relation to its children: a leaf has the
/// empty bag, an introduce node adds one vertex to its child's bag, a forget
/// node removes one, an edge node keeps the bag and holds both endpoints, and
/// a join node has the bag of both its children. Children come earlier.
pub open spec fn nice_ok(nodes: Seq<Nice>, bags: Seq<Seq<u32>>, k: int) -> bool {
    &&& strictly_sorted(bags[k])
    &&& match nodes[k] {
        Nice::Leaf => bags[k].len() == 0,
        Nice::Introduce { child, v } => {
            &&& child < k
            &&& !bags[child as int].contains(v)
            &&& bags[k].to_set() == bags[child as int].to_set().insert(v)
        },
        Nice::Forget { child, v } => {
            &&& child < k
            &&& bags[child as int].contains(v)
            &&& bags[k].to_set() == bags[child as int].to_set().remove(v)
        },
        Nice::Edge { child, u, w, .. } => {
            &&& child < k
            &&& bags[k].to_set() == bags[child as int].to_set()
            &&& bags[k].contains(u)
            &&& bags[k].contains(w)
        },
        Nice::Join { left, right } => {
            &&& left < k
            &&& right < k
            &&& bags[k].to_set() == bags[left as int].to_set()
            &&& bags[k].to_set() == bags[right as int].to_set()
        },
    }
}

/// Every node stands in the right relation to its children.
pub open spec fn nice_wf(nodes: Seq<Nice>, bags: Seq<Seq<u32>>) -> bool {
    &&& nodes.len() == bags.len()
    &&& forall|k: int| 0 <= k < nodes.len() ==> #[trigger] nice_ok(nodes, bags, k)
}

/// The bags, as sequences.
pub open spec fn bag_views(nb: Seq<Vec<u32>>) -> Seq<Seq<u32>> {
    Seq::new(nb.len(), |k: int| nb[k]@)
}

/// The edges the edge nodes introduce, in node order.
pub open spec fn edge_payloads(nodes: Seq<Nice>) -> Seq<(u32, u32, Cost, EdgeId)>
    decreases nodes.len(),
{
    if nodes.len() == 0 {
        Seq::empty()
    } else {
        let pre = edge_payloads(nodes.drop_last());
        match nodes.last() {
            Nice::Edge { u, w, cost, id, .. } => pre.push((u, w, cost, id)),
            _ => pre,
        }
    }
}

/// The first `i` lists, concatenated.
pub open spec fn flat(lists: Seq<Seq<(u32, u32, Cost, EdgeId)>>, i: int) -> Seq<(u32, u32, Cost, EdgeId)>
    decreases i,
{
    if i <= 0 { Seq::empty() } else { flat(lists, i - 1) + lists[i - 1] }
}

/// Appending a node that stands in the right relation keeps the rest.
proof fn lemma_push_nice(nodes: Seq<Nice>, bags: Seq<Seq<u32>>, n: Nice, bag: Seq<u32>)
    requires
        nice_wf(nodes, bags),
        nice_ok(nodes.push(n), bags.push(bag), nodes.len() as int),
    ensures
        nice_wf(nodes.push(n), bags.push(bag)),
        edge_payloads(nodes.push(n)) == match n {
            Nice::Edge { u, w, cost, id, .. } => edge_payloads(nodes).push((u, w, cost, id)),
            _ => edge_payloads(nodes),
        },
{
    let ns = nodes.push(n);
    let bs = bags.push(bag);
    assert forall|k: int| 0 <= k < ns.len() implies #[trigger] nice_ok(ns, bs, k) by {
        if k < nodes.len() {
            assert(nice_ok(nodes, bags, k));
            assert(ns[k] == nodes[k] && bs[k] == bags[k]);
            match nodes[k] {
                Nice::Leaf => {},
                Nice::Introduce { child, v } => { assert(bs[child as int] == bags[child as int]); },
                Nice::Forget { child, v } => { assert(bs[child as int] == bags[child as int]); },
                Nice::Edge { child, .. } => { assert(bs[child as int] == bags[child as int]); },
                Nice::Join { left, right } => {
                    assert(bs[left as int] == bags[left as int]);
                    assert(bs[right as int] == bags[right as int]);
                },
            }
        }
    }
    assert(ns.drop_last() =~= nodes);
}

/// Append a node with its bag and return its index.
fn push_nice(nodes: &mut Vec<Nice>, nb: &mut Vec<Vec<u32>>, n: Nice, bag: Vec<u32>) -> (k: usize)
    requires
        nice_wf(old(nodes)@, bag_views(old(nb)@)),
        nice_ok(old(nodes)@.push(n), bag_views(old(nb)@).push(bag@), old(nodes)@.len() as int),
    ensures
        k == old(nodes)@.len(),
        final(nodes)@ == old(nodes)@.push(n),
        bag_views(final(nb)@) == bag_views(old(nb)@).push(bag@),
        nice_wf(final(nodes)@, bag_views(final(nb)@)),
        edge_payloads(final(nodes)@) == match n {
            Nice::Edge { u, w, cost, id, .. } => edge_payloads(old(nodes)@).push((u, w, cost, id)),
            _ => edge_payloads(old(nodes)@),
        },
{
    proof {
        lemma_push_nice(nodes@, bag_views(nb@), n, bag@);
    }
    let ghost before = nb@;
    nodes.push(n);
    nb.push(bag);
    proof {
        assert(bag_views(nb@) =~= bag_views(before).push(bag@));
    }
    nodes.len() - 1
}

/// `nodes` and `bags` extend `old_nodes` and `old_bags`.
pub open spec fn extends(nodes: Seq<Nice>, bags: Seq<Seq<u32>>, old_nodes: Seq<Nice>, old_bags: Seq<Seq<u32>>) -> bool {
    &&& old_nodes.len() <= nodes.len()
    &&& old_bags.len() == old_nodes.len()
    &&& nodes.subrange(0, old_nodes.len() as int) == old_nodes
    &&& bags.subrange(0, old_nodes.len() as int) == old_bags
}

proof fn lemma_extends_push(nodes: Seq<Nice>, bags: Seq<Seq<u32>>, n: Nice, bag: Seq<u32>, on: Seq<Nice>, ob: Seq<Seq<u32>>)
    requires
        extends(nodes, bags, on, ob),
        bags.len() == nodes.len(),
    ensures
        extends(nodes.push(n), bags.push(bag), on, ob),
{
    assert(nodes.push(n).subrange(0, on.len() as int) =~= nodes.subrange(0, on.len() as int));
    assert(bags.push(bag).subrange(0, on.len() as int) =~= bags.subrange(0, on.len() as int));
}

proof fn lemma_extends_refl(nodes: Seq<Nice>, bags: Seq<Seq<u32>>)
    requires
        bags.len() == nodes.len(),
    ensures
        extends(nodes, bags, nodes, bags),
{
    assert(nodes.subrange(0, nodes.len() as int) =~= nodes);
    assert(bags.subrange(0, nodes.len() as int) =~= bags);
}

/// Prefix of a sequence, one longer.
proof fn lemma_prefix_contains(s: Seq<u32>, t: int, y: u32)
    requires
        0 <= t < s.len(),
    ensures
        s.subrange(0, t + 1).contains(y) == (s.subrange(0, t).contains(y) || s[t] == y),
{
    let sn = s.subrange(0, t + 1);
    let sp = s.subrange(0, t);
    if sn.contains(y) && s[t] != y {
        let j = choose|j: int| 0 <= j < sn.len() && sn[j] == y;
        assert(sp[j] == y);
    }
    if sp.contains(y) {
        let j = choose|j: int| 0 <= j < sp.len() && sp[j] == y;
        assert(sn[j] == y);
    }
    if s[t] == y {
        assert(sn[t] == y);
    }
}

/// One step of forgetting along `orig`.
proof fn lemma_forget_step(orig: Seq<u32>, target: Seq<u32>, ocb: Seq<u32>, ncb: Seq<u32>, t: int)
    requires
        0 <= t < orig.len(),
        orig.no_duplicates(),
        forall|y: u32| #[trigger] ocb.contains(y) <==> orig.contains(y) && (target.contains(y) || !orig.subrange(0, t).contains(y)),
        target.contains(orig[t]) ==> ncb == ocb,
        !target.contains(orig[t]) ==> ncb.to_set() == ocb.to_set().remove(orig[t]),
    ensures
        forall|y: u32| #[trigger] ncb.contains(y) <==> orig.contains(y) && (target.contains(y) || !orig.subrange(0, t + 1).contains(y)),
{
    assert forall|y: u32| #[trigger] ncb.contains(y) <==> orig.contains(y) && (target.contains(y) || !orig.subrange(0, t + 1).contains(y)) by {
        lemma_prefix_contains(orig, t, y);
        assert(ncb.to_set().contains(y) == ncb.contains(y));
        assert(ocb.to_set().contains(y) == ocb.contains(y));
        if orig.subrange(0, t).contains(orig[t]) {
            let j = choose|j: int| 0 <= j < t && orig.subrange(0, t)[j] == orig[t];
            assert(orig[j] == orig[t]);
        }
    }
}

/// One step of introducing along `target`.
proof fn lemma_introduce_step(target: Seq<u32>, base: Set<u32>, ocb: Seq<u32>, ncb: Seq<u32>, t: int)
    requires
        0 <= t < target.len(),
        forall|y: u32| #[trigger] ocb.contains(y) <==> base.contains(y) || target.subrange(0, t).contains(y),
        ocb.contains(target[t]) ==> ncb == ocb,
        !ocb.contains(target[t]) ==> ncb.to_set() == ocb.to_set().insert(target[t]),
    ensures
        forall|y: u32| #[trigger] ncb.contains(y) <==> base.contains(y) || target.subrange(0, t + 1).contains(y),
{
    assert forall|y: u32| #[trigger] ncb.contains(y) <==> base.contains(y) || target.subrange(0, t + 1).contains(y) by {
        lemma_prefix_contains(target, t, y);
        assert(ncb.to_set().contains(y) == ncb.contains(y));
        assert(ocb.to_set().contains(y) == ocb.contains(y));
    }
}

/// Turn the bag of node `top_c` into `target` by forgetting, then
/// introducing, one vertex at a time. Returns the last node.
fn attach_child(nodes: &mut Vec<Nice>, nb: &mut Vec<Vec<u32>>, top_c: usize, target: &Vec<u32>) -> (cur: usize)
    requires
        nice_wf(old(nodes)@, bag_views(old(nb)@)),
        top_c < old(nodes)@.len(),
        strictly_sorted(target@),
    ensures
        nice_wf(final(nodes)@, bag_views(final(nb)@)),
        extends(final(nodes)@, bag_views(final(nb)@), old(nodes)@, bag_views(old(nb)@)),
        cur < final(nodes)@.len(),
        cur == top_c || cur >= old(nodes)@.len(),
        bag_views(final(nb)@)[cur as int].to_set() == target@.to_set(),
        edge_payloads(final(nodes)@) == edge_payloads(old(nodes)@),
{
    let ghost on = nodes@;
    let ghost ob = bag_views(nb@);
    proof {
        lemma_extends_refl(on, ob);
    }
    let mut cur = top_c;
    let orig = list_copy(&nb[top_c]);
    let mut cur_bag = list_copy(&nb[top_c]);
    proof {
        assert(nice_ok(nodes@, bag_views(nb@), top_c as int));
        super::vertex_sets::lemma_sorted_distinct(orig@);
    }
    let mut t: usize = 0;
    while t < orig.len()
        invariant
            nice_wf(nodes@, bag_views(nb@)),
            extends(nodes@, bag_views(nb@), on, ob),
            strictly_sorted(target@),
            strictly_sorted(orig@),
            orig@.no_duplicates(),
            t <= orig@.len(),
            cur < nodes@.len(),
            cur == top_c || cur >= on.len(),
            bag_views(nb@)[cur as int] == cur_bag@,
            strictly_sorted(cur_bag@),
            forall|y: u32| #[trigger] cur_bag@.contains(y) <==> orig@.contains(y) && (target@.contains(y) || !orig@.subrange(0, t as int).contains(y)),
            edge_payloads(nodes@) == edge_payloads(on),
        decreases orig@.len() - t,
    {
        let v = orig[t];
        if !list_contains(target, v) {
            proof {
                if orig@.subrange(0, t as int).contains(v) {
                    let sp = orig@.subrange(0, t as int);
                    let j = choose|j: int| 0 <= j < sp.len() && sp[j] == v;
                    assert(orig@[j] == orig@[t as int]);
                }
                assert(orig@.contains(v));
                assert(cur_bag@.contains(v));
            }
            let nbag = sorted_without(&cur_bag, v);
            let keep = list_copy(&nbag);
            let ghost pn = nodes@;
            let ghost pb = bag_views(nb@);
            let ghost ocb = cur_bag@;
            proof {
                assert(nice_ok(nodes@.push(Nice::Forget { child: cur, v }), bag_views(nb@).push(nbag@), nodes@.len() as int));
                lemma_extends_push(pn, pb, Nice::Forget { child: cur, v }, nbag@, on, ob);
            }
            cur = push_nice(nodes, nb, Nice::Forget { child: cur, v }, nbag);
            cur_bag = keep;
            proof {
                lemma_forget_step(orig@, target@, ocb, cur_bag@, t as int);
            }
        } else {
            proof {
                lemma_forget_step(orig@, target@, cur_bag@, cur_bag@, t as int);
            }
        }
        t += 1;
    }
    proof {
        assert(orig@.subrange(0, orig@.len() as int) == orig@);
    }
    let mut t: usize = 0;
    while t < target.len()
        invariant
            nice_wf(nodes@, bag_views(nb@)),
            extends(nodes@, bag_views(nb@), on, ob),
            strictly_sorted(target@),
            t <= target@.len(),
            cur < nodes@.len(),
            cur == top_c || cur >= on.len(),
            bag_views(nb@)[cur as int] == cur_bag@,
            strictly_sorted(cur_bag@),
            forall|y: u32| #[trigger] cur_bag@.contains(y) <==> orig@.to_set().intersect(target@.to_set()).contains(y) || target@.subrange(0, t as int).contains(y),
            edge_payloads(nodes@) == edge_payloads(on),
        decreases target@.len() - t,
    {
        let v = target[t];
        let ghost ocb = cur_bag@;
        if !list_contains(&cur_bag, v) {
            let mut nbag = list_copy(&cur_bag);
            sorted_insert(&mut nbag, v);
            let keep = list_copy(&nbag);
            proof {
                assert(nice_ok(nodes@.push(Nice::Introduce { child: cur, v }), bag_views(nb@).push(nbag@), nodes@.len() as int));
                lemma_extends_push(nodes@, bag_views(nb@), Nice::Introduce { child: cur, v }, nbag@, on, ob);
            }
            cur = push_nice(nodes, nb, Nice::Introduce { child: cur, v }, nbag);
            cur_bag = keep;
        }
        proof {
            lemma_introduce_step(target@, orig@.to_set().intersect(target@.to_set()), ocb, cur_bag@, t as int);
        }
        t += 1;
    }
    proof {
        assert(target@.subrange(0, target@.len() as int) == target@);
        assert(cur_bag@.to_set() =~= target@.to_set());
    }
    cur
}

/// A leaf, then `target` introduced one vertex at a time. Returns the last node.
fn introduce_all(nodes: &mut Vec<Nice>, nb: &mut Vec<Vec<u32>>, target: &Vec<u32>) -> (cur: usize)
    requires
        nice_wf(old(nodes)@, bag_views(old(nb)@)),
        strictly_sorted(target@),
    ensures
        nice_wf(final(nodes)@, bag_views(final(nb)@)),
        extends(final(nodes)@, bag_views(final(nb)@), old(nodes)@, bag_views(old(nb)@)),
        old(nodes)@.len() <= cur < final(nodes)@.len(),
        bag_views(final(nb)@)[cur as int].to_set() == target@.to_set(),
        edge_payloads(final(nodes)@) == edge_payloads(old(nodes)@),
{
    let ghost on = nodes@;
    let ghost ob = bag_views(nb@);
    proof {
        lemma_extends_refl(on, ob);
        assert(nice_ok(nodes@.push(Nice::Leaf), bag_views(nb@).push(Seq::<u32>::empty()), nodes@.len() as int));
        lemma_extends_push(nodes@, bag_views(nb@), Nice::Leaf, Seq::<u32>::empty(), on, ob);
    }
    let mut cur = push_nice(nodes, nb, Nice::Leaf, Vec::new());
    let mut cur_bag: Vec<u32> = Vec::new();
    proof {
        super::vertex_sets::lemma_sorted_distinct(target@);
    }
    let mut t: usize = 0;
    while t < target.len()
        invariant
            nice_wf(nodes@, bag_views(nb@)),
            extends(nodes@, bag_views(nb@), on, ob),
            strictly_sorted(target@),
            target@.no_duplicates(),
            t <= target@.len(),
            on.len() <= cur < nodes@.len(),
            bag_views(nb@)[cur as int] == cur_bag@,
            strictly_sorted(cur_bag@),
            forall|y: u32| #[trigger] cur_bag@.contains(y) <==> Set::<u32>::empty().contains(y) || target@.subrange(0, t as int).contains(y),
            edge_payloads(nodes@) == edge_payloads(on),
        decreases target@.len() - t,
    {
        let v = target[t];
        proof {
            if target@.subrange(0, t as int).contains(v) {
                let sp = target@.subrange(0, t as int);
                let j = choose|j: int| 0 <= j < sp.len() && sp[j] == v;
                assert(target@[j] == target@[t as int]);
            }
        }
        let ghost ocb = cur_bag@;
        let mut nbag = list_copy(&cur_bag);
        sorted_insert(&mut nbag, v);
        let keep = list_copy(&nbag);
        proof {
            assert(nice_ok(nodes@.push(Nice::Introduce { child: cur, v }), bag_views(nb@).push(nbag@), nodes@.len() as int));
            lemma_extends_push(nodes@, bag_views(nb@), Nice::Introduce { child: cur, v }, nbag@, on, ob);
        }
        cur = push_nice(nodes, nb, Nice::Introduce { child: cur, v }, nbag);
        cur_bag = keep;
        proof {
            lemma_introduce_step(target@, Set::<u32>::empty(), ocb, cur_bag@, t as int);
        }
        t += 1;
    }
    proof {
        assert(target@.subrange(0, target@.len() as int) == target@);
        assert(cur_bag@.to_set() =~= target@.to_set());
    }
    cur
}

proof fn lemma_extends_index(nodes: Seq<Nice>, bags: Seq<Seq<u32>>, on: Seq<Nice>, ob: Seq<Seq<u32>>, k: int)
    requires
        extends(nodes, bags, on, ob),
        bags.len() == nodes.len(),
        0 <= k < on.len(),
    ensures
        nodes[k] == on[k],
        bags[k] == ob[k],
{
    assert(nodes.subrange(0, on.len() as int)[k] == nodes[k]);
    assert(bags.subrange(0, on.len() as int)[k] == bags[k]);
}

/// `w` lies in every bag.
pub open spec fn in_every_bag(bags: Seq<Vec<u32>>, w: u32) -> bool {
    forall|i: int| 0 <= i < bags.len() ==> (#[trigger] bags[i])@.contains(w)
}

/// The vertex the final node keeps: the one vertex of the root bag when it
/// has one, else the least vertex of every bag.
pub open spec fn final_vertex(bags: Seq<Vec<u32>>, root: int, rv: u32) -> bool {
    if bags[root]@.len() == 1 {
        rv == bags[root]@[0]
    } else {
        in_every_bag(bags, rv) && forall|w: u32| w < rv ==> !in_every_bag(bags, w)
    }
}

/// The edge lists, as sequences.
pub open spec fn edge_lists(edges_at: Seq<Vec<(u32, u32, Cost, EdgeId)>>) -> Seq<Seq<(u32, u32, Cost, EdgeId)>> {
    Seq::new(edges_at.len(), |i: int| edges_at[i]@)
}

/// A strictly increasing list whose set is `{x}` is `[x]`.
proof fn lemma_single(s: Seq<u32>, x: u32)
    requires
        strictly_sorted(s),
        s.to_set() == set![x],
    ensures
        s == seq![x],
{
    assert(s.to_set().contains(x));
    assert(s.contains(x));
    assert forall|k: int| 0 <= k < s.len() implies s[k] == x by {
        assert(s.to_set().contains(s[k]));
    }
    if s.len() > 1 {
        assert(s[0] < s[1]);
    }
    assert(s =~= seq![x]);
}

/// Nice-ify: expand each decomposition node into forget and introduce chains
/// from each child, join the children pairwise, and introduce the edges
/// assigned to it; then forget down from the first root to one vertex.
///
/// Returns the node list, each node's bag, and the index of the final node.
/// `None` when there is no root, or when the root bag has other than one
/// vertex and no vertex lies in every bag.
pub fn build_nice(
    td: &TreeDecomposition,
    bags: &[Vec<u32>],
    edges_at: &[Vec<(u32, u32, Cost, EdgeId)>],
) -> (r: Option<(Vec<Nice>, Vec<Vec<u32>>, usize)>)
    requires
        edges_at.len() == bags.len(),
        td.children@.len() >= bags.len(),
        forall|i: int| 0 <= i < bags.len() ==> strictly_sorted(#[trigger] bags@[i]@),
        forall|i: int, t: int| 0 <= i < bags.len() && 0 <= t < td.children@[i]@.len() ==> #[trigger] td.children@[i]@[t] < i,
        forall|t: int| 0 <= t < td.roots@.len() ==> #[trigger] td.roots@[t] < bags.len(),
        forall|i: int, t: int| 0 <= i < bags.len() && 0 <= t < edges_at@[i]@.len() ==>
            bags@[i]@.contains((#[trigger] edges_at@[i]@[t]).0) && bags@[i]@.contains(edges_at@[i]@[t].1),
    ensures
        r is None <==> td.roots@.len() == 0 || (bags@[td.roots@[0] as int]@.len() != 1
            && !exists|w: u32| in_every_bag(bags@, w)),
        r matches Some((nodes, nb, fin)) ==> {
            &&& nice_wf(nodes@, bag_views(nb@))
            &&& fin < nodes@.len()
            &&& edge_payloads(nodes@) == flat(edge_lists(edges_at@), bags.len() as int)
            &&& exists|rv: u32| #[trigger] nb@[fin as int]@ == seq![rv] && final_vertex(bags@, td.roots@[0] as int, rv)
        },
{
    let mut nodes: Vec<Nice> = Vec::new();
    let mut nb: Vec<Vec<u32>> = Vec::new();
    let mut top: Vec<usize> = Vec::new();
    let mut i: usize = 0;
    proof {
        assert(bag_views(nb@) =~= Seq::<Seq<u32>>::empty());
    }
    while i < bags.len()
        invariant
            edges_at.len() == bags.len(),
            td.children@.len() >= bags.len(),
            forall|k: int| 0 <= k < bags.len() ==> strictly_sorted(#[trigger] bags@[k]@),
            forall|k: int, t: int| 0 <= k < bags.len() && 0 <= t < td.children@[k]@.len() ==> #[trigger] td.children@[k]@[t] < k,
            forall|k: int, t: int| 0 <= k < bags.len() && 0 <= t < edges_at@[k]@.len() ==>
                bags@[k]@.contains((#[trigger] edges_at@[k]@[t]).0) && bags@[k]@.contains(edges_at@[k]@[t].1),
            i <= bags.len(),
            nice_wf(nodes@, bag_views(nb@)),
            top@.len() == i,
            forall|j: int| 0 <= j < i ==> #[trigger] top@[j] < nodes@.len()
                && bag_views(nb@)[top@[j] as int].to_set() == bags@[j]@.to_set(),
            edge_payloads(nodes@) == flat(edge_lists(edges_at@), i as int),
        decreases bags.len() - i,
    {
        let target = &bags[i];
        let ch = &td.children[i];
        let mut merged: Option<usize> = None;
        let mut ci: usize = 0;
        while ci < ch.len()
            invariant
                edges_at.len() == bags.len(),
                i < bags.len(),
                target@ == bags@[i as int]@,
                strictly_sorted(target@),
                ch@ == td.children@[i as int]@,
                forall|t: int| 0 <= t < ch@.len() ==> #[trigger] ch@[t] < i,
                ci <= ch.len(),
                nice_wf(nodes@, bag_views(nb@)),
                top@.len() == i,
                forall|j: int| 0 <= j < i ==> #[trigger] top@[j] < nodes@.len()
                    && bag_views(nb@)[top@[j] as int].to_set() == bags@[j]@.to_set(),
                merged matches Some(m) ==> m < nodes@.len() && bag_views(nb@)[m as int].to_set() == target@.to_set(),
                ci > 0 ==> merged is Some,
                edge_payloads(nodes@) == flat(edge_lists(edges_at@), i as int),
            decreases ch.len() - ci,
        {
            let c = ch[ci];
            let tc = top[c];
            let ghost n0 = nodes@;
            let ghost b0 = bag_views(nb@);
            let cur = attach_child(&mut nodes, &mut nb, tc, target);
            proof {
                assert forall|j: int| 0 <= j < i implies #[trigger] top@[j] < nodes@.len()
                    && bag_views(nb@)[top@[j] as int].to_set() == bags@[j]@.to_set() by {
                    lemma_extends_index(nodes@, bag_views(nb@), n0, b0, top@[j] as int);
                }
                if let Some(m) = merged {
                    lemma_extends_index(nodes@, bag_views(nb@), n0, b0, m as int);
                }
            }
            merged = match merged {
                None => Some(cur),
                Some(prev) => {
                    let bag = list_copy(target);
                    let ghost n1 = nodes@;
                    let ghost b1 = bag_views(nb@);
                    proof {
                        assert(nice_ok(nodes@.push(Nice::Join { left: prev, right: cur }), bag_views(nb@).push(bag@), nodes@.len() as int));
                    }
                    let k = push_nice(&mut nodes, &mut nb, Nice::Join { left: prev, right: cur }, bag);
                    proof {
                        assert forall|j: int| 0 <= j < i implies #[trigger] top@[j] < nodes@.len()
                            && bag_views(nb@)[top@[j] as int].to_set() == bags@[j]@.to_set() by {
                            assert(bag_views(nb@)[top@[j] as int] == b1[top@[j] as int]);
                        }
                    }
                    Some(k)
                },
            };
            ci += 1;
        }
        let ghost n2 = nodes@;
        let ghost b2 = bag_views(nb@);
        let mut cur = match merged {
            Some(m) => m,
            None => introduce_all(&mut nodes, &mut nb, target),
        };
        proof {
            if merged is None {
                assert forall|j: int| 0 <= j < i implies #[trigger] top@[j] < nodes@.len()
                    && bag_views(nb@)[top@[j] as int].to_set() == bags@[j]@.to_set() by {
                    lemma_extends_index(nodes@, bag_views(nb@), n2, b2, top@[j] as int);
                }
            }
        }
        let es = &edges_at[i];
        let mut t: usize = 0;
        while t < es.len()
            invariant
                edges_at.len() == bags.len(),
                i < bags.len(),
                target@ == bags@[i as int]@,
                strictly_sorted(target@),
                es@ == edges_at@[i as int]@,
                forall|q: int| 0 <= q < es@.len() ==> target@.contains((#[trigger] es@[q]).0) && target@.contains(es@[q].1),
                t <= es.len(),
                nice_wf(nodes@, bag_views(nb@)),
                top@.len() == i,
                forall|j: int| 0 <= j < i ==> #[trigger] top@[j] < nodes@.len()
                    && bag_views(nb@)[top@[j] as int].to_set() == bags@[j]@.to_set(),
                cur < nodes@.len(),
                bag_views(nb@)[cur as int].to_set() == target@.to_set(),
                edge_payloads(nodes@) == flat(edge_lists(edges_at@), i as int) + es@.subrange(0, t as int),
            decreases es.len() - t,
        {
            let (u, w, cost, id) = es[t];
            let bag = list_copy(target);
            let ghost n3 = nodes@;
            let ghost b3 = bag_views(nb@);
            proof {
                assert(es@[t as int] == (u, w, cost, id));
                assert(nice_ok(nodes@.push(Nice::Edge { child: cur, u, w, cost, id }), bag_views(nb@).push(bag@), nodes@.len() as int));
            }
            cur = push_nice(&mut nodes, &mut nb, Nice::Edge { child: cur, u, w, cost, id }, bag);
            proof {
                assert forall|j: int| 0 <= j < i implies #[trigger] top@[j] < nodes@.len()
                    && bag_views(nb@)[top@[j] as int].to_set() == bags@[j]@.to_set() by {
                    assert(bag_views(nb@)[top@[j] as int] == b3[top@[j] as int]);
                }
                assert(es@.subrange(0, t + 1) =~= es@.subrange(0, t as int).push((u, w, cost, id)));
                assert(flat(edge_lists(edges_at@), i as int) + es@.subrange(0, t + 1)
                    =~= (flat(edge_lists(edges_at@), i as int) + es@.subrange(0, t as int)).push((u, w, cost, id)));
            }
            t += 1;
        }
        proof {
            assert(es@.subrange(0, es@.len() as int) =~= es@);
            assert(edge_lists(edges_at@)[i as int] == es@);
        }
        top.push(cur);
        proof {
            assert forall|j: int| 0 <= j < i + 1 implies #[trigger] top@[j] < nodes@.len()
                && bag_views(nb@)[top@[j] as int].to_set() == bags@[j]@.to_set() by {
                if j == i {
                    assert(bags@[j]@ == target@);
                }
            }
        }
        i += 1;
    }
    if td.roots.len() == 0 {
        return None;
    }
    let root = td.roots[0];
    let root_bag = &bags[root];
    let rv: u32 = if root_bag.len() == 1 {
        root_bag[0]
    } else {
        let mut common = list_copy(&bags[0]);
        let mut k: usize = 0;
        while k < bags.len()
            invariant
                0 < bags.len(),
                k <= bags.len(),
                forall|q: int| 0 <= q < bags.len() ==> strictly_sorted(#[trigger] bags@[q]@),
                strictly_sorted(common@),
                forall|w: u32| #[trigger] common@.contains(w) <==> (bags@[0]@.contains(w)
                    && forall|q: int| 0 <= q < k ==> (#[trigger] bags@[q])@.contains(w)),
            decreases bags.len() - k,
        {
            let next = sorted_intersect(&common, &bags[k]);
            proof {
                assert forall|w: u32| #[trigger] next@.contains(w) <==> (bags@[0]@.contains(w)
                    && forall|q: int| 0 <= q < k + 1 ==> (#[trigger] bags@[q])@.contains(w)) by {
                    assert(next@.to_set().contains(w) == next@.contains(w));
                    assert(common@.to_set().contains(w) == common@.contains(w));
                    assert(bags@[k as int]@.to_set().contains(w) == bags@[k as int]@.contains(w));
                }
            }
            common = next;
            k += 1;
        }
        if common.len() == 0 {
            proof {
                assert forall|w: u32| !in_every_bag(bags@, w) by {
                    if in_every_bag(bags@, w) {
                        assert(bags@[0]@.contains(w));
                        assert(common@.contains(w));
                    }
                }
            }
            return None;
        }
        proof {
            assert(common@.contains(common@[0]));
            assert forall|w: u32| w < common@[0] implies !in_every_bag(bags@, w) by {
                if in_every_bag(bags@, w) {
                    assert(bags@[0]@.contains(w));
                    assert(common@.contains(w));
                    let j = choose|j: int| 0 <= j < common@.len() && common@[j] == w;
                    if j > 0 {
                        assert(common@[0] < common@[j]);
                    }
                }
            }
        }
        common[0]
    };
    proof {
        assert(bags@[root as int]@.contains(rv)) by {
            if root_bag@.len() == 1 {
                assert(root_bag@[0] == rv);
            }
        }
    }
    let mut cur = top[root];
    let orig = list_copy(&nb[cur]);
    let mut cur_bag = list_copy(&nb[cur]);
    let target = vec![rv];
    let ghost n4 = nodes@;
    let ghost b4 = bag_views(nb@);
    proof {
        assert(nice_ok(nodes@, bag_views(nb@), cur as int));
        super::vertex_sets::lemma_sorted_distinct(orig@);
        assert(orig@.subrange(0, 0) =~= Seq::<u32>::empty());
        assert(bag_views(nb@)[top@[root as int] as int].to_set() == bags@[root as int]@.to_set());
        assert(orig@.to_set() == bags@[root as int]@.to_set());
        assert(bags@[root as int]@.to_set().contains(rv));
        assert(orig@.to_set().contains(rv));
    }
    let mut t: usize = 0;
    while t < orig.len()
        invariant
            nice_wf(nodes@, bag_views(nb@)),
            target@ == seq![rv],
            strictly_sorted(orig@),
            orig@.no_duplicates(),
            orig@.to_set() == bags@[root as int]@.to_set(),
            orig@.contains(rv),
            t <= orig@.len(),
            cur < nodes@.len(),
            bag_views(nb@)[cur as int] == cur_bag@,
            strictly_sorted(cur_bag@),
            forall|y: u32| #[trigger] cur_bag@.contains(y) <==> orig@.contains(y) && (target@.contains(y) || !orig@.subrange(0, t as int).contains(y)),
            edge_payloads(nodes@) == flat(edge_lists(edges_at@), bags.len() as int),
        decreases orig@.len() - t,
    {
        let v = orig[t];
        let ghost ocb = cur_bag@;
        if v != rv {
            proof {
                lemma_prefix_contains(orig@, t as int, v);
                if orig@.subrange(0, t as int).contains(v) {
                    let sp = orig@.subrange(0, t as int);
                    let j = choose|j: int| 0 <= j < sp.len() && sp[j] == v;
                    assert(orig@[j] == orig@[t as int]);
                }
                assert(orig@.contains(v));
                assert(cur_bag@.contains(v));
            }
            let nbag = sorted_without(&cur_bag, v);
            let keep = list_copy(&nbag);
            proof {
                assert(nice_ok(nodes@.push(Nice::Forget { child: cur, v }), bag_views(nb@).push(nbag@), nodes@.len() as int));
            }
            cur = push_nice(&mut nodes, &mut nb, Nice::Forget { child: cur, v }, nbag);
            cur_bag = keep;
            proof {
                if target@.contains(v) {
                    let j = choose|j: int| 0 <= j < target@.len() && target@[j] == v;
                    assert(target@[j] == rv);
                }
                lemma_forget_step(orig@, target@, ocb, cur_bag@, t as int);
            }
        } else {
            proof {
                assert(target@[0] == v);
                assert(target@.contains(v));
                lemma_forget_step(orig@, target@, ocb, cur_bag@, t as int);
            }
        }
        t += 1;
    }
    proof {
        assert(orig@.subrange(0, orig@.len() as int) == orig@);
        assert(cur_bag@.to_set() =~= set![rv]) by {
            assert forall|y: u32| cur_bag@.to_set().contains(y) <==> set![rv].contains(y) by {
                assert(cur_bag@.to_set().contains(y) == cur_bag@.contains(y));
            }
        }
        lemma_single(cur_bag@, rv);
        assert(nb@[cur as int]@ == seq![rv]);
        assert(final_vertex(bags@, root as int, rv));
    }
    Some((nodes, nb, cur))
}

/// How a state was reached, so the tree can be read back out.
#[derive(Debug, Clone, Copy, PartialEq, Eq, Structural)]
pub enum Back {
    Leaf,
    /// Introduce-vertex, forget-vertex, or an edge not taken: one child state.
    Unary(u64),
    /// Introduce-edge, with the edge taken.
    Edge(u64, EdgeId),
    Join(u64, u64),
}

/// A sparse table of one nice node: each signature with the least cost found
/// for it and how that cost was reached, in the order first found.
pub struct Table {
    pub codes: Vec<u64>,
    pub costs: Vec<Cost>,
    pub backs: Vec<Back>,
    pub index: HashMap<u64, usize>,
}

/// `a + b`, saturating at `u64::MAX`.
pub open spec fn sat(x: int) -> u64 {
    if x > u64::MAX { u64::MAX } else { x as u64 }
}

/// Every entry of `t` is `(cost, back)` or an entry of `o`.
pub open spec fn entries_from(t: Table, o: Table, cost: Cost, back: Back) -> bool {
    forall|k: int| 0 <= k < t.codes@.len() ==> {
        ||| (t.costs@[k], #[trigger] t.backs@[k]) == (cost, back)
        ||| (exists|j: int| 0 <= j < o.codes@.len() && o.costs@[j] == t.costs@[k] && o.backs@[j] == t.backs@[k])
    }
}

/// Entry `k` of `r` repeats the cost and the trace of some entry of `t`.
pub open spec fn drawn_at(r: Table, t: Table, k: int) -> bool {
    exists|j: int| 0 <= j < t.codes@.len() && t.costs@[j] == r.costs@[k] && t.backs@[j] == r.backs@[k]
}

/// Every entry of `r` repeats the cost and the trace of some entry of `t`.
pub open spec fn drawn_from(r: Table, t: Table) -> bool {
    forall|k: int| 0 <= k < r.codes@.len() ==> #[trigger] drawn_at(r, t, k)
}

/// Offering an entry of `t` keeps a table drawn from `t`.
proof fn lemma_drawn_step(r: Table, o: Table, t: Table, e: int)
    requires
        drawn_from(o, t),
        0 <= e < t.codes@.len(),
        entries_from(r, o, t.costs@[e], t.backs@[e]),
    ensures
        drawn_from(r, t),
{
    assert forall|k: int| 0 <= k < r.codes@.len() implies #[trigger] drawn_at(r, t, k) by {
        if (r.costs@[k], r.backs@[k]) == (t.costs@[e], t.backs@[e]) {
            assert(t.backs@[e] == r.backs@[k]);
        } else {
            let j0 = choose|j0: int| 0 <= j0 < o.codes@.len() && o.costs@[j0] == r.costs@[k] && o.backs@[j0] == r.backs@[k];
            assert(drawn_at(o, t, j0));
        }
    }
}

impl Table {
    /// The index names, for every signature held, its position.
    pub open spec fn wf(&self) -> bool {
        &&& self.codes@.len() == self.costs@.len()
        &&& self.codes@.len() == self.backs@.len()
        &&& forall|k: int| 0 <= k < self.codes@.len() ==>
            self.index@.contains_key(#[trigger] self.codes@[k]) && self.index@[self.codes@[k]] == k
        &&& forall|c: u64| #[trigger] self.index@.contains_key(c) ==>
            self.index@[c] < self.codes@.len() && self.codes@[self.index@[c] as int] == c
    }

    /// Whether the signature `c` is held.
    pub open spec fn has(&self, c: u64) -> bool {
        self.index@.contains_key(c)
    }

    /// The cost held for `c`.
    pub open spec fn cost_of(&self, c: u64) -> Cost {
        self.costs@[self.index@[c] as int]
    }

    /// How the cost held for `c` was reached.
    pub open spec fn back_of(&self, c: u64) -> Back {
        self.backs@[self.index@[c] as int]
    }

    /// The same entries as `g`, or none at all.
    pub open spec fn same_or_empty(&self, g: Table) -> bool {
        (self.codes@ == g.codes@ && self.costs@ == g.costs@ && self.backs@ == g.backs@ && self.index@ == g.index@)
            || self.codes@.len() == 0
    }

    pub fn new() -> (t: Table)
        ensures
            t.wf(),
            t.codes@.len() == 0,
    {
        Table { codes: Vec::new(), costs: Vec::new(), backs: Vec::new(), index: HashMap::new() }
    }

    pub fn len(&self) -> (r: usize)
        ensures
            r == self.codes@.len(),
    {
        self.codes.len()
    }

    /// The cost and back pointer held for `code`, if any.
    pub fn get(&self, code: u64) -> (r: Option<(Cost, Back)>)
        requires
            self.wf(),
        ensures
            r is None <==> !self.has(code),
            r matches Some((c, b)) ==> c == self.cost_of(code) && b == self.back_of(code),
    {
        match self.index.get(&code) {
            Some(k) => {
                let k = *k;
                Some((self.costs[k], self.backs[k]))
            },
            None => None,
        }
    }

    /// Add an entry for a signature not held yet.
    pub fn insert_new(&mut self, code: u64, cost: Cost, back: Back)
        requires
            old(self).wf(),
            !old(self).has(code),
        ensures
            final(self).wf(),
            final(self).codes@ == old(self).codes@.push(code),
            final(self).costs@ == old(self).costs@.push(cost),
            final(self).backs@ == old(self).backs@.push(back),
            final(self).index@ == old(self).index@.insert(code, old(self).codes@.len() as usize),
    {
        let k = self.codes.len();
        self.codes.push(code);
        self.costs.push(cost);
        self.backs.push(back);
        self.index.insert(code, k);
        proof {
            assert forall|c: u64| #[trigger] self.index@.contains_key(c) implies
                self.index@[c] < self.codes@.len() && self.codes@[self.index@[c] as int] == c by {
                if c != code {
                    assert(old(self).index@.contains_key(c));
                }
            }
            assert forall|j: int| 0 <= j < self.codes@.len() implies
                self.index@.contains_key(#[trigger] self.codes@[j]) && self.index@[self.codes@[j]] == j by {
                if j < k {
                    assert(self.codes@[j] == old(self).codes@[j]);
                    assert(old(self).index@.contains_key(old(self).codes@[j]));
                    if old(self).codes@[j] == code {
                        assert(false);
                    }
                }
            }
        }
    }

    /// Keep the cheaper of the held entry for `code` and the offered one; an
    /// equal cost keeps the held entry.
    pub fn relax(&mut self, code: u64, cost: Cost, back: Back)
        requires
            old(self).wf(),
        ensures
            final(self).wf(),
            final(self).has(code),
            forall|c: u64| c != code ==> (final(self).has(c) <==> old(self).has(c)),
            forall|c: u64| c != code && old(self).has(c) ==>
                final(self).cost_of(c) == old(self).cost_of(c) && final(self).back_of(c) == old(self).back_of(c),
            (final(self).cost_of(code), final(self).back_of(code)) == if old(self).has(code) && old(self).cost_of(code) <= cost {
                (old(self).cost_of(code), old(self).back_of(code))
            } else {
                (cost, back)
            },
            entries_from(*final(self), *old(self), cost, back),
            final(self).cost_of(code) <= cost,
            forall|c: u64| #[trigger] old(self).has(c) ==> final(self).has(c) && final(self).cost_of(c) <= old(self).cost_of(c),
    {
        match self.index.get(&code) {
            Some(k) => {
                let k = *k;
                if self.costs[k] <= cost {
                    proof {
                        assert forall|j: int| 0 <= j < self.codes@.len() implies {
                            ||| (self.costs@[j], #[trigger] self.backs@[j]) == (cost, back)
                            ||| (exists|j2: int| 0 <= j2 < old(self).codes@.len()
                                && old(self).costs@[j2] == self.costs@[j] && old(self).backs@[j2] == self.backs@[j])
                        } by {
                            assert(old(self).costs@[j] == self.costs@[j]);
                        }
                    }
                } else {
                    self.costs.set(k, cost);
                    self.backs.set(k, back);
                    proof {
                        assert forall|j: int| 0 <= j < self.codes@.len() implies {
                            ||| (self.costs@[j], #[trigger] self.backs@[j]) == (cost, back)
                            ||| (exists|j2: int| 0 <= j2 < old(self).codes@.len()
                                && old(self).costs@[j2] == self.costs@[j] && old(self).backs@[j2] == self.backs@[j])
                        } by {
                            if j != k {
                                assert(old(self).costs@[j] == self.costs@[j]);
                            }
                        }
                        assert forall|c: u64| c != code && old(self).has(c) implies
                            self.cost_of(c) == old(self).cost_of(c) && self.back_of(c) == old(self).back_of(c) by {
                            assert(old(self).index@[c] != k);
                        }
                    }
                }
            },
            None => {
                self.insert_new(code, cost, back);
                proof {
                    let old_len = old(self).codes@.len() as int;
                    assert forall|j: int| 0 <= j < self.codes@.len() implies {
                        ||| (self.costs@[j], #[trigger] self.backs@[j]) == (cost, back)
                        ||| (exists|j2: int| 0 <= j2 < old(self).codes@.len()
                            && old(self).costs@[j2] == self.costs@[j] && old(self).backs@[j2] == self.backs@[j])
                    } by {
                        if j < old_len {
                            assert(old(self).costs@[j] == self.costs@[j]);
                        }
                    }
                    assert forall|c: u64| c != code && old(self).has(c) implies
                        self.cost_of(c) == old(self).cost_of(c) && self.back_of(c) == old(self).back_of(c) by {
                        assert(old(self).index@[c] < old_len);
                        assert(self.index@[c] == old(self).index@[c]);
                    }
                    assert(self.index@.contains_key(code));
                }
            },
        }
    }
}

/// Every unpacked nibble is a block index or `OUT`.
proof fn lemma_decoded_small(code: u64, b: int)
    ensures
        forall|j: int| 0 <= j < MAX_BAG ==> #[trigger] decoded(code, b)[j] <= OUT,
{
    assert forall|j: int| 0 <= j < MAX_BAG implies #[trigger] decoded(code, b)[j] <= OUT by {
        if j < b {
            lemma_nibble_bound(code, j as u64);
            assert(4 * (j as u64) == (4 * j) as u64);
        }
    }
}

/// Every entry of `t` came, with its cost, from the entry of `g` its back
/// pointer names.
pub open spec fn unary_entries_ok(t: Table, g: Table) -> bool {
    forall|k: int| 0 <= k < t.codes@.len() ==> (#[trigger] t.backs@[k] matches Back::Unary(c)
        && g.has(c) && g.cost_of(c) == t.costs@[k])
}

/// Every entry of `t` is an entry of `g` passed on, or one taking the edge
/// `id` of cost `ec` on top of an entry of `g`.
pub open spec fn edge_entries_ok(t: Table, g: Table, ec: Cost, id: EdgeId) -> bool {
    forall|k: int| 0 <= k < t.codes@.len() ==> {
        ||| (#[trigger] t.backs@[k] matches Back::Unary(c) && g.has(c) && g.cost_of(c) == t.costs@[k])
        ||| (t.backs@[k] matches Back::Edge(c, e) && e == id && g.has(c) && t.costs@[k] == sat(g.cost_of(c) + ec))
    }
}

/// Every entry of `t` joins an entry of `gl` with one of `gr`, at the sum of
/// their costs.
pub open spec fn join_entries_ok(t: Table, gl: Table, gr: Table) -> bool {
    forall|k: int| 0 <= k < t.codes@.len() ==> (#[trigger] t.backs@[k] matches Back::Join(a, c)
        && gl.has(a) && gr.has(c) && t.costs@[k] == sat(gl.cost_of(a) + gr.cost_of(c)))
}

proof fn lemma_keep_unary(t: Table, o: Table, g: Table, cost: Cost, back: Back)
    requires
        entries_from(t, o, cost, back),
        unary_entries_ok(o, g),
        back matches Back::Unary(c) && g.has(c) && g.cost_of(c) == cost,
    ensures
        unary_entries_ok(t, g),
{
    assert forall|k: int| 0 <= k < t.codes@.len() implies (#[trigger] t.backs@[k] matches Back::Unary(c)
        && g.has(c) && g.cost_of(c) == t.costs@[k]) by {
        if (t.costs@[k], t.backs@[k]) != (cost, back) {
            let j = choose|j: int| 0 <= j < o.codes@.len() && o.costs@[j] == t.costs@[k] && o.backs@[j] == t.backs@[k];
            assert(o.backs@[j] matches Back::Unary(c) && g.has(c) && g.cost_of(c) == o.costs@[j]);
        }
    }
}

proof fn lemma_keep_edge(t: Table, o: Table, g: Table, ec: Cost, id: EdgeId, cost: Cost, back: Back)
    requires
        entries_from(t, o, cost, back),
        edge_entries_ok(o, g, ec, id),
        (back matches Back::Unary(c) && g.has(c) && g.cost_of(c) == cost)
            || (back matches Back::Edge(c, e) && e == id && g.has(c) && cost == sat(g.cost_of(c) + ec)),
    ensures
        edge_entries_ok(t, g, ec, id),
{
    assert forall|k: int| 0 <= k < t.codes@.len() implies {
        ||| (#[trigger] t.backs@[k] matches Back::Unary(c) && g.has(c) && g.cost_of(c) == t.costs@[k])
        ||| (t.backs@[k] matches Back::Edge(c, e) && e == id && g.has(c) && t.costs@[k] == sat(g.cost_of(c) + ec))
    } by {
        if (t.costs@[k], t.backs@[k]) != (cost, back) {
            let j = choose|j: int| 0 <= j < o.codes@.len() && o.costs@[j] == t.costs@[k] && o.backs@[j] == t.backs@[k];
            assert(o.backs@[j] == o.backs@[j]);
        }
    }
}

proof fn lemma_keep_join(t: Table, o: Table, gl: Table, gr: Table, cost: Cost, back: Back)
    requires
        entries_from(t, o, cost, back),
        join_entries_ok(o, gl, gr),
        back matches Back::Join(a, c) && gl.has(a) && gr.has(c) && cost == sat(gl.cost_of(a) + gr.cost_of(c)),
    ensures
        join_entries_ok(t, gl, gr),
{
    assert forall|k: int| 0 <= k < t.codes@.len() implies (#[trigger] t.backs@[k] matches Back::Join(a, c)
        && gl.has(a) && gr.has(c) && t.costs@[k] == sat(gl.cost_of(a) + gr.cost_of(c))) by {
        if (t.costs@[k], t.backs@[k]) != (cost, back) {
            let j = choose|j: int| 0 <= j < o.codes@.len() && o.costs@[j] == t.costs@[k] && o.backs@[j] == t.backs@[k];
            assert(o.backs@[j] == o.backs@[j]);
        }
    }
}

/// Reading entry `k` of a table that is `g` or empty reads `g`.
proof fn lemma_read_entry(ct: Table, g: Table, k: int)
    requires
        ct.wf(),
        ct.same_or_empty(g),
        0 <= k < ct.codes@.len(),
    ensures
        g.has(ct.codes@[k]),
        g.cost_of(ct.codes@[k]) == ct.costs@[k],
{
    assert(ct.index@.contains_key(ct.codes@[k]));
}

/// `t` holds the signature `c` at a cost of at most `x`.
pub open spec fn holds_at_most(t: Table, c: u64, x: Cost) -> bool {
    t.has(c) && t.cost_of(c) <= x
}

/// `r` is the canonical signature of `code` re-based from the bag `from` to
/// the bag `to` (see [`rebase`]).
pub open spec fn is_rebase(code: u64, from: Seq<u32>, to: Seq<u32>, b: int, r: u64) -> bool {
    exists|c: Seq<u8>| canonical_of(c, rebased(code, from, to, b), b) && packs(r, c)
}

/// `t` holds `code` re-based from `from` to `to` at a cost of at most `x`.
pub open spec fn rebase_held(t: Table, code: u64, from: Seq<u32>, to: Seq<u32>, b: int, x: Cost) -> bool {
    exists|r: u64| #[trigger] is_rebase(code, from, to, b, r) && holds_at_most(t, r, x)
}

/// A forget node keeps the child signature `code`: the forgotten vertex at
/// position `vp` is out of the forest and no terminal, or shares its block
/// with another vertex of the child bag.
pub open spec fn forget_keeps(code: u64, cbl: int, vp: int, terminal: bool) -> bool {
    if nibble(code, vp) == OUT {
        !terminal
    } else {
        exists|j: int| 0 <= j < cbl && j != vp && #[trigger] nibble(code, j) == nibble(code, vp)
    }
}

/// No signature held is lost or dearer after a relaxation.
pub open spec fn no_dearer(t: Table, t0: Table) -> bool {
    forall|c: u64| #[trigger] t0.has(c) ==> t.has(c) && t.cost_of(c) <= t0.cost_of(c)
}

/// What a table held it still holds, at no greater cost.
proof fn lemma_rebase_held_kept(t: Table, t0: Table, code: u64, from: Seq<u32>, to: Seq<u32>, b: int, x: Cost)
    requires
        no_dearer(t, t0),
        rebase_held(t0, code, from, to, b, x),
    ensures
        rebase_held(t, code, from, to, b, x),
{
    let r = choose|r: u64| #[trigger] is_rebase(code, from, to, b, r) && holds_at_most(t0, r, x);
    assert(t0.has(r));
    assert(is_rebase(code, from, to, b, r) && holds_at_most(t, r, x));
}

/// The states of an introduce node: each child state re-based onto the wider
/// bag, once with the new vertex out of the forest and once with it alone in
/// a new block.
fn introduce_table(ct: &Table, cb: &Vec<u32>, bag: &Vec<u32>, vp: usize, Ghost(g): Ghost<Table>) -> (t: Table)
    requires
        ct.wf(),
        ct.same_or_empty(g),
        cb@.len() <= MAX_BAG,
        bag@.len() <= MAX_BAG,
        vp < bag@.len(),
        increasing(cb@),
        increasing(bag@),
    ensures
        t.wf(),
        unary_entries_ok(t, g),
        forall|k: int| 0 <= k < ct.codes@.len() ==>
            rebase_held(t, #[trigger] ct.codes@[k], cb@, bag@, bag@.len() as int, ct.costs@[k]),
{
    let b = bag.len();
    let mut t = Table::new();
    let mut k: usize = 0;
    while k < ct.len()
        invariant
            ct.wf(),
            ct.same_or_empty(g),
            cb@.len() <= MAX_BAG,
            b == bag@.len(),
            b <= MAX_BAG,
            vp < b,
            increasing(cb@),
            increasing(bag@),
            k <= ct.codes@.len(),
            t.wf(),
            unary_entries_ok(t, g),
            forall|k2: int| 0 <= k2 < k ==> rebase_held(t, #[trigger] ct.codes@[k2], cb@, bag@, b as int, ct.costs@[k2]),
        decreases ct.codes@.len() - k,
    {
        let code = ct.codes[k];
        let cost = ct.costs[k];
        proof {
            lemma_read_entry(*ct, g, k as int);
        }
        let base = rebase(code, cb.as_slice(), bag.as_slice(), b);
        let ghost t0 = t;
        t.relax(base, cost, Back::Unary(code));
        proof {
            lemma_keep_unary(t, t0, g, cost, Back::Unary(code));
            assert(no_dearer(t, t0));
            assert forall|k2: int| 0 <= k2 < k + 1 implies rebase_held(t, #[trigger] ct.codes@[k2], cb@, bag@, b as int, ct.costs@[k2]) by {
                if k2 < k {
                    lemma_rebase_held_kept(t, t0, ct.codes@[k2], cb@, bag@, b as int, ct.costs@[k2]);
                } else {
                    assert(is_rebase(code, cb@, bag@, b as int, base) && holds_at_most(t, base, cost));
                }
            }
        }
        let mut d = decode(base, b);
        proof {
            lemma_decoded_small(base, b as int);
        }
        let fb = free_block(&d, b);
        d[vp] = fb;
        let with = encode_canonical(&mut d, b);
        let ghost t1 = t;
        t.relax(with, cost, Back::Unary(code));
        proof {
            lemma_keep_unary(t, t1, g, cost, Back::Unary(code));
            assert(no_dearer(t, t1));
            assert forall|k2: int| 0 <= k2 < k + 1 implies rebase_held(t, #[trigger] ct.codes@[k2], cb@, bag@, b as int, ct.costs@[k2]) by {
                lemma_rebase_held_kept(t, t1, ct.codes@[k2], cb@, bag@, b as int, ct.costs@[k2]);
            }
        }
        k += 1;
    }
    t
}

/// The states of a forget node: each child state re-based onto the narrower
/// bag, unless the forgotten vertex is a terminal left out of the forest, or
/// is alone in its block (its component would be cut off).
fn forget_table(ct: &Table, cb: &Vec<u32>, bag: &Vec<u32>, vp: usize, terminal: bool, Ghost(g): Ghost<Table>) -> (t: Table)
    requires
        ct.wf(),
        ct.same_or_empty(g),
        cb@.len() <= MAX_BAG,
        bag@.len() <= MAX_BAG,
        vp < cb@.len(),
        increasing(cb@),
        increasing(bag@),
    ensures
        t.wf(),
        unary_entries_ok(t, g),
        forall|k: int| 0 <= k < ct.codes@.len() && forget_keeps(#[trigger] ct.codes@[k], cb@.len() as int, vp as int, terminal) ==>
            rebase_held(t, ct.codes@[k], cb@, bag@, bag@.len() as int, ct.costs@[k]),
{
    let b = bag.len();
    let cbl = cb.len();
    let mut t = Table::new();
    let mut k: usize = 0;
    while k < ct.len()
        invariant
            ct.wf(),
            ct.same_or_empty(g),
            cbl == cb@.len(),
            cbl <= MAX_BAG,
            b == bag@.len(),
            b <= MAX_BAG,
            vp < cbl,
            increasing(cb@),
            increasing(bag@),
            k <= ct.codes@.len(),
            t.wf(),
            unary_entries_ok(t, g),
            forall|k2: int| 0 <= k2 < k && forget_keeps(#[trigger] ct.codes@[k2], cbl as int, vp as int, terminal) ==>
                rebase_held(t, ct.codes@[k2], cb@, bag@, b as int, ct.costs@[k2]),
        decreases ct.codes@.len() - k,
    {
        let code = ct.codes[k];
        let cost = ct.costs[k];
        proof {
            lemma_read_entry(*ct, g, k as int);
        }
        let d = decode(code, cbl);
        let mut keep = true;
        if d[vp] == OUT {
            if terminal {
                keep = false;
            }
        } else {
            let mut alone = true;
            let mut j: usize = 0;
            while j < cbl
                invariant
                    j <= cbl,
                    cbl <= MAX_BAG,
                    vp < cbl,
                    d@ == decoded(code, cbl as int),
                    alone <==> forall|j2: int| 0 <= j2 < j ==> !(j2 != vp && #[trigger] nibble(code, j2) == nibble(code, vp as int)),
                decreases cbl - j,
            {
                if j != vp && d[j] == d[vp] {
                    alone = false;
                }
                j += 1;
            }
            if alone {
                keep = false;
            }
        }
        proof {
            assert(keep == forget_keeps(code, cbl as int, vp as int, terminal));
        }
        if keep {
            let out = rebase(code, cb.as_slice(), bag.as_slice(), b);
            let ghost t0 = t;
            t.relax(out, cost, Back::Unary(code));
            proof {
                lemma_keep_unary(t, t0, g, cost, Back::Unary(code));
                assert(no_dearer(t, t0));
                assert forall|k2: int| 0 <= k2 < k + 1 && forget_keeps(#[trigger] ct.codes@[k2], cbl as int, vp as int, terminal) implies
                    rebase_held(t, ct.codes@[k2], cb@, bag@, b as int, ct.costs@[k2]) by {
                    if k2 < k {
                        lemma_rebase_held_kept(t, t0, ct.codes@[k2], cb@, bag@, b as int, ct.costs@[k2]);
                    } else {
                        assert(is_rebase(code, cb@, bag@, b as int, out) && holds_at_most(t, out, cost));
                    }
                }
            }
        }
        k += 1;
    }
    t
}

/// The states of an introduce-edge node: every child state with the edge not
/// taken, and, where both ends are in the forest in different blocks, with
/// the edge taken and the two blocks merged.
fn edge_table(ct: &Table, b: usize, up: usize, wp: usize, ec: Cost, id: EdgeId, Ghost(g): Ghost<Table>) -> (t: Table)
    requires
        ct.wf(),
        ct.same_or_empty(g),
        b <= MAX_BAG,
        up < b,
        wp < b,
    ensures
        t.wf(),
        edge_entries_ok(t, g, ec, id),
        forall|k: int| 0 <= k < ct.codes@.len() ==> holds_at_most(t, #[trigger] ct.codes@[k], ct.costs@[k]),
{
    let mut t = Table::new();
    let mut k: usize = 0;
    while k < ct.len()
        invariant
            ct.wf(),
            ct.same_or_empty(g),
            b <= MAX_BAG,
            up < b,
            wp < b,
            k <= ct.codes@.len(),
            t.wf(),
            edge_entries_ok(t, g, ec, id),
            forall|k2: int| 0 <= k2 < k ==> holds_at_most(t, #[trigger] ct.codes@[k2], ct.costs@[k2]),
        decreases ct.codes@.len() - k,
    {
        let code = ct.codes[k];
        let cost = ct.costs[k];
        proof {
            lemma_read_entry(*ct, g, k as int);
        }
        let ghost t0 = t;
        t.relax(code, cost, Back::Unary(code));
        proof {
            lemma_keep_edge(t, t0, g, ec, id, cost, Back::Unary(code));
            assert(no_dearer(t, t0));
            assert forall|k2: int| 0 <= k2 < k + 1 implies holds_at_most(t, #[trigger] ct.codes@[k2], ct.costs@[k2]) by {
                if k2 < k {
                    assert(t0.has(ct.codes@[k2]));
                }
            }
        }
        let mut d = decode(code, b);
        proof {
            lemma_decoded_small(code, b as int);
        }
        if !(d[up] == OUT || d[wp] == OUT || d[up] == d[wp]) {
            let keep = d[up];
            let drop = d[wp];
            let mut j: usize = 0;
            while j < b
                invariant
                    b <= MAX_BAG,
                    j <= b,
                    keep <= OUT,
                    forall|x: int| 0 <= x < MAX_BAG ==> #[trigger] d@[x] <= OUT,
                decreases b - j,
            {
                if d[j] == drop {
                    d[j] = keep;
                }
                j += 1;
            }
            let merged = encode_canonical(&mut d, b);
            let ghost t1 = t;
            t.relax(merged, cost.saturating_add(ec), Back::Edge(code, id));
            proof {
                lemma_keep_edge(t, t1, g, ec, id, cost.saturating_add(ec), Back::Edge(code, id));
                assert(no_dearer(t, t1));
                assert forall|k2: int| 0 <= k2 < k + 1 implies holds_at_most(t, #[trigger] ct.codes@[k2], ct.costs@[k2]) by {
                    assert(t1.has(ct.codes@[k2]));
                }
            }
        }
        k += 1;
    }
    t
}

/// The position `k` is listed in some group.
pub open spec fn grouped(groups: Seq<Vec<usize>>, k: int) -> bool {
    exists|g: int, j: int| 0 <= g < groups.len() && 0 <= j < groups[g]@.len() && #[trigger] groups[g]@[j] == k as usize
}

/// The entries of `t` grouped by used-position mask: the masks in
/// increasing order, and for each the positions of its entries, increasing.
fn group_by_mask(t: &Table, b: usize) -> (r: (Vec<u32>, Vec<Vec<usize>>))
    requires
        b <= MAX_BAG,
    ensures
        r.0@.len() == r.1@.len(),
        forall|i: int, j: int| 0 <= i < r.1@.len() && 0 <= j < r.1@[i]@.len() ==> (#[trigger] r.1@[i]@[j]) < t.codes@.len()
            && mask_upto(t.codes@[r.1@[i]@[j] as int], b as int) == r.0@[i],
        forall|k: int| 0 <= k < t.codes@.len() ==> #[trigger] grouped(r.1@, k),
{
    let n = t.len();
    let mut keys: Vec<u64> = Vec::new();
    let mut k: usize = 0;
    while k < n
        invariant
            b <= MAX_BAG,
            n == t.codes@.len(),
            k <= n,
            keys@.len() == k,
            forall|x: int| 0 <= x < k ==> #[trigger] keys@[x] <= u32::MAX,
            forall|x: int| 0 <= x < k ==> #[trigger] keys@[x] == mask_upto(t.codes@[x], b as int) as u64,
        decreases n - k,
    {
        keys.push(used_mask(t.codes[k], b) as u64);
        k += 1;
    }
    let order = by_cost(keys.as_slice());
    let mut masks: Vec<u32> = Vec::new();
    let mut groups: Vec<Vec<usize>> = Vec::new();
    let mut i: usize = 0;
    while i < order.len()
        invariant
            n == t.codes@.len(),
            keys@.len() == n,
            order@.len() == n,
            forall|x: int| 0 <= x < n ==> #[trigger] keys@[x] <= u32::MAX,
            forall|x: int| 0 <= x < n ==> #[trigger] keys@[x] == mask_upto(t.codes@[x], b as int) as u64,
            forall|x: int| 0 <= x < order@.len() ==> (#[trigger] order@[x] as int) < n,
            i <= order@.len(),
            masks@.len() == groups@.len(),
            forall|x: int, j: int| 0 <= x < groups@.len() && 0 <= j < groups@[x]@.len() ==> (#[trigger] groups@[x]@[j]) < n
                && mask_upto(t.codes@[groups@[x]@[j] as int], b as int) == masks@[x],
            forall|x: int| 0 <= x < i ==> #[trigger] grouped(groups@, order@[x] as int),
        decreases order@.len() - i,
    {
        let k = order[i];
        let m = keys[k] as u32;
        let ghost head = groups@;
        let last = masks.len();
        if last == 0 || masks[last - 1] != m {
            masks.push(m);
            groups.push(Vec::new());
        }
        let gi = groups.len() - 1;
        let ghost before = groups@;
        groups[gi].push(k);
        proof {
            assert forall|x: int, j: int| 0 <= x < groups@.len() && 0 <= j < groups@[x]@.len() implies (#[trigger] groups@[x]@[j]) < n
                && mask_upto(t.codes@[groups@[x]@[j] as int], b as int) == masks@[x] by {
                if x != gi as int || j < before[x]@.len() {
                    assert(groups@[x]@[j] == before[x]@[j]);
                }
            }
            assert forall|x: int| 0 <= x < i + 1 implies #[trigger] grouped(groups@, order@[x] as int) by {
                if x == i as int {
                    assert(groups@[gi as int]@[before[gi as int]@.len() as int] == k);
                } else {
                    assert(grouped(head, order@[x] as int));
                    let (g2, j2) = choose|g2: int, j2: int| 0 <= g2 < head.len() && 0 <= j2 < head[g2]@.len()
                        && #[trigger] head[g2]@[j2] == order@[x];
                    assert(before[g2] == head[g2]);
                    assert(groups@[g2]@[j2] == before[g2]@[j2]);
                }
            }
        }
        i += 1;
    }
    proof {
        assert forall|k: int| 0 <= k < n implies #[trigger] grouped(groups@, k) by {
            super::rank_reduction::lemma_cost_sorted_contains(keys@, order@, k as usize);
            let x = choose|x: int| 0 <= x < order@.len() && order@[x] == k as usize;
            assert(grouped(groups@, order@[x] as int));
        }
    }
    (masks, groups)
}

/// The first position from `from` on whose mask is not below `m`.
fn skip_below(masks: &Vec<u32>, from: usize, m: u32) -> (r: usize)
    requires
        from <= masks@.len(),
    ensures
        from <= r <= masks@.len(),
        forall|x: int| from <= x < r ==> masks@[x] < m,
        r < masks@.len() ==> masks@[r as int] >= m,
{
    let mut r = from;
    while r < masks.len() && masks[r] < m
        invariant
            from <= r <= masks@.len(),
            forall|x: int| from <= x < r ==> masks@[x] < m,
        decreases masks@.len() - r,
    {
        r += 1;
    }
    r
}

/// The entries `(code, cost)` of `t` at the positions `members`, in order.
fn entries_of(t: &Table, members: &Vec<usize>, Ghost(g): Ghost<Table>) -> (r: Vec<(u64, Cost)>)
    requires
        t.wf(),
        t.same_or_empty(g),
        forall|j: int| 0 <= j < members@.len() ==> (#[trigger] members@[j]) < t.codes@.len(),
    ensures
        r@.len() == members@.len(),
        forall|i: int| 0 <= i < r@.len() ==> r@[i] == (t.codes@[members@[i] as int], t.costs@[members@[i] as int]),
        forall|i: int| 0 <= i < r@.len() ==> g.has((#[trigger] r@[i]).0) && g.cost_of(r@[i].0) == r@[i].1,
{
    let mut out: Vec<(u64, Cost)> = Vec::new();
    let mut k: usize = 0;
    while k < members.len()
        invariant
            t.wf(),
            t.same_or_empty(g),
            forall|j: int| 0 <= j < members@.len() ==> (#[trigger] members@[j]) < t.codes@.len(),
            k <= members@.len(),
            out@.len() == k,
            forall|i: int| 0 <= i < out@.len() ==> out@[i] == (t.codes@[members@[i] as int], t.costs@[members@[i] as int]),
            forall|i: int| 0 <= i < out@.len() ==> g.has((#[trigger] out@[i]).0) && g.cost_of(out@[i].0) == out@[i].1,
        decreases members@.len() - k,
    {
        let e = members[k];
        proof {
            lemma_read_entry(*t, g, e as int);
        }
        out.push((t.codes[e], t.costs[e]));
        k += 1;
    }
    out
}

/// The positions below `j` whose bit is set in `mask`, increasing.
pub open spec fn bit_positions(mask: u32, j: int) -> Seq<usize>
    decreases j,
{
    if j <= 0 {
        Seq::empty()
    } else if (mask >> ((j - 1) as u32)) & 1 == 1 {
        bit_positions(mask, j - 1).push((j - 1) as usize)
    } else {
        bit_positions(mask, j - 1)
    }
}

/// The bag positions `0..b` whose bit is set in `mask`.
fn mask_positions(mask: u32, b: usize) -> (used: Vec<usize>)
    requires
        b <= MAX_BAG,
    ensures
        used@ == bit_positions(mask, b as int),
        used@.len() <= b,
        forall|i: int| 0 <= i < used@.len() ==> (#[trigger] used@[i]) < b,
{
    let mut used: Vec<usize> = Vec::new();
    let mut j: usize = 0;
    while j < b
        invariant
            b <= MAX_BAG,
            j <= b,
            used@.len() <= j,
            forall|i: int| 0 <= i < used@.len() ==> (#[trigger] used@[i]) < j,
            used@ == bit_positions(mask, j as int),
        decreases b - j,
    {
        if (mask >> (j as u32)) & 1 == 1 {
            used.push(j);
        }
        j += 1;
    }
    used
}

/// The entries of `v` in nondecreasing order of cost, ties in list order.
fn sorted_by_cost(v: &Vec<(u64, Cost)>) -> (r: Vec<(u64, Cost)>)
    ensures
        r@.len() == v@.len(),
        forall|i: int| 0 <= i < r@.len() ==> v@.contains(#[trigger] r@[i]),
{
    let mut costs: Vec<Cost> = Vec::new();
    let mut k: usize = 0;
    while k < v.len()
        invariant
            k <= v@.len(),
            costs@.len() == k,
        decreases v@.len() - k,
    {
        costs.push(v[k].1);
        k += 1;
    }
    let order = by_cost(costs.as_slice());
    let mut out: Vec<(u64, Cost)> = Vec::new();
    let mut k: usize = 0;
    while k < order.len()
        invariant
            order@.len() == v@.len(),
            forall|j: int| 0 <= j < order@.len() ==> (#[trigger] order@[j] as int) < v@.len(),
            k <= order@.len(),
            out@.len() == k,
            forall|i: int| 0 <= i < out@.len() ==> v@.contains(#[trigger] out@[i]),
        decreases order@.len() - k,
    {
        let e = v[order[k]];
        proof {
            assert(e == v@[order@[k as int] as int]);
        }
        let ghost o = out@;
        out.push(e);
        proof {
            assert forall|i: int| 0 <= i < out@.len() implies v@.contains(#[trigger] out@[i]) by {
                if i == k {
                    assert(out@[i] == v@[order@[k as int] as int]);
                } else {
                    assert(out@[i] == o[i]);
                }
            }
        }
        k += 1;
    }
    out
}

/// A list of zeros sums to zero.
proof fn lemma_usum_zero(s: Seq<usize>)
    requires
        forall|x: int| 0 <= x < s.len() ==> #[trigger] s[x] == 0,
    ensures
        usum(s) == 0,
    decreases s.len(),
{
    if s.len() > 0 {
        lemma_usum_zero(s.drop_last());
    }
}

/// Entries at most `c` sum to at most `len * c`.
proof fn lemma_usum_bound(s: Seq<usize>, c: int)
    requires
        c >= 0,
        forall|x: int| 0 <= x < s.len() ==> #[trigger] s[x] <= c,
    ensures
        0 <= usum(s) <= s.len() * c,
    decreases s.len(),
{
    if s.len() > 0 {
        lemma_usum_bound(s.drop_last(), c);
        assert(s.drop_last().len() * c + c == s.len() * c) by (nonlinear_arith)
            requires s.drop_last().len() + 1 == s.len();
    }
}

/// The join of two tables over the same bag, class by class: the pairs are
/// taken in nondecreasing order of summed cost (ties by position), and each
/// join partition not met before is offered to a cut-space basis at that
/// cost and kept when independent; a class stops once its basis is full.
fn join_tables(lt: &Table, rt: &Table, b: usize, Ghost(gl): Ghost<Table>, Ghost(gr): Ghost<Table>) -> (t: Table)
    requires
        lt.wf(),
        rt.wf(),
        lt.same_or_empty(gl),
        rt.same_or_empty(gr),
        b <= MAX_BAG,
    ensures
        t.wf(),
        join_entries_ok(t, gl, gr),
{
    let mut out = Table::new();
    let (masks, lgroups) = group_by_mask(lt, b);
    let (rmasks, rgroups) = group_by_mask(rt, b);
    let mut rj: usize = 0;
    let mut mi: usize = 0;
    while mi < masks.len()
        invariant
            b <= MAX_BAG,
            lt.wf(),
            rt.wf(),
            lt.same_or_empty(gl),
            rt.same_or_empty(gr),
            mi <= masks@.len(),
            masks@.len() == lgroups@.len(),
            rmasks@.len() == rgroups@.len(),
            rj <= rmasks@.len(),
            forall|i: int, j: int| 0 <= i < lgroups@.len() && 0 <= j < lgroups@[i]@.len() ==> (#[trigger] lgroups@[i]@[j]) < lt.codes@.len(),
            forall|i: int, j: int| 0 <= i < rgroups@.len() && 0 <= j < rgroups@[i]@.len() ==> (#[trigger] rgroups@[i]@[j]) < rt.codes@.len(),
            out.wf(),
            join_entries_ok(out, gl, gr),
        decreases masks@.len() - mi,
    {
        let mask = masks[mi];
        rj = skip_below(&rmasks, rj, mask);
        let l0 = entries_of(lt, &lgroups[mi], Ghost(gl));
        let r0 = if rj < rmasks.len() && rmasks[rj] == mask {
            entries_of(rt, &rgroups[rj], Ghost(gr))
        } else {
            Vec::new()
        };
        if l0.len() > 0 && r0.len() > 0 {
            let l = sorted_by_cost(&l0);
            let r = sorted_by_cost(&r0);
            let used = mask_positions(mask, b);
            let mut dl: Vec<[u8; MAX_BAG]> = Vec::new();
            let mut i: usize = 0;
            while i < l.len()
                invariant
                    b <= MAX_BAG,
                    i <= l@.len(),
                    dl@.len() == i,
                decreases l@.len() - i,
            {
                dl.push(decode(l[i].0, b));
                i += 1;
            }
            let mut dr: Vec<[u8; MAX_BAG]> = Vec::new();
            let mut j: usize = 0;
            while j < r.len()
                invariant
                    b <= MAX_BAG,
                    j <= r@.len(),
                    dr@.len() == j,
                decreases r@.len() - j,
            {
                dr.push(decode(r[j].0, b));
                j += 1;
            }
            // The pairs in nondecreasing order of summed cost, ties by row
            // then column, generated lazily: each row keeps its next column,
            // and the row whose next pair is cheapest (the first among
            // equals) is taken.
            let mut next: Vec<usize> = Vec::new();
            let mut i: usize = 0;
            while i < l.len()
                invariant
                    i <= l@.len(),
                    next@.len() == i,
                    forall|x: int| 0 <= x < i ==> #[trigger] next@[x] == 0,
                decreases l@.len() - i,
            {
                next.push(0);
                i += 1;
            }
            proof {
                lemma_usum_zero(next@);
            }
            let mut basis = Basis::new(used.len());
            let mut seen: Table = Table::new();
            let mut frontier: usize = 0;
            loop
                invariant
                    b <= MAX_BAG,
                    used@.len() <= b,
                    forall|x: int| 0 <= x < used@.len() ==> (#[trigger] used@[x]) < b,
                    basis.wf(),
                    frontier <= l@.len(),
                    r@.len() <= usize::MAX,
                    basis.columns() == super::rank_reduction::ground_bits(used@.len()),
                    next@.len() == l@.len(),
                    forall|x: int| 0 <= x < next@.len() ==> #[trigger] next@[x] <= r@.len(),
                    0 <= usum(next@) <= l@.len() * r@.len(),
                    dl@.len() == l@.len(),
                    dr@.len() == r@.len(),
                    forall|x: int| 0 <= x < l@.len() ==> l0@.contains(#[trigger] l@[x]),
                    forall|x: int| 0 <= x < r@.len() ==> r0@.contains(#[trigger] r@[x]),
                    forall|y: int| 0 <= y < l0@.len() ==> gl.has((#[trigger] l0@[y]).0) && gl.cost_of(l0@[y].0) == l0@[y].1,
                    forall|y: int| 0 <= y < r0@.len() ==> gr.has((#[trigger] r0@[y]).0) && gr.cost_of(r0@[y].0) == r0@[y].1,
                    seen.wf(),
                    out.wf(),
                    join_entries_ok(out, gl, gr),
                decreases l@.len() * r@.len() - usum(next@),
            {
                if basis.is_full() {
                    break;
                }
                // Rows are taken in order, and an untouched row costs no
                // less than the first untouched one, so the rows past it
                // need not be looked at.
                let lim = if frontier < l.len() { frontier + 1 } else { l.len() };
                let mut pick: Option<(usize, Cost)> = None;
                let mut x: usize = 0;
                while x < lim
                    invariant
                        lim <= l@.len(),
                        x <= lim,
                        next@.len() == l@.len(),
                        pick matches Some((pi, _)) ==> pi < l@.len() && next@[pi as int] < r@.len(),
                    decreases l@.len() - x,
                {
                    if next[x] < r.len() {
                        let c = l[x].1.saturating_add(r[next[x]].1);
                        let better = match pick {
                            None => true,
                            Some((_, bc)) => c < bc,
                        };
                        if better {
                            pick = Some((x, c));
                        }
                    }
                    x += 1;
                }
                let (pi, cost) = match pick {
                    Some((pi, c)) => (pi, l[pi].1.saturating_add(r[next[pi]].1)),
                    None => break,
                };
                if pi == frontier {
                    frontier = frontier + 1;
                }
                let pj = next[pi];
                proof {
                    assert(pj < r@.len());
                    lemma_usum_update(next@, pi as int, (pj + 1) as usize);
                    lemma_usum_bound(next@.update(pi as int, (pj + 1) as usize), r@.len() as int);
                }
                next.set(pi, pj + 1);
                match union_partitions(&dl[pi], &dr[pj], b) {
                    None => {},
                    Some(d0) => {
                        let mut d = d0;
                        let code = encode_canonical(&mut d, b);
                        if seen.get(code).is_none() {
                            seen.insert_new(code, 0, Back::Leaf);
                            proof {
                                assert forall|x: int| 0 <= x < used@.len() implies (#[trigger] used@[x] as int) < d@.len() by {}
                            }
                            if basis.offer(&d, used.as_slice()) {
                                let lc = l[pi].0;
                                let rc = r[pj].0;
                                proof {
                                    assert(l0@.contains(l@[pi as int]));
                                    assert(r0@.contains(r@[pj as int]));
                                    let y1 = choose|y: int| 0 <= y < l0@.len() && l0@[y] == l@[pi as int];
                                    let y2 = choose|y: int| 0 <= y < r0@.len() && r0@[y] == r@[pj as int];
                                    assert(gl.has(l0@[y1].0) && gl.cost_of(l0@[y1].0) == l0@[y1].1);
                                    assert(gr.has(r0@[y2].0) && gr.cost_of(r0@[y2].0) == r0@[y2].1);
                                }
                                let ghost o0 = out;
                                out.relax(code, cost, Back::Join(lc, rc));
                                proof {
                                    lemma_keep_join(out, o0, gl, gr, cost, Back::Join(lc, rc));
                                }
                            }
                        }
                    },
                }
            }
        }
        mi += 1;
    }
    out
}

/// The rank-based reduction of one node's table, class by class: a class of
/// one entry, or over at most one used position, is kept whole; otherwise a
/// minimum-cost representative subset of it is kept.
fn reduce_table(t: &Table, b: usize) -> (r: Table)
    requires
        t.wf(),
        b <= MAX_BAG,
    ensures
        r.wf(),
        drawn_from(r, *t),
{
    let mut out = Table::new();
    let (masks, groups) = group_by_mask(t, b);
    let mut mi: usize = 0;
    while mi < masks.len()
        invariant
            t.wf(),
            b <= MAX_BAG,
            mi <= masks@.len(),
            masks@.len() == groups@.len(),
            forall|i: int, j: int| 0 <= i < groups@.len() && 0 <= j < groups@[i]@.len() ==> (#[trigger] groups@[i]@[j]) < t.codes@.len(),
            out.wf(),
            drawn_from(out, *t),
        decreases masks@.len() - mi,
    {
        let mask = masks[mi];
        // The positions of the table's entries in this class.
        let members = &groups[mi];
        let used = mask_positions(mask, b);
        let mut keep: Vec<usize> = Vec::new();
        if members.len() <= 1 || used.len() <= 1 {
            let mut x: usize = 0;
            while x < members.len()
                invariant
                    x <= members@.len(),
                    forall|y: int| 0 <= y < keep@.len() ==> (#[trigger] keep@[y]) < members@.len(),
                decreases members@.len() - x,
            {
                keep.push(x);
                x += 1;
            }
        } else {
            let mut decoded: Vec<[u8; MAX_BAG]> = Vec::new();
            let mut costs: Vec<Cost> = Vec::new();
            let mut x: usize = 0;
            while x < members.len()
                invariant
                    t.wf(),
                    b <= MAX_BAG,
                    forall|y: int| 0 <= y < members@.len() ==> (#[trigger] members@[y]) < t.codes@.len(),
                    x <= members@.len(),
                    decoded@.len() == x,
                    costs@.len() == x,
                decreases members@.len() - x,
            {
                decoded.push(decode(t.codes[members[x]], b));
                costs.push(t.costs[members[x]]);
                x += 1;
            }
            let order = by_cost(costs.as_slice());
            keep = reduce(decoded.as_slice(), used.as_slice(), order.as_slice());
            proof {
                assert forall|y: int| 0 <= y < keep@.len() implies (#[trigger] keep@[y]) < members@.len() by {
                    let k = choose|k: int| 0 <= k < order@.len() && keep@[y] == order@[k];
                    assert(order@[k] < decoded@.len());
                }
            }
        }
        let mut y: usize = 0;
        while y < keep.len()
            invariant
                t.wf(),
                forall|z: int| 0 <= z < keep@.len() ==> (#[trigger] keep@[z]) < members@.len(),
                forall|z: int| 0 <= z < members@.len() ==> (#[trigger] members@[z]) < t.codes@.len(),
                y <= keep@.len(),
                out.wf(),
                drawn_from(out, *t),
            decreases keep@.len() - y,
        {
            let e = members[keep[y]];
            let ghost o0 = out;
            out.relax(t.codes[e], t.costs[e], t.backs[e]);
            proof {
                lemma_drawn_step(out, o0, *t, e as int);
            }
            y += 1;
        }
        mi += 1;
    }
    out
}

/// The position of `x` in `l`, if it occurs.
fn position_of(l: &Vec<u32>, x: u32) -> (r: Option<usize>)
    ensures
        r is None <==> !l@.contains(x),
        r matches Some(p) ==> p < l@.len() && l@[p as int] == x,
{
    let mut i: usize = 0;
    while i < l.len()
        invariant
            i <= l@.len(),
            forall|j: int| 0 <= j < i ==> l@[j] != x,
        decreases l@.len() - i,
    {
        if l[i] == x {
            return Some(i);
        }
        i += 1;
    }
    None
}

/// Whether `l` is strictly increasing.
fn is_strictly_sorted(l: &Vec<u32>) -> (r: bool)
    ensures
        r == strictly_sorted(l@),
{
    if l.len() == 0 {
        return true;
    }
    let mut i: usize = 1;
    while i < l.len()
        invariant
            1 <= i <= l@.len(),
            forall|a: int, c: int| 0 <= a < c < i ==> #[trigger] l@[a] < #[trigger] l@[c],
        decreases l@.len() - i,
    {
        if l[i - 1] >= l[i] {
            return false;
        }
        proof {
            assert forall|a: int, c: int| 0 <= a < c < i + 1 implies #[trigger] l@[a] < #[trigger] l@[c] by {
                if c == i && a < i - 1 {
                    assert(l@[a] < l@[i - 1]);
                }
            }
        }
        i += 1;
    }
    true
}

/// The decomposition's children come before their parents and its roots name
/// bags, for the first `nb` bags.
pub open spec fn shape_ok(td: &TreeDecomposition, nb: int) -> bool {
    &&& td.children@.len() >= nb
    &&& forall|i: int, t: int| 0 <= i < nb && 0 <= t < td.children@[i]@.len() ==> #[trigger] td.children@[i]@[t] < i
    &&& forall|t: int| 0 <= t < td.roots@.len() ==> #[trigger] td.roots@[t] < nb
}

fn check_shape(td: &TreeDecomposition, nb: usize) -> (r: bool)
    ensures
        r == shape_ok(td, nb as int),
{
    if td.children.len() < nb {
        return false;
    }
    let mut i: usize = 0;
    while i < nb
        invariant
            td.children@.len() >= nb,
            i <= nb,
            forall|i2: int, t: int| 0 <= i2 < i && 0 <= t < td.children@[i2]@.len() ==> #[trigger] td.children@[i2]@[t] < i2,
        decreases nb - i,
    {
        let mut t: usize = 0;
        while t < td.children[i].len()
            invariant
                td.children@.len() >= nb,
                i < nb,
                t <= td.children@[i as int]@.len(),
                forall|t2: int| 0 <= t2 < t ==> #[trigger] td.children@[i as int]@[t2] < i,
            decreases td.children@[i as int]@.len() - t,
        {
            if td.children[i][t] >= i {
                return false;
            }
            t += 1;
        }
        i += 1;
    }
    let mut t: usize = 0;
    while t < td.roots.len()
        invariant
            t <= td.roots@.len(),
            forall|t2: int| 0 <= t2 < t ==> #[trigger] td.roots@[t2] < nb,
        decreases td.roots@.len() - t,
    {
        if td.roots[t] >= nb {
            return false;
        }
        t += 1;
    }
    true
}

/// The edge an edge node introduces is the graph's edge of that id, at its cost.
pub open spec fn edge_node_ok(n: Nice, edges: Seq<Edge>) -> bool {
    match n {
        Nice::Edge { cost, id, .. } => (id as int) < edges.len() && edges[id as int].cost == cost,
        _ => true,
    }
}

/// An assigned edge is the graph's edge of its id, at its cost.
pub open spec fn payload_ok(x: (u32, u32, Cost, EdgeId), edges: Seq<Edge>) -> bool {
    (x.3 as int) < edges.len() && edges[x.3 as int].cost == x.2
}

proof fn lemma_flat_ok(lists: Seq<Seq<(u32, u32, Cost, EdgeId)>>, i: int, edges: Seq<Edge>)
    requires
        0 <= i <= lists.len(),
        forall|j: int, t: int| 0 <= j < i && 0 <= t < lists[j].len() ==> payload_ok(#[trigger] lists[j][t], edges),
    ensures
        forall|t: int| 0 <= t < flat(lists, i).len() ==> payload_ok(#[trigger] flat(lists, i)[t], edges),
    decreases i,
{
    if i > 0 {
        lemma_flat_ok(lists, i - 1, edges);
        let f0 = flat(lists, i - 1);
        assert forall|t: int| 0 <= t < flat(lists, i).len() implies payload_ok(#[trigger] flat(lists, i)[t], edges) by {
            if t < f0.len() {
                assert(flat(lists, i)[t] == f0[t]);
            } else {
                assert(flat(lists, i)[t] == lists[i - 1][t - f0.len()]);
            }
        }
    }
}

proof fn lemma_payloads_ok(nodes: Seq<Nice>, edges: Seq<Edge>)
    requires
        forall|t: int| 0 <= t < edge_payloads(nodes).len() ==> payload_ok(#[trigger] edge_payloads(nodes)[t], edges),
    ensures
        forall|k: int| 0 <= k < nodes.len() ==> edge_node_ok(#[trigger] nodes[k], edges),
    decreases nodes.len(),
{
    if nodes.len() > 0 {
        let pre = edge_payloads(nodes.drop_last());
        assert forall|t: int| 0 <= t < pre.len() implies payload_ok(#[trigger] pre[t], edges) by {
            assert(edge_payloads(nodes)[t] == pre[t]);
        }
        lemma_payloads_ok(nodes.drop_last(), edges);
        assert forall|k: int| 0 <= k < nodes.len() implies edge_node_ok(#[trigger] nodes[k], edges) by {
            if k < nodes.len() - 1 {
                assert(nodes[k] == nodes.drop_last()[k]);
            } else {
                match nodes.last() {
                    Nice::Edge { .. } => {
                        assert(edge_payloads(nodes)[pre.len() as int] == edge_payloads(nodes).last());
                    },
                    _ => {},
                }
            }
        }
    }
}

/// Everything the table loop needs, derived once from the decomposition.
struct Prepared {
    nodes: Vec<Nice>,
    node_bags: Vec<Vec<u32>>,
    final_node: usize,
    is_terminal: Vec<bool>,
}

/// What the table loop relies on: a nice decomposition whose final bag has
/// one vertex and whose edge nodes carry the graph's edges.
pub open spec fn prepared_ok(nodes: Seq<Nice>, node_bags: Seq<Vec<u32>>, fin: int, edges: Seq<Edge>) -> bool {
    &&& nice_wf(nodes, bag_views(node_bags))
    &&& 0 <= fin < nodes.len()
    &&& node_bags[fin]@.len() == 1
    &&& forall|k: int| 0 <= k < nodes.len() ==> edge_node_ok(#[trigger] nodes[k], edges)
}

/// Some bag of `td`, with the first terminal's index added, holds more than
/// `MAX_BAG` vertices.
pub open spec fn oversized(bag: Seq<u32>, rt: u32) -> bool {
    bag.to_set().insert(rt).len() > MAX_BAG
}

/// The decomposition is too wide for the signature encoding once the first
/// terminal joins every bag.
pub open spec fn too_wide(td: &TreeDecomposition, terminals: Seq<NodeId>) -> bool {
    &&& terminals.len() > 0
    &&& td.node_to_index@.contains_key(terminals[0])
    &&& exists|i: int| 0 <= i < td.bags@.len() && #[trigger] oversized(td.bags@[i]@, td.node_to_index@[terminals[0]])
}

/// The nice decomposition the tables run over: the first terminal joins
/// every bag, and each edge is introduced at the bag of the endpoint
/// eliminated first. `None` for a decomposition with other than one
/// component, a terminal or an edge endpoint it does not index, a bag wider
/// than a signature can address, or a shape it does not keep.
fn prepare(graph: &UndirectedGraph, terminals: &[NodeId], td: &TreeDecomposition) -> (r: Option<Prepared>)
    requires
        graph.wf(),
        terminals.len() > 0,
    ensures
        td.roots@.len() != 1 ==> r is None,
        too_wide(td, terminals@) ==> r is None,
        r is Some ==> forall|t: int| 0 <= t < terminals.len() ==> td.node_to_index@.contains_key(#[trigger] terminals@[t]),
        r matches Some(p) ==> prepared_ok(p.nodes@, p.node_bags@, p.final_node as int, graph.edges@),
{
    broadcast use vstd::std_specs::hash::group_hash_axioms;
    if td.roots.len() != 1 {
        return None;
    }
    let n = td.index_to_node.len();
    let root_terminal: u32 = match td.node_to_index.get(&terminals[0]) {
        Some(x) => *x,
        None => return None,
    };
    let mut is_terminal: Vec<bool> = Vec::new();
    let mut k: usize = 0;
    while k < n
        invariant
            k <= n,
            is_terminal@.len() == k,
        decreases n - k,
    {
        is_terminal.push(false);
        k += 1;
    }
    let mut t: usize = 0;
    while t < terminals.len()
        invariant
            t <= terminals.len(),
            is_terminal@.len() == n,
            forall|t2: int| 0 <= t2 < t ==> td.node_to_index@.contains_key(#[trigger] terminals@[t2]),
        decreases terminals.len() - t,
    {
        let x: u32 = match td.node_to_index.get(&terminals[t]) {
            Some(x) => *x,
            None => return None,
        };
        if (x as usize) >= n {
            return None;
        }
        is_terminal.set(x as usize, true);
        t += 1;
    }
    // The root terminal joins every bag.
    let mut bags: Vec<Vec<u32>> = Vec::new();
    let mut i: usize = 0;
    while i < td.bags.len()
        invariant
            i <= td.bags@.len(),
            bags@.len() == i,
            forall|j: int| 0 <= j < i ==> strictly_sorted(#[trigger] bags@[j]@) && bags@[j]@.len() <= MAX_BAG,
            td.node_to_index@.contains_key(terminals@[0]),
            root_terminal == td.node_to_index@[terminals@[0]],
            forall|j: int| 0 <= j < i ==> !#[trigger] oversized(td.bags@[j]@, root_terminal),
        decreases td.bags@.len() - i,
    {
        let mut bag = list_copy(&td.bags[i]);
        if !is_strictly_sorted(&bag) {
            return None;
        }
        proof {
            assert(bag@ == td.bags@[i as int]@);
        }
        if !list_contains(&bag, root_terminal) {
            sorted_insert(&mut bag, root_terminal);
        } else {
            proof {
                assert(bag@.to_set().insert(root_terminal) =~= bag@.to_set());
            }
        }
        proof {
            super::vertex_sets::lemma_sorted_distinct(bag@);
            bag@.unique_seq_to_set();
            assert(bag@.to_set() == td.bags@[i as int]@.to_set().insert(root_terminal));
        }
        if bag.len() > MAX_BAG {
            return None;
        }
        bags.push(bag);
        i += 1;
    }
    if !check_shape(td, bags.len()) {
        return None;
    }
    // The position of each vertex in the elimination order.
    let mut pos: Vec<usize> = Vec::new();
    let mut k: usize = 0;
    while k < n
        invariant
            k <= n,
            pos@.len() == k,
        decreases n - k,
    {
        pos.push(0);
        k += 1;
    }
    let mut k: usize = 0;
    while k < td.own.len()
        invariant
            k <= td.own@.len(),
            pos@.len() == n,
        decreases td.own@.len() - k,
    {
        let v = td.own[k];
        if (v as usize) >= n {
            return None;
        }
        pos.set(v as usize, k);
        k += 1;
    }
    let mut edges_at: Vec<Vec<(u32, u32, Cost, EdgeId)>> = Vec::new();
    let mut k: usize = 0;
    while k < bags.len()
        invariant
            k <= bags@.len(),
            edges_at@.len() == k,
            forall|j: int| 0 <= j < k ==> (#[trigger] edges_at@[j])@.len() == 0,
        decreases bags@.len() - k,
    {
        edges_at.push(Vec::new());
        k += 1;
    }
    let mut ei: usize = 0;
    while ei < graph.edges.len()
        invariant
            graph.wf(),
            ei <= graph.edges@.len(),
            pos@.len() == n,
            edges_at@.len() == bags@.len(),
            forall|j: int, t2: int| 0 <= j < bags@.len() && 0 <= t2 < edges_at@[j]@.len() ==>
                bags@[j]@.contains((#[trigger] edges_at@[j]@[t2]).0) && bags@[j]@.contains(edges_at@[j]@[t2].1)
                && payload_ok(edges_at@[j]@[t2], graph.edges@),
        decreases graph.edges@.len() - ei,
    {
        let e = graph.edges[ei];
        if e.src != e.dst {
            let u: u32 = match td.node_to_index.get(&e.src) {
                Some(x) => *x,
                None => return None,
            };
            let w: u32 = match td.node_to_index.get(&e.dst) {
                Some(x) => *x,
                None => return None,
            };
            if (u as usize) >= n || (w as usize) >= n {
                return None;
            }
            let pu = pos[u as usize];
            let pw = pos[w as usize];
            let at = if pu < pw { pu } else { pw };
            if at >= bags.len() {
                return None;
            }
            if !(list_contains(&bags[at], u) && list_contains(&bags[at], w)) {
                return None;
            }
            proof {
                assert(graph.edges@[ei as int].id == ei);
            }
            let ghost old_at = edges_at@;
            edges_at[at].push((u, w, e.cost, e.id));
            proof {
                assert forall|j: int, t2: int| 0 <= j < bags@.len() && 0 <= t2 < edges_at@[j]@.len() implies
                    bags@[j]@.contains((#[trigger] edges_at@[j]@[t2]).0) && bags@[j]@.contains(edges_at@[j]@[t2].1)
                    && payload_ok(edges_at@[j]@[t2], graph.edges@) by {
                    if j != at as int || t2 < old_at[j]@.len() {
                        assert(edges_at@[j]@[t2] == old_at[j]@[t2]);
                    }
                }
            }
        }
        ei += 1;
    }
    match build_nice(td, bags.as_slice(), edges_at.as_slice()) {
        None => None,
        Some((nodes, node_bags, final_node)) => {
            proof {
                let lists = edge_lists(edges_at@);
                assert forall|j: int, t2: int| 0 <= j < bags@.len() && 0 <= t2 < lists[j].len() implies payload_ok(#[trigger] lists[j][t2], graph.edges@) by {
                    assert(lists[j][t2] == edges_at@[j]@[t2]);
                }
                lemma_flat_ok(lists, bags@.len() as int, graph.edges@);
                lemma_payloads_ok(nodes@, graph.edges@);
                let rv = choose|rv: u32| #[trigger] node_bags@[final_node as int]@ == seq![rv] && final_vertex(bags@, td.roots@[0] as int, rv);
                assert(node_bags@[final_node as int]@.len() == 1);
            }
            Some(Prepared { nodes, node_bags, final_node, is_terminal })
        },
    }
}

/// Entry `(cost, back)` of a table at node `n` is accounted for by the
/// tables `gt` of its children: a leaf entry costs nothing, an introduce or
/// forget entry repeats a child entry, an edge node's entry repeats one or
/// adds its edge to one, and a join entry adds one entry of each side.
pub open spec fn entry_ok(n: Nice, gt: Seq<Table>, cost: Cost, back: Back) -> bool {
    match n {
        Nice::Leaf => back == Back::Leaf && cost == 0,
        Nice::Introduce { child, .. } => back matches Back::Unary(c)
            && gt[child as int].has(c) && gt[child as int].cost_of(c) == cost,
        Nice::Forget { child, .. } => back matches Back::Unary(c)
            && gt[child as int].has(c) && gt[child as int].cost_of(c) == cost,
        Nice::Edge { child, cost: ec, id, .. } => {
            ||| (back matches Back::Unary(c) && gt[child as int].has(c) && gt[child as int].cost_of(c) == cost)
            ||| (back matches Back::Edge(c, e) && e == id && gt[child as int].has(c)
                && cost == sat(gt[child as int].cost_of(c) + ec))
        },
        Nice::Join { left, right } => back matches Back::Join(a, c)
            && gt[left as int].has(a) && gt[right as int].has(c)
            && cost == sat(gt[left as int].cost_of(a) + gt[right as int].cost_of(c)),
    }
}

/// Every entry of `t` is accounted for as a table of node `n`.
pub open spec fn table_ok(n: Nice, gt: Seq<Table>, t: Table) -> bool {
    forall|j: int| 0 <= j < t.codes@.len() ==> #[trigger] entry_ok(n, gt, t.costs@[j], t.backs@[j])
}

/// A table drawn from an accounted-for table is accounted for.
proof fn lemma_drawn_ok(r: Table, t: Table, n: Nice, gt: Seq<Table>)
    requires
        drawn_from(r, t),
        table_ok(n, gt, t),
    ensures
        table_ok(n, gt, r),
{
    assert forall|j: int| 0 <= j < r.codes@.len() implies #[trigger] entry_ok(n, gt, r.costs@[j], r.backs@[j]) by {
        assert(drawn_at(r, t, j));
        let j2 = choose|j2: int| 0 <= j2 < t.codes@.len() && t.costs@[j2] == r.costs@[j] && t.backs@[j2] == r.backs@[j];
        assert(entry_ok(n, gt, t.costs@[j2], t.backs@[j2]));
    }
}

/// Setting the table of node `i` leaves the accounts of the nodes before it.
proof fn lemma_frame(nodes: Seq<Nice>, bags: Seq<Seq<u32>>, gt: Seq<Table>, i: int, r: Table)
    requires
        nice_wf(nodes, bags),
        0 <= i < nodes.len(),
        gt.len() == nodes.len(),
        forall|k: int| 0 <= k < i ==> #[trigger] table_ok(nodes[k], gt, gt[k]),
        table_ok(nodes[i], gt, r),
    ensures
        forall|k: int| 0 <= k <= i ==> #[trigger] table_ok(nodes[k], gt.update(i, r), gt.update(i, r)[k]),
{
    let g2 = gt.update(i, r);
    assert forall|k: int| 0 <= k <= i implies #[trigger] table_ok(nodes[k], g2, g2[k]) by {
        assert(nice_ok(nodes, bags, k));
        let tk = if k == i { r } else { gt[k] };
        assert(g2[k] == tk);
        assert(table_ok(nodes[k], gt, tk));
        assert forall|j: int| 0 <= j < tk.codes@.len() implies #[trigger] entry_ok(nodes[k], g2, tk.costs@[j], tk.backs@[j]) by {
            assert(entry_ok(nodes[k], gt, tk.costs@[j], tk.backs@[j]));
            match nodes[k] {
                Nice::Introduce { child, .. } => { assert(g2[child as int] == gt[child as int]); },
                Nice::Forget { child, .. } => { assert(g2[child as int] == gt[child as int]); },
                Nice::Edge { child, .. } => { assert(g2[child as int] == gt[child as int]); },
                Nice::Join { left, right } => {
                    assert(g2[left as int] == gt[left as int]);
                    assert(g2[right as int] == gt[right as int]);
                },
                Nice::Leaf => {},
            }
        }
    }
}

/// The table of node `i`, built from its children's tables and, but for a
/// join (which reduces as it goes), reduced. `None` when a bag is wider than
/// a signature can address or misses the vertex the node names.
fn node_table(
    nodes: &Vec<Nice>,
    node_bags: &Vec<Vec<u32>>,
    is_terminal: &Vec<bool>,
    tables: &Vec<Table>,
    i: usize,
    Ghost(gt): Ghost<Seq<Table>>,
) -> (r: Option<Table>)
    requires
        nice_wf(nodes@, bag_views(node_bags@)),
        i < nodes@.len(),
        tables@.len() == nodes@.len(),
        gt.len() == nodes@.len(),
        forall|k: int| 0 <= k < tables@.len() ==> (#[trigger] tables@[k]).wf() && tables@[k].same_or_empty(gt[k]),
    ensures
        r matches Some(t) ==> t.wf() && table_ok(nodes@[i as int], gt, t),
{
    let bag = &node_bags[i];
    let b = bag.len();
    if b > MAX_BAG {
        return None;
    }
    proof {
        assert(nice_ok(nodes@, bag_views(node_bags@), i as int));
        assert(bag_views(node_bags@)[i as int] == bag@);
    }
    let node = nodes[i];
    match node {
        Nice::Leaf => {
            let mut t = Table::new();
            t.insert_new(0, 0, Back::Leaf);
            if t.len() == 0 {
                return None;
            }
            proof {
                assert forall|j: int| 0 <= j < t.codes@.len() implies #[trigger] entry_ok(node, gt, t.costs@[j], t.backs@[j]) by {}
            }
            let r = reduce_table(&t, b);
            proof {
                lemma_drawn_ok(r, t, node, gt);
            }
            Some(r)
        },
        Nice::Introduce { child, v } => {
            let cb = &node_bags[child];
            if cb.len() > MAX_BAG {
                return None;
            }
            let vp = match position_of(bag, v) {
                Some(p) => p,
                None => return None,
            };
            proof {
                assert(nice_ok(nodes@, bag_views(node_bags@), child as int));
                assert(bag_views(node_bags@)[child as int] == cb@);
            }
            let t = introduce_table(&tables[child], cb, bag, vp, Ghost(gt[child as int]));
            if t.len() == 0 {
                return None;
            }
            proof {
                assert forall|j: int| 0 <= j < t.codes@.len() implies #[trigger] entry_ok(node, gt, t.costs@[j], t.backs@[j]) by {
                    assert(t.backs@[j] matches Back::Unary(c) && gt[child as int].has(c) && gt[child as int].cost_of(c) == t.costs@[j]);
                }
            }
            let r = reduce_table(&t, b);
            proof {
                lemma_drawn_ok(r, t, node, gt);
            }
            Some(r)
        },
        Nice::Forget { child, v } => {
            let cb = &node_bags[child];
            if cb.len() > MAX_BAG {
                return None;
            }
            let vp = match position_of(cb, v) {
                Some(p) => p,
                None => return None,
            };
            proof {
                assert(nice_ok(nodes@, bag_views(node_bags@), child as int));
                assert(bag_views(node_bags@)[child as int] == cb@);
            }
            let terminal = (v as usize) < is_terminal.len() && is_terminal[v as usize];
            let t = forget_table(&tables[child], cb, bag, vp, terminal, Ghost(gt[child as int]));
            if t.len() == 0 {
                return None;
            }
            proof {
                assert forall|j: int| 0 <= j < t.codes@.len() implies #[trigger] entry_ok(node, gt, t.costs@[j], t.backs@[j]) by {
                    assert(t.backs@[j] matches Back::Unary(c) && gt[child as int].has(c) && gt[child as int].cost_of(c) == t.costs@[j]);
                }
            }
            let r = reduce_table(&t, b);
            proof {
                lemma_drawn_ok(r, t, node, gt);
            }
            Some(r)
        },
        Nice::Edge { child, u, w, cost: ec, id } => {
            let up = match position_of(bag, u) {
                Some(p) => p,
                None => return None,
            };
            let wp = match position_of(bag, w) {
                Some(p) => p,
                None => return None,
            };
            let t = edge_table(&tables[child], b, up, wp, ec, id, Ghost(gt[child as int]));
            if t.len() == 0 {
                return None;
            }
            proof {
                assert forall|j: int| 0 <= j < t.codes@.len() implies #[trigger] entry_ok(node, gt, t.costs@[j], t.backs@[j]) by {
                    let bk = t.backs@[j];
                    assert((bk matches Back::Unary(c) && gt[child as int].has(c) && gt[child as int].cost_of(c) == t.costs@[j])
                        || (bk matches Back::Edge(c, e) && e == id && gt[child as int].has(c) && t.costs@[j] == sat(gt[child as int].cost_of(c) + ec)));
                }
            }
            let r = reduce_table(&t, b);
            proof {
                lemma_drawn_ok(r, t, node, gt);
            }
            Some(r)
        },
        Nice::Join { left, right } => {
            let t = join_tables(&tables[left], &tables[right], b, Ghost(gt[left as int]), Ghost(gt[right as int]));
            if t.len() == 0 {
                return None;
            }
            proof {
                assert forall|j: int| 0 <= j < t.codes@.len() implies #[trigger] entry_ok(node, gt, t.costs@[j], t.backs@[j]) by {
                    assert(t.backs@[j] matches Back::Join(a, c) && gt[left as int].has(a) && gt[right as int].has(c)
                        && t.costs@[j] == sat(gt[left as int].cost_of(a) + gt[right as int].cost_of(c)));
                }
            }
            Some(t)
        },
    }
}

/// The summed cost of the edges named by `ids`, each as often as named.
pub open spec fn edge_sum(edges: Seq<Edge>, ids: Seq<EdgeId>) -> int
    decreases ids.len(),
{
    if ids.len() == 0 { 0 } else { edge_sum(edges, ids.drop_last()) + edges[ids.last() as int].cost }
}

/// The summed cost the states of `s` still owe, read from the tables `gt`.
pub open spec fn stack_cost(gt: Seq<Table>, s: Seq<(usize, u64)>) -> int
    decreases s.len(),
{
    if s.len() == 0 { 0 } else { stack_cost(gt, s.drop_last()) + gt[s.last().0 as int].cost_of(s.last().1) }
}

/// `3` to the power `n`.
pub open spec fn pow3(n: nat) -> nat
    decreases n,
{
    if n == 0 { 1 } else { 3 * pow3((n - 1) as nat) }
}

/// A measure of the states still to visit that falls whenever a state is
/// replaced by states of earlier nodes, however many.
pub open spec fn stack_weight(s: Seq<(usize, u64)>) -> nat
    decreases s.len(),
{
    if s.len() == 0 { 0 } else { stack_weight(s.drop_last()) + pow3(s.last().0 as nat) }
}

proof fn lemma_pow3_mono(a: nat, b: nat)
    requires
        a <= b,
    ensures
        1 <= pow3(a) <= pow3(b),
    decreases b,
{
    if a < b {
        lemma_pow3_mono(a, (b - 1) as nat);
    } else if b > 0 {
        lemma_pow3_mono((b - 1) as nat, (b - 1) as nat);
    }
}

proof fn lemma_edge_sum_nonneg(edges: Seq<Edge>, ids: Seq<EdgeId>)
    ensures
        edge_sum(edges, ids) >= 0,
    decreases ids.len(),
{
    if ids.len() > 0 {
        lemma_edge_sum_nonneg(edges, ids.drop_last());
    }
}

proof fn lemma_stack_cost_nonneg(gt: Seq<Table>, s: Seq<(usize, u64)>)
    ensures
        stack_cost(gt, s) >= 0,
    decreases s.len(),
{
    if s.len() > 0 {
        lemma_stack_cost_nonneg(gt, s.drop_last());
    }
}

proof fn lemma_stack_push(gt: Seq<Table>, s: Seq<(usize, u64)>, x: (usize, u64))
    ensures
        stack_cost(gt, s.push(x)) == stack_cost(gt, s) + gt[x.0 as int].cost_of(x.1),
        stack_weight(s.push(x)) == stack_weight(s) + pow3(x.0 as nat),
{
    assert(s.push(x).drop_last() =~= s);
}

proof fn lemma_edge_sum_push(edges: Seq<Edge>, ids: Seq<EdgeId>, id: EdgeId)
    ensures
        edge_sum(edges, ids.push(id)) == edge_sum(edges, ids) + edges[id as int].cost,
{
    assert(ids.push(id).drop_last() =~= ids);
}

/// The table `t` holds the entries of `g`.
pub open spec fn same_table(t: Table, g: Table) -> bool {
    t.codes@ == g.codes@ && t.costs@ == g.costs@ && t.backs@ == g.backs@ && t.index@ == g.index@
}

/// The edges the back pointers collect from the state `goal` of node `fin`
/// down to the leaves. Their summed cost is the cost held for that state.
fn read_back(
    nodes: &Vec<Nice>,
    tables: &Vec<Table>,
    fin: usize,
    goal: u64,
    Ghost(bags): Ghost<Seq<Seq<u32>>>,
    Ghost(gt): Ghost<Seq<Table>>,
    Ghost(edges): Ghost<Seq<Edge>>,
) -> (r: Option<Vec<EdgeId>>)
    requires
        nice_wf(nodes@, bags),
        fin < nodes@.len(),
        tables@.len() == nodes@.len(),
        gt.len() == nodes@.len(),
        forall|k: int| 0 <= k < tables@.len() ==> (#[trigger] tables@[k]).wf() && tables@[k].same_or_empty(gt[k]),
        forall|k: int| 0 <= k < nodes@.len() ==> #[trigger] table_ok(nodes@[k], gt, gt[k]),
        forall|k: int| 0 <= k < nodes@.len() ==> edge_node_ok(#[trigger] nodes@[k], edges),
        gt[fin as int].cost_of(goal) < u64::MAX,
        gt[fin as int].has(goal),
        forall|k: int| 0 <= k < tables@.len() ==> #[trigger] same_table(tables@[k], gt[k]),
    ensures
        r is Some,
        r matches Some(used) ==> (forall|i: int| 0 <= i < used@.len() ==> (#[trigger] used@[i] as int) < edges.len())
            && edge_sum(edges, used@) == gt[fin as int].cost_of(goal),
{
    let ghost total = gt[fin as int].cost_of(goal) as int;
    let mut used: Vec<EdgeId> = Vec::new();
    let mut stack: Vec<(usize, u64)> = Vec::new();
    stack.push((fin, goal));
    proof {
        lemma_stack_push(gt, Seq::empty(), (fin, goal));
        assert(Seq::<(usize, u64)>::empty().push((fin, goal)) =~= stack@);
    }
    while stack.len() > 0
        invariant
            nice_wf(nodes@, bags),
            tables@.len() == nodes@.len(),
            gt.len() == nodes@.len(),
            forall|k: int| 0 <= k < tables@.len() ==> (#[trigger] tables@[k]).wf() && tables@[k].same_or_empty(gt[k]),
            forall|k: int| 0 <= k < nodes@.len() ==> #[trigger] table_ok(nodes@[k], gt, gt[k]),
            forall|k: int| 0 <= k < nodes@.len() ==> edge_node_ok(#[trigger] nodes@[k], edges),
            total < u64::MAX,
            forall|x: int| 0 <= x < stack@.len() ==> (#[trigger] stack@[x]).0 < nodes@.len(),
            forall|x: int| 0 <= x < stack@.len() ==> gt[(#[trigger] stack@[x]).0 as int].has(stack@[x].1),
            forall|k: int| 0 <= k < tables@.len() ==> #[trigger] same_table(tables@[k], gt[k]),
            stack_cost(gt, stack@) + edge_sum(edges, used@) == total,
            forall|x: int| 0 <= x < used@.len() ==> (#[trigger] used@[x] as int) < edges.len(),
        decreases stack_weight(stack@),
    {
        let ghost s0 = stack@;
        let (node, code) = match stack.pop() {
            Some(x) => x,
            None => return None,
        };
        proof {
            assert(stack@ == s0.drop_last());
            assert((node, code) == s0.last());
            assert(s0[s0.len() - 1].0 < nodes@.len());
            assert(stack_weight(s0) == stack_weight(stack@) + pow3(node as nat));
            lemma_pow3_mono(node as nat, node as nat);
            assert(gt[s0[s0.len() - 1].0 as int].has(s0[s0.len() - 1].1));
            assert(same_table(tables@[node as int], gt[node as int]));
            assert forall|x: int| 0 <= x < stack@.len() implies gt[(#[trigger] stack@[x]).0 as int].has(stack@[x].1) by {
                assert(stack@[x] == s0[x]);
            }
        }
        let (cost, back) = match tables[node].get(code) {
            Some(x) => x,
            None => return None,
        };
        let ghost g = gt[node as int];
        proof {
            let tn = tables@[node as int];
            assert(tn.index@.contains_key(code));
            assert(tn.codes@.len() > 0);
            assert(tn.codes@ == g.codes@ && tn.costs@ == g.costs@ && tn.backs@ == g.backs@ && tn.index@ == g.index@);
            let j = g.index@[code] as int;
            assert(table_ok(nodes@[node as int], gt, g));
            assert(entry_ok(nodes@[node as int], gt, g.costs@[j], g.backs@[j]));
            lemma_stack_cost_nonneg(gt, stack@);
            lemma_edge_sum_nonneg(edges, used@);
            assert(nice_ok(nodes@, bags, node as int));
        }
        let nd = nodes[node];
        match back {
            Back::Leaf => {},
            Back::Unary(c) => {
                let child = match nd {
                    Nice::Introduce { child, .. } => child,
                    Nice::Forget { child, .. } => child,
                    Nice::Edge { child, .. } => child,
                    _ => return None,
                };
                proof {
                    lemma_stack_push(gt, stack@, (child, c));
                    lemma_pow3_mono(child as nat, (node - 1) as nat);
                    assert(pow3(node as nat) == 3 * pow3((node - 1) as nat));
                }
                stack.push((child, c));
            },
            Back::Edge(c, id) => {
                let child = match nd {
                    Nice::Edge { child, .. } => child,
                    _ => return None,
                };
                proof {
                    lemma_stack_push(gt, stack@, (child, c));
                    lemma_edge_sum_push(edges, used@, id);
                    lemma_pow3_mono(child as nat, (node - 1) as nat);
                    assert(pow3(node as nat) == 3 * pow3((node - 1) as nat));
                }
                used.push(id);
                stack.push((child, c));
            },
            Back::Join(a, c) => {
                let (left, right) = match nd {
                    Nice::Join { left, right } => (left, right),
                    _ => return None,
                };
                proof {
                    lemma_stack_push(gt, stack@, (left, a));
                    lemma_stack_push(gt, stack@.push((left, a)), (right, c));
                    lemma_pow3_mono(left as nat, (node - 1) as nat);
                    lemma_pow3_mono(right as nat, (node - 1) as nat);
                    assert(pow3(node as nat) == 3 * pow3((node - 1) as nat));
                }
                stack.push((left, a));
                stack.push((right, c));
            },
        }
    }
    Some(used)
}

/// `t` is `s` with some entries left out, the rest in order.
pub open spec fn is_subseq(t: Seq<EdgeId>, s: Seq<EdgeId>) -> bool
    decreases s.len(),
{
    if s.len() == 0 {
        t.len() == 0
    } else {
        ||| (t.len() > 0 && t.last() == s.last() && is_subseq(t.drop_last(), s.drop_last()))
        ||| is_subseq(t, s.drop_last())
    }
}

/// Leaving edges out costs nothing extra.
pub proof fn lemma_subseq_sum(t: Seq<EdgeId>, s: Seq<EdgeId>, edges: Seq<Edge>)
    requires
        is_subseq(t, s),
    ensures
        edge_sum(edges, t) <= edge_sum(edges, s),
    decreases s.len(),
{
    if s.len() > 0 {
        if t.len() > 0 && t.last() == s.last() && is_subseq(t.drop_last(), s.drop_last()) {
            lemma_subseq_sum(t.drop_last(), s.drop_last(), edges);
        } else {
            lemma_subseq_sum(t, s.drop_last(), edges);
        }
    }
}

proof fn lemma_edge_sum_prefix(edges: Seq<Edge>, ids: Seq<EdgeId>, k: int)
    requires
        0 <= k <= ids.len(),
    ensures
        edge_sum(edges, ids.take(k)) <= edge_sum(edges, ids),
    decreases ids.len() - k,
{
    if k < ids.len() {
        lemma_edge_sum_prefix(edges, ids, k + 1);
        assert(ids.take(k + 1).drop_last() =~= ids.take(k));
    } else {
        assert(ids.take(k) =~= ids);
    }
}

/// A spanning forest of the edges `used`: each edge is kept unless the ones
/// kept before it already join its endpoints.
fn spanning_tree(graph: &UndirectedGraph, used: &Vec<EdgeId>) -> (tree: Vec<EdgeId>)
    requires
        graph.wf(),
        forall|i: int| 0 <= i < used@.len() ==> (#[trigger] used@[i] as int) < graph.edges@.len(),
    ensures
        is_subseq(tree@, used@),
        forall|i: int| 0 <= i < tree@.len() ==> (#[trigger] tree@[i] as int) < graph.edges@.len(),
{
    // One slot per vertex id up to the largest endpoint.
    let mut top: u32 = 0;
    let mut k: usize = 0;
    while k < used.len()
        invariant
            graph.wf(),
            forall|i: int| 0 <= i < used@.len() ==> (#[trigger] used@[i] as int) < graph.edges@.len(),
            k <= used@.len(),
            forall|i: int| 0 <= i < k ==> graph.edges@[#[trigger] used@[i] as int].src <= top
                && graph.edges@[used@[i] as int].dst <= top,
        decreases used@.len() - k,
    {
        let e = graph.edges[used[k] as usize];
        if e.src > top {
            top = e.src;
        }
        if e.dst > top {
            top = e.dst;
        }
        k += 1;
    }
    let mut parent: Vec<u32> = Vec::new();
    let mut x: u32 = 0;
    loop
        invariant_except_break
            x <= top,
            parent@.len() == x,
        invariant
            forall|i: int| 0 <= i < parent@.len() ==> #[trigger] parent@[i] == i,
        ensures
            parent@.len() == top + 1,
            forall|i: int| 0 <= i < parent@.len() ==> #[trigger] parent@[i] == i,
        decreases top - x,
    {
        parent.push(x);
        if x == top {
            break;
        }
        x += 1;
    }
    let ghost mut level: Seq<int> = Seq::new(parent@.len(), |i: int| 0int);
    let ghost mut bound: int = 0;
    let mut tree: Vec<EdgeId> = Vec::new();
    let mut k: usize = 0;
    proof {
        assert(used@.take(0) =~= Seq::<EdgeId>::empty());
    }
    while k < used.len()
        invariant
            graph.wf(),
            forall|i: int| 0 <= i < used@.len() ==> (#[trigger] used@[i] as int) < graph.edges@.len(),
            forall|i: int| 0 <= i < used@.len() ==> graph.edges@[#[trigger] used@[i] as int].src <= top
                && graph.edges@[used@[i] as int].dst <= top,
            parent@.len() == top + 1,
            uf_ok(parent@, level, bound),
            k <= used@.len(),
            is_subseq(tree@, used@.take(k as int)),
            forall|i: int| 0 <= i < tree@.len() ==> (#[trigger] tree@[i] as int) < graph.edges@.len(),
        decreases used@.len() - k,
    {
        let id = used[k];
        let e = graph.edges[id as usize];
        let a = find(&mut parent, e.src, Ghost(level), Ghost(bound));
        let c = find(&mut parent, e.dst, Ghost(level), Ghost(bound));
        let ghost t0 = tree@;
        proof {
            assert(used@.take(k + 1).drop_last() =~= used@.take(k as int));
            assert(used@.take(k + 1).last() == id);
        }
        if a != c {
            parent.set(a as usize, c);
            proof {
                let lv = if level[c as int] > level[a as int] { level[c as int] } else { level[a as int] + 1 };
                level = level.update(c as int, lv);
                bound = bound + 1;
                assert forall|i2: int| 0 <= i2 < parent@.len() && parent@[i2] != i2 implies level[i2] < level[#[trigger] parent@[i2] as int] by {}
            }
            tree.push(id);
            proof {
                assert(tree@.drop_last() =~= t0);
            }
        }
        k += 1;
    }
    proof {
        assert(used@.take(used@.len() as int) =~= used@);
    }
    tree
}

/// A least-cost tree spanning `terminals`, found by dynamic programming over
/// the nice form of `td`, or `None` when the decomposition cannot be used,
/// more than `state_cap` states would be live, `deadline` passes, or no
/// tree exists.
///
/// With `want_tree` the edges are read back and reduced to a spanning
/// forest, and the cost reported is theirs; without it every table is
/// dropped once its parent is built, `state_cap` bounds the states held at
/// once, and only the cost is reported.
pub fn steiner_tree_over_decomposition(
    graph: &UndirectedGraph,
    terminals: &[NodeId],
    td: &TreeDecomposition,
    state_cap: usize,
    want_tree: bool,
    deadline: Option<Instant>,
) -> (r: Option<(Cost, Vec<EdgeId>)>)
    requires
        graph.wf(),
    ensures
        terminals.len() == 0 ==> (r matches Some((c, t)) && c == 0 && t@.len() == 0),
        terminals.len() > 0 && td.roots@.len() != 1 ==> r is None,
        too_wide(td, terminals@) ==> r is None,
        r is Some ==> forall|k: int| 0 <= k < terminals.len() ==> td.node_to_index@.contains_key(#[trigger] terminals@[k]),
        r matches Some((c, t)) ==> c < u64::MAX && forall|i: int| 0 <= i < t@.len() ==> (#[trigger] t@[i] as int) < graph.edges@.len(),
        want_tree ==> (r matches Some((c, t)) ==> c == edge_sum(graph.edges@, t@)),
        !want_tree ==> (r matches Some((c, t)) ==> t@.len() == 0),
{
    if terminals.len() == 0 {
        return Some((0, Vec::new()));
    }
    let prep = match prepare(graph, terminals, td) {
        Some(p) => p,
        None => return None,
    };
    let Prepared { nodes, node_bags, final_node, is_terminal } = prep;
    let n = nodes.len();
    let mut tables: Vec<Table> = Vec::new();
    let mut k: usize = 0;
    while k < n
        invariant
            k <= n,
            tables@.len() == k,
            forall|j: int| 0 <= j < k ==> (#[trigger] tables@[j]).wf() && tables@[j].codes@.len() == 0,
        decreases n - k,
    {
        tables.push(Table::new());
        k += 1;
    }
    let ghost mut gt: Seq<Table> = tables@;
    let mut live_states: usize = 0;
    let mut i: usize = 0;
    while i < n
        invariant
            prepared_ok(nodes@, node_bags@, final_node as int, graph.edges@),
            n == nodes@.len(),
            tables@.len() == n,
            gt.len() == n,
            i <= n,
            forall|j: int| 0 <= j < n ==> (#[trigger] tables@[j]).wf() && tables@[j].same_or_empty(gt[j]),
            want_tree ==> forall|j: int| 0 <= j < n ==> #[trigger] same_table(tables@[j], gt[j]),
            forall|j: int| 0 <= j < i ==> #[trigger] table_ok(nodes@[j], gt, gt[j]),
            live_states <= state_cap,
            terminals.len() > 0,
            forall|t: int| 0 <= t < terminals.len() ==> td.node_to_index@.contains_key(#[trigger] terminals@[t]),
        decreases n - i,
    {
        let table = match node_table(&nodes, &node_bags, &is_terminal, &tables, i, Ghost(gt)) {
            Some(t) => t,
            None => return None,
        };
        if table.len() > state_cap - live_states {
            return None;
        }
        live_states = live_states + table.len();
        // Checked every node: a single join at a wide bag can take longer
        // than the rest of the run.
        if passed(&deadline) {
            return None;
        }
        proof {
            lemma_frame(nodes@, bag_views(node_bags@), gt, i as int, table);
            gt = gt.update(i as int, table);
        }
        tables.set(i, table);
        if !want_tree {
            // A node's table is dead once its parent is built.
            match nodes[i] {
                Nice::Leaf => {},
                Nice::Introduce { child, .. } | Nice::Forget { child, .. } | Nice::Edge { child, .. } => {
                    proof {
                        assert(nice_ok(nodes@, bag_views(node_bags@), i as int));
                    }
                    live_states = live_states.saturating_sub(tables[child].len());
                    tables.set(child, Table::new());
                },
                Nice::Join { left, right } => {
                    proof {
                        assert(nice_ok(nodes@, bag_views(node_bags@), i as int));
                    }
                    live_states = live_states.saturating_sub(tables[left].len());
                    tables.set(left, Table::new());
                    live_states = live_states.saturating_sub(tables[right].len());
                    tables.set(right, Table::new());
                },
            }
        }
        i += 1;
    }
    // The final bag holds one vertex, and the answer is the state in which
    // it is used.
    let mut d: [u8; MAX_BAG] = [OUT; MAX_BAG];
    d[0] = 0;
    let goal = encode_canonical(&mut d, 1);
    let cost = match tables[final_node].get(goal) {
        Some((c, _)) => c,
        None => return None,
    };
    if cost == u64::MAX {
        return None;
    }
    if !want_tree {
        return Some((cost, Vec::new()));
    }
    proof {
        let tf = tables@[final_node as int];
        assert(tf.index@.contains_key(goal));
        assert(tf.codes@.len() > 0);
        assert(gt[final_node as int].cost_of(goal) == cost);
    }
    let used = match read_back(&nodes, &tables, final_node, goal, Ghost(bag_views(node_bags@)), Ghost(gt), Ghost(graph.edges@)) {
        Some(u) => u,
        None => return None,
    };
    // The collected edges are connected and span the terminals, but may
    // close zero-cost cycles; keep a spanning forest of them.
    let tree = spanning_tree(graph, &used);
    proof {
        lemma_subseq_sum(tree@, used@, graph.edges@);
    }
    let mut total: u64 = 0;
    let mut k: usize = 0;
    proof {
        assert(tree@.take(0) =~= Seq::<EdgeId>::empty());
    }
    while k < tree.len()
        invariant
            graph.wf(),
            forall|i2: int| 0 <= i2 < tree@.len() ==> (#[trigger] tree@[i2] as int) < graph.edges@.len(),
            edge_sum(graph.edges@, tree@) <= cost,
            cost < u64::MAX,
            k <= tree@.len(),
            total == edge_sum(graph.edges@, tree@.take(k as int)),
        decreases tree@.len() - k,
    {
        proof {
            lemma_edge_sum_prefix(graph.edges@, tree@, k + 1);
            assert(tree@.take(k + 1).drop_last() =~= tree@.take(k as int));
        }
        total = total + graph.edges[tree[k] as usize].cost;
        k += 1;
    }
    proof {
        assert(tree@.take(tree@.len() as int) =~= tree@);
    }
    Some((total, tree))
}

} // verus!
