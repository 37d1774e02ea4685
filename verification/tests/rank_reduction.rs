use scip_jack::graph::algorithms::rank_reduction::{by_cost, cut_words, reduce, reduce_class, Basis, DynBasis};
use scip_jack::graph::algorithms::tree_decomposition::MAX_BAG;
use std::collections::HashMap;

const OUT: u8 = 15;
const INF: u64 = u64::MAX;

/// All partitions of `{0..s-1}`, as restricted growth strings padded into a
/// signature over bag positions `0..s-1`.
fn all_partitions(s: usize) -> Vec<[u8; MAX_BAG]> {
    let mut out = Vec::new();
    fn grow(i: usize, used: u8, a: &mut [u8; MAX_BAG], s: usize, out: &mut Vec<[u8; MAX_BAG]>) {
        if i == s {
            out.push(*a);
            return;
        }
        for v in 0..=used {
            a[i] = v;
            grow(i + 1, used.max(v + 1), a, s, out);
        }
    }
    let mut a = [OUT; MAX_BAG];
    a[0] = 0;
    grow(1, 1, &mut a, s, &mut out);
    out
}

fn find(uf: &mut Vec<usize>, mut x: usize) -> usize {
    while uf[x] != x {
        uf[x] = uf[uf[x]];
        x = uf[x];
    }
    x
}

fn union_of(p: &[u8], q: &[u8], s: usize) -> Vec<usize> {
    let mut uf: Vec<usize> = (0..s).collect();
    for side in [p, q] {
        for i in 0..s {
            for j in i + 1..s {
                if side[i] == side[j] {
                    let (a, b) = (find(&mut uf, i), find(&mut uf, j));
                    uf[a] = b;
                }
            }
        }
    }
    uf
}

/// Whether the join of two partitions of `{0..s-1}` is the single block.
fn joins_connected(p: &[u8], q: &[u8], s: usize) -> bool {
    let mut uf = union_of(p, q, s);
    let r0 = find(&mut uf, 0);
    (1..s).all(|i| find(&mut uf, i) == r0)
}

/// Blocks of a partition of `{0..s-1}`, as a vector of masks.
fn block_masks(p: &[u8; MAX_BAG], s: usize) -> Vec<u32> {
    let mut by: HashMap<u8, u32> = HashMap::new();
    for i in 0..s {
        *by.entry(p[i]).or_insert(0) |= 1 << i;
    }
    let mut v: Vec<u32> = by.into_values().collect();
    v.sort_unstable();
    v
}

/// The join of two partitions of `{0..s-1}`, as a canonical signature.
fn join_of(p: &[u8; MAX_BAG], q: &[u8; MAX_BAG], s: usize) -> [u8; MAX_BAG] {
    let mut uf = union_of(p, q, s);
    let mut out = [OUT; MAX_BAG];
    let mut map = HashMap::new();
    let mut next = 0u8;
    for i in 0..s {
        let r = find(&mut uf, i);
        let id = *map.entry(r).or_insert_with(|| {
            next += 1;
            next - 1
        });
        out[i] = id;
    }
    out
}

/// Whether `p ∪ q` is a forest: `|p| + |q| = |S| + |p ⊔ q|`.
fn forest_compatible(p: &[u8; MAX_BAG], q: &[u8; MAX_BAG], s: usize) -> bool {
    let j = join_of(p, q, s);
    block_masks(p, s).len() + block_masks(q, s).len() == s + block_masks(&j, s).len()
}

fn xorshift(seed: &mut u64) -> u64 {
    *seed ^= *seed << 13;
    *seed ^= *seed >> 7;
    *seed ^= *seed << 17;
    *seed
}

#[test]
fn forest_completions_are_not_preserved() {
    let s = 3usize;
    let used = vec![0usize, 1, 2];
    let part = |a: u8, b: u8, c: u8| {
        let mut d = [OUT; MAX_BAG];
        d[0] = a;
        d[1] = b;
        d[2] = c;
        d
    };
    // {ab|c}, {ac|b}, {bc|a} at cost 1; the discrete partition at 2.
    let decoded = vec![part(0, 0, 1), part(0, 1, 0), part(0, 1, 1), part(0, 1, 2)];
    let costs: Vec<u64> = vec![1, 1, 1, 2];
    let order = by_cost(&costs);
    assert_eq!(order.last(), Some(&3), "the discrete partition must sort last");
    let keep = reduce(&decoded, &used, &order);
    assert!(!keep.contains(&3), "the discrete partition should be dependent on the three two-block ones");

    let q = part(0, 0, 0);
    for i in 0..4 {
        assert!(joins_connected(&decoded[i], &q, s));
    }
    let full_forest: Vec<usize> = (0..4).filter(|&i| forest_compatible(&decoded[i], &q, s)).collect();
    assert_eq!(full_forest, vec![3], "only the discrete partition is acyclic here");
    let kept_forest: Vec<usize> =
        keep.iter().copied().filter(|&i| forest_compatible(&decoded[i], &q, s)).collect();
    assert!(kept_forest.is_empty(), "the reduced table still had a forest completion");
}

#[test]
fn reduced_join_matches_naive_join() {
    let mut seed = 0x1010_C0DE_7777_1111u64;
    for s in 2..=6usize {
        let used: Vec<usize> = (0..s).collect();
        let parts = all_partitions(s);
        for round in 0..40 {
            let bias = round % 4;
            let mut build = |seed: &mut u64| {
                let mut chosen: Vec<[u8; MAX_BAG]> = Vec::new();
                for p in &parts {
                    let blocks = block_masks(p, s).len();
                    let want = match bias {
                        0 => 70,
                        1 => 25 + 60 * (blocks == 1 || blocks == s) as u64,
                        2 => 90 - 12 * blocks as u64,
                        _ => 20 + 14 * blocks as u64,
                    };
                    if xorshift(seed) % 100 < want {
                        chosen.push(*p);
                    }
                }
                let costs: Vec<u64> = (0..chosen.len()).map(|_| xorshift(seed) % 40).collect();
                (chosen, costs)
            };
            let (pa, ca) = build(&mut seed);
            let (pb, cb) = build(&mut seed);
            if pa.is_empty() || pb.is_empty() {
                continue;
            }
            let mut naive: HashMap<[u8; MAX_BAG], u64> = HashMap::new();
            for (i, p) in pa.iter().enumerate() {
                for (j, q) in pb.iter().enumerate() {
                    let r = join_of(p, q, s);
                    let w = ca[i] + cb[j];
                    let e = naive.entry(r).or_insert(INF);
                    if w < *e {
                        *e = w;
                    }
                }
            }
            let ka = reduce(&pa, &used, &by_cost(&ca));
            let kb = reduce(&pb, &used, &by_cost(&cb));
            let mut fast: HashMap<[u8; MAX_BAG], u64> = HashMap::new();
            for &i in &ka {
                for &j in &kb {
                    let r = join_of(&pa[i], &pb[j], s);
                    let w = ca[i] + cb[j];
                    let e = fast.entry(r).or_insert(INF);
                    if w < *e {
                        *e = w;
                    }
                }
            }
            let fp: Vec<[u8; MAX_BAG]> = fast.keys().copied().collect();
            let fc: Vec<u64> = fp.iter().map(|k| fast[k]).collect();
            let kf = reduce(&fp, &used, &by_cost(&fc));
            for q in &parts {
                let want = naive
                    .iter()
                    .filter(|(p, _)| joins_connected(&p[..], &q[..], s))
                    .map(|(_, &w)| w)
                    .fold(INF, u64::min);
                let got = kf
                    .iter()
                    .filter(|&&i| joins_connected(&fp[i], &q[..], s))
                    .map(|&i| fc[i])
                    .fold(INF, u64::min);
                assert_eq!(want, got, "reduced join changed the answer at s={s} query={:?}", &q[..s]);
            }
        }
    }
}

#[test]
fn inner_product_detects_connection() {
    for s in 1..=7usize {
        let used: Vec<usize> = (0..s).collect();
        let parts = all_partitions(s);
        let bits = 1usize << (s - 1);
        let words = bits.div_ceil(64);
        let vecs: Vec<Vec<u64>> = parts.iter().map(|p| cut_words(&p[..], &used, bits, words)).collect();
        for (i, p) in parts.iter().enumerate() {
            for (j, q) in parts.iter().enumerate() {
                let dot = (0..words).map(|w| (vecs[i][w] & vecs[j][w]).count_ones()).sum::<u32>() % 2;
                assert_eq!(dot == 1, joins_connected(&p[..], &q[..], s), "s={s} p={:?} q={:?}", &p[..s], &q[..s]);
            }
        }
    }
}

#[test]
fn reduction_preserves_every_completion() {
    let mut seed = 0x5EED_1234_ABCD_9876u64;
    for s in 2..=6usize {
        let used: Vec<usize> = (0..s).collect();
        let parts = all_partitions(s);
        for _ in 0..60 {
            let chosen: Vec<usize> = (0..parts.len()).filter(|_| xorshift(&mut seed) % 100 < 60).collect();
            if chosen.is_empty() {
                continue;
            }
            let decoded: Vec<[u8; MAX_BAG]> = chosen.iter().map(|&i| parts[i]).collect();
            let costs: Vec<u64> = (0..decoded.len()).map(|_| xorshift(&mut seed) % 50).collect();
            let order = by_cost(&costs);
            let keep = reduce(&decoded, &used, &order);
            assert!(keep.len() <= 1usize << (s - 1), "kept {} above the 2^(s-1) bound at s={s}", keep.len());
            for q in &parts {
                let full = (0..decoded.len())
                    .filter(|&i| joins_connected(&decoded[i], &q[..], s))
                    .map(|i| costs[i])
                    .fold(INF, u64::min);
                let reduced = keep
                    .iter()
                    .copied()
                    .filter(|&i| joins_connected(&decoded[i], &q[..], s))
                    .map(|i| costs[i])
                    .fold(INF, u64::min);
                assert_eq!(full, reduced, "reduction changed the minimum at s={s}");
            }
        }
    }
}

/// All partitions of `{0..s-1}` as signatures of length `s`.
fn all_signatures(s: usize) -> Vec<Vec<u8>> {
    let mut out = Vec::new();
    fn grow(i: usize, used: u8, a: &mut Vec<u8>, s: usize, out: &mut Vec<Vec<u8>>) {
        if i == s {
            out.push(a.clone());
            return;
        }
        for v in 0..=used {
            a[i] = v;
            grow(i + 1, used.max(v + 1), a, s, out);
        }
    }
    let mut a = vec![0u8; s];
    grow(0, 0, &mut a, s, &mut out);
    out
}

#[test]
fn the_dynamic_reduction_preserves_every_completion() {
    let mut st = 0x1357_9BDF_2468_ACE0u64;
    for s in 1..=7usize {
        let parts = all_signatures(s);
        let used: Vec<usize> = (0..s).collect();
        for _ in 0..60 {
            let mut entries: Vec<(Vec<u8>, u64)> = Vec::new();
            for p in &parts {
                if xorshift(&mut st) % 3 != 0 {
                    entries.push((p.clone(), xorshift(&mut st) % 50));
                }
            }
            if entries.is_empty() {
                continue;
            }
            let (kept, _, refused) = reduce_class(entries.clone(), &used, 1 << 20);
            assert!(!refused);
            assert!(kept.len() <= if s <= 1 { 1 } else { 1usize << (s - 1) }, "kept {} at s={s}", kept.len());
            for q in &parts {
                let full = entries.iter().filter(|(p, _)| joins_connected(p, q, s)).map(|(_, c)| *c).fold(INF, u64::min);
                let red = kept.iter().filter(|(p, _)| joins_connected(p, q, s)).map(|(_, c)| *c).fold(INF, u64::min);
                assert_eq!(full, red, "s={s} query {q:?}");
            }
        }
    }
}

#[test]
fn an_exhausted_basis_keeps_the_answer() {
    let s = 6usize;
    let parts = all_signatures(s);
    let used: Vec<usize> = (0..s).collect();
    let entries: Vec<(Vec<u8>, u64)> = parts.iter().enumerate().map(|(i, p)| (p.clone(), i as u64)).collect();
    // One row of eight bytes: the basis refuses after the first keep.
    let (kept, _, refused) = reduce_class(entries.clone(), &used, 8);
    assert!(refused);
    for q in &parts {
        let full = entries.iter().filter(|(p, _)| joins_connected(p, q, s)).map(|(_, c)| *c).fold(INF, u64::min);
        let red = kept.iter().filter(|(p, _)| joins_connected(p, q, s)).map(|(_, c)| *c).fold(INF, u64::min);
        assert_eq!(full, red);
    }
}

#[test]
fn a_full_basis_refuses_everything() {
    // Two elements: the cut space has two columns; {a|b} and {ab} span it.
    let used = vec![0usize, 1];
    let mut b = Basis::new(2);
    let mut d = [OUT; MAX_BAG];
    d[0] = 0;
    d[1] = 1;
    assert!(!b.is_full());
    assert!(b.offer(&d, &used));
    assert!(!b.offer(&d, &used), "an offered vector is in the span afterwards");
    d[1] = 0;
    assert!(b.offer(&d, &used));
    assert!(b.is_full());
}

#[test]
fn a_single_element_admits_one_partition() {
    let used = vec![3usize];
    let mut b = Basis::new(1);
    let d = [0u8; MAX_BAG];
    assert!(b.offer(&d, &used));
    assert!(b.is_full());
    assert!(!b.offer(&d, &used));
    assert_eq!(reduce(&[d, d, d], &used, &[2, 0, 1]), vec![2, 0, 1]);
}

#[test]
fn cut_vector_of_the_discrete_partition_is_all_ones() {
    let used = vec![0usize, 1, 2];
    let v = cut_words(&[0u8, 1, 2], &used, 4, 1);
    assert_eq!(v, vec![0b1111]);
    // One block: only the column with every element on the side of the first.
    let w = cut_words(&[5u8, 5, 5], &used, 4, 1);
    assert_eq!(w, vec![0b1000]);
}

#[test]
fn by_cost_is_stable() {
    assert_eq!(by_cost(&[3, 1, 3, 0, 1]), vec![3, 1, 4, 0, 2]);
    let empty: [u64; 0] = [];
    assert!(by_cost(&empty).is_empty());
}

#[test]
fn a_budget_refusal_leaves_the_basis_unchanged() {
    let used = vec![0usize, 1];
    let mut b = DynBasis::new(2, 8);
    assert_eq!(b.offer(&[0, 1], &used), Some(true));
    assert_eq!(b.bytes(), 8);
    assert_eq!(b.offer(&[0, 1], &used), Some(false));
    assert_eq!(b.offer(&[0, 0], &used), None);
    assert_eq!(b.bytes(), 8);
    assert!(!b.is_full());
}

#[test]
fn a_zero_budget_refuses_even_a_single_position() {
    let used = vec![0usize];
    let mut b = DynBasis::new(1, 0);
    assert_eq!(b.offer(&[0], &used), None);
    assert_eq!(b.bytes(), 0);
    let mut c = DynBasis::new(1, 8);
    assert_eq!(c.offer(&[0], &used), Some(true));
    assert_eq!(c.bytes(), 8);
    assert_eq!(c.offer(&[0], &used), Some(false));
}
