//! Rank-based reduction of a table of partitions.
//!
//! A partition `p` of a ground set `S = {used[0], ..., used[s-1]}` of bag
//! positions is given by block labels: positions `used[i]` and `used[j]` share
//! a block exactly when `d[used[i]] == d[used[j]]`. Its *cut vector* is the
//! GF(2) vector indexed by the bipartitions `(X, S - X)` with `used[0]` in `X`
//! (column `col` puts `used[i]`, `i >= 1`, into `X` when bit `i - 1` of `col`
//! is set) whose entry is one exactly when every block lies inside `X` or
//! inside `S - X`.
//!
//! The reduction processes candidates cheapest first and keeps a candidate
//! exactly when its cut vector is outside the span of those already kept.
use vstd::prelude::*;
use vstd::arithmetic::power2::{pow2, lemma_pow2_pos, lemma_pow2_strictly_increases};
use vstd::bits::{lemma_u64_shr_is_div, lemma_usize_shl_is_mul, lemma_usize_pow2_no_overflow, lemma_u64_shl_is_mul, lemma_u64_pow2_no_overflow};
use super::gf2::{
    word_bit, bits_view, zero_vec, xor_vec, all_len, in_span, spans_into, echelon, combo, inner,
    common_ones, lemma_inner_parity, lemma_inner_span,
    lemma_span_zero, lemma_span_member, lemma_span_xor, lemma_span_len, lemma_span_mono,
    lemma_span_push, lemma_outside_span, lemma_pivot_count, lemma_full_rows_span, lemma_combo_len,
    lemma_usize_range_len,
    zero_words, test_bit, set_bit, xor_words, xor_into,
};
use super::tree_decomposition::MAX_BAG;

verus! {

/// Words of `u64` a cut vector of a packed bag needs at most.
pub const MAX_WORDS: usize = 256;

/// Columns of the cut space of an `s`-element ground set.
pub open spec fn ground_bits(s: nat) -> nat {
    if s <= 1 {
        1
    } else {
        pow2((s - 1) as nat)
    }
}

/// Whether column `col` puts the `i`-th ground element on the side of `used[0]`.
pub open spec fn on_side(col: int, i: int) -> bool {
    i == 0 || (col / (pow2((i - 1) as nat) as int)) % 2 == 1
}

/// The `i`-th and `j`-th ground elements share a block.
pub open spec fn same_block(d: Seq<u8>, used: Seq<usize>, i: int, j: int) -> bool {
    d[used[i] as int] == d[used[j] as int]
}

/// Every block of the partition lies on one side of the bipartition `col`.
pub open spec fn refines(d: Seq<u8>, used: Seq<usize>, col: int) -> bool {
    forall|i: int, j: int|
        0 <= i < used.len() && 0 <= j < used.len() && #[trigger] same_block(d, used, i, j)
            ==> on_side(col, i) == on_side(col, j)
}

/// The cut vector of the partition that `d` puts on `used`.
pub open spec fn cut_vector(d: Seq<u8>, used: Seq<usize>) -> Seq<bool> {
    Seq::new(ground_bits(used.len()), |col: int| refines(d, used, col))
}

/// Every ground position lies inside the labelling.
pub open spec fn positions_valid(d: Seq<u8>, used: Seq<usize>) -> bool {
    forall|i: int| 0 <= i < used.len() ==> (#[trigger] used[i] as int) < d.len()
}

/// The rows, read as vectors of `bits` columns.
pub open spec fn rows_view(rows: Seq<Vec<u64>>, bits: nat) -> Seq<Seq<bool>> {
    Seq::new(rows.len(), |i: int| bits_view(rows[i]@, bits))
}

/// The state of an incremental basis: reduced echelon rows whose span is that
/// of the kept cut vectors.
pub open spec fn basis_inv(
    bits: nat,
    words: nat,
    rows: Seq<Vec<u64>>,
    pivots: Seq<usize>,
    kept: Seq<Seq<bool>>,
) -> bool {
    &&& 1 <= bits <= 64 * words
    &&& bits <= usize::MAX
    &&& forall|i: int| 0 <= i < rows.len() ==> (#[trigger] rows[i]).len() == words
    &&& echelon(rows_view(rows, bits), pivots, bits)
    &&& all_len(kept, bits)
    &&& kept.len() == rows.len()
    &&& spans_into(rows_view(rows, bits), kept, bits)
    &&& spans_into(kept, rows_view(rows, bits), bits)
}

/// The rows after absorbing a new pivot row `v` at column `p`.
pub open spec fn absorbed(rs: Seq<Seq<bool>>, v: Seq<bool>, p: int) -> Seq<Seq<bool>> {
    Seq::new(rs.len(), |i: int| if rs[i][p] { xor_vec(rs[i], v) } else { rs[i] }).push(v)
}

proof fn lemma_xor_cancel(a: Seq<bool>, b: Seq<bool>)
    requires
        a.len() == b.len(),
    ensures
        xor_vec(xor_vec(a, b), b) == a,
        xor_vec(b, xor_vec(a, b)) == a,
        xor_vec(a, b) == xor_vec(b, a),
{
    assert(xor_vec(xor_vec(a, b), b) =~= a);
    assert(xor_vec(b, xor_vec(a, b)) =~= a);
    assert(xor_vec(a, b) =~= xor_vec(b, a));
}

/// A reduced vector that vanishes everywhere shows the cut is dependent.
proof fn lemma_reject(
    rs: Seq<Seq<bool>>,
    kept: Seq<Seq<bool>>,
    n: nat,
    cut: Seq<bool>,
    v: Seq<bool>,
)
    requires
        all_len(rs, n),
        all_len(kept, n),
        spans_into(rs, kept, n),
        cut.len() == n,
        v == zero_vec(n),
        in_span(rs, xor_vec(v, cut), n),
    ensures
        in_span(kept, cut, n),
{
    assert(xor_vec(v, cut) =~= cut);
    lemma_span_mono(rs, kept, n, cut);
}

/// A reduced vector with a one at a fresh column `p` shows the cut is
/// independent, and absorbing it keeps the basis state.
proof fn lemma_accept(
    rs: Seq<Seq<bool>>,
    pivots: Seq<usize>,
    kept: Seq<Seq<bool>>,
    n: nat,
    cut: Seq<bool>,
    v: Seq<bool>,
    p: usize,
)
    requires
        echelon(rs, pivots, n),
        all_len(kept, n),
        kept.len() == rs.len(),
        spans_into(rs, kept, n),
        spans_into(kept, rs, n),
        cut.len() == n,
        v.len() == n,
        in_span(rs, xor_vec(v, cut), n),
        forall|j: int| 0 <= j < pivots.len() ==> !v[#[trigger] pivots[j] as int],
        p < n,
        v[p as int],
    ensures
        !in_span(kept, cut, n),
        echelon(absorbed(rs, v, p as int), pivots.push(p), n),
        all_len(kept.push(cut), n),
        spans_into(absorbed(rs, v, p as int), kept.push(cut), n),
        spans_into(kept.push(cut), absorbed(rs, v, p as int), n),
{
    let k = rs.len();
    let nr = absorbed(rs, v, p as int);
    let nk = kept.push(cut);
    let np = pivots.push(p);
    lemma_xor_cancel(v, cut);
    // Independence.
    if in_span(kept, cut, n) {
        lemma_span_mono(kept, rs, n, cut);
        lemma_span_xor(rs, xor_vec(v, cut), cut, n);
        lemma_outside_span(rs, pivots, n, v, p as int);
    }
    // Echelon form.
    assert(all_len(nr, n));
    assert forall|i: int, j: int| 0 <= i < nr.len() && 0 <= j < nr.len()
        implies #[trigger] nr[i][#[trigger] np[j] as int] == (i == j) by {
        if i < k && j < k {
            assert(rs[i][pivots[j] as int] == (i == j));
        } else if i < k {
            assert(rs[i].len() == n);
        }
    }
    assert(echelon(nr, np, n));
    assert(all_len(nk, n));
    // The new rows lie in the span of the kept cuts.
    lemma_span_mono(rs, kept, n, xor_vec(v, cut));
    lemma_span_push(kept, cut, xor_vec(v, cut), n);
    lemma_span_member(nk, n, k as int);
    lemma_span_xor(nk, xor_vec(v, cut), cut, n);
    assert forall|i: int| 0 <= i < nr.len() implies in_span(nk, #[trigger] nr[i], n) by {
        if i < k {
            assert(in_span(kept, rs[i], n));
            lemma_span_push(kept, cut, rs[i], n);
            if rs[i][p as int] {
                lemma_span_xor(nk, rs[i], v, n);
            }
        }
    }
    // The kept cuts lie in the span of the new rows.
    assert forall|i: int| 0 <= i < rs.len() implies in_span(nr, #[trigger] rs[i], n) by {
        lemma_span_member(nr, n, i);
        lemma_span_member(nr, n, k as int);
        if rs[i][p as int] {
            lemma_xor_cancel(rs[i], v);
            lemma_span_xor(nr, nr[i], v, n);
        }
    }
    assert(spans_into(rs, nr, n));
    lemma_span_member(nr, n, k as int);
    lemma_span_mono(rs, nr, n, xor_vec(v, cut));
    lemma_span_xor(nr, v, xor_vec(v, cut), n);
    lemma_xor_cancel(cut, v);
    assert(in_span(nr, cut, n));
    assert forall|i: int| 0 <= i < nk.len() implies in_span(nr, #[trigger] nk[i], n) by {
        if i < k {
            assert(in_span(rs, kept[i], n));
            lemma_span_mono(rs, nr, n, kept[i]);
        }
    }
}

proof fn lemma_low_bit(y: u64)
    by (bit_vector)
    ensures
        (y & 1 == 1) <==> (y % 2 == 1),
{
}

/// Whether column `col` puts the `i`-th ground element with `used[0]`.
fn side(col: usize, i: usize) -> (r: bool)
    requires
        i <= 64,
        col <= u64::MAX,
    ensures
        r == on_side(col as int, i as int),
{
    if i == 0 {
        true
    } else {
        let x = col as u64;
        let k = (i - 1) as u64;
        proof {
            lemma_u64_shr_is_div(x, k);
            lemma_low_bit(x >> k);
            lemma_pow2_pos(k as nat);
        }
        (x >> k) & 1 == 1
    }
}

/// For each ground element, the first ground element of its block.
fn block_leaders(d: &[u8], used: &[usize]) -> (r: Vec<usize>)
    requires
        positions_valid(d@, used@),
    ensures
        r.len() == used.len(),
        forall|i: int| 0 <= i < used.len() ==> {
            &&& #[trigger] r@[i] <= i
            &&& same_block(d@, used@, i, r@[i] as int)
            &&& forall|j: int| 0 <= j < r@[i] ==> !same_block(d@, used@, i, j)
        },
{
    let mut r: Vec<usize> = Vec::new();
    let mut i: usize = 0;
    while i < used.len()
        invariant
            positions_valid(d@, used@),
            i <= used.len(),
            r.len() == i,
            forall|a: int| 0 <= a < i ==> {
                &&& #[trigger] r@[a] <= a
                &&& same_block(d@, used@, a, r@[a] as int)
                &&& forall|j: int| 0 <= j < r@[a] ==> !same_block(d@, used@, a, j)
            },
        decreases used.len() - i,
    {
        let li = d[used[i]];
        let mut j: usize = 0;
        while j < i && d[used[j]] != li
            invariant
                positions_valid(d@, used@),
                i < used.len(),
                li == d@[used@[i as int] as int],
                j <= i,
                forall|k: int| 0 <= k < j ==> !same_block(d@, used@, i as int, k),
            decreases i - j,
        {
            j += 1;
        }
        r.push(j);
        i += 1;
    }
    r
}

/// Ground elements of one block share their leader.
proof fn lemma_leaders_agree(d: Seq<u8>, used: Seq<usize>, r: Seq<usize>, i: int, j: int)
    requires
        r.len() == used.len(),
        forall|a: int| 0 <= a < used.len() ==> {
            &&& #[trigger] r[a] <= a
            &&& same_block(d, used, a, r[a] as int)
            &&& forall|b: int| 0 <= b < r[a] ==> !same_block(d, used, a, b)
        },
        0 <= i < used.len(),
        0 <= j < used.len(),
        same_block(d, used, i, j),
    ensures
        r[i] == r[j],
{
    assert(r[i] <= i && r[j] <= j);
    if r[i] < r[j] {
        assert(same_block(d, used, j, r[i] as int));
    } else if r[j] < r[i] {
        assert(same_block(d, used, i, r[j] as int));
    }
}

/// Whether column `col` is a one of the cut vector.
fn refines_exec(d: &[u8], used: &[usize], leaders: &Vec<usize>, col: usize) -> (r: bool)
    requires
        positions_valid(d@, used@),
        used.len() <= 65,
        col <= u64::MAX,
        leaders.len() == used.len(),
        forall|i: int| 0 <= i < used.len() ==> {
            &&& #[trigger] leaders@[i] <= i
            &&& same_block(d@, used@, i, leaders@[i] as int)
            &&& forall|j: int| 0 <= j < leaders@[i] ==> !same_block(d@, used@, i, j)
        },
    ensures
        r == refines(d@, used@, col as int),
{
    let mut i: usize = 1;
    while i < used.len()
        invariant
            1 <= i,
            i <= used.len() || used.len() == 0,
            used.len() <= 65,
            col <= u64::MAX,
            leaders.len() == used.len(),
            positions_valid(d@, used@),
            forall|a: int| 0 <= a < used.len() ==> {
                &&& #[trigger] leaders@[a] <= a
                &&& same_block(d@, used@, a, leaders@[a] as int)
                &&& forall|j: int| 0 <= j < leaders@[a] ==> !same_block(d@, used@, a, j)
            },
            forall|a: int| 0 <= a < i && a < used.len() ==> on_side(col as int, a)
                == on_side(col as int, #[trigger] leaders@[a] as int),
        decreases used.len() - i,
    {
        let l = leaders[i];
        if side(col, i) != side(col, l) {
            proof {
                assert(same_block(d@, used@, i as int, l as int));
            }
            return false;
        }
        i += 1;
    }
    proof {
        assert forall|a: int, b: int|
            0 <= a < used.len() && 0 <= b < used.len() && #[trigger] same_block(d@, used@, a, b)
            implies on_side(col as int, a) == on_side(col as int, b) by {
            lemma_leaders_agree(d@, used@, leaders@, a, b);
            assert(on_side(col as int, leaders@[a] as int) == on_side(col as int, a)) by {
                if a == 0 {
                    assert(leaders@[0] == 0);
                }
            }
            assert(on_side(col as int, leaders@[b] as int) == on_side(col as int, b)) by {
                if b == 0 {
                    assert(leaders@[0] == 0);
                }
            }
        }
    }
    true
}

/// The cut vector of the partition `d` puts on `used`, packed into `words` words.
pub fn cut_words(d: &[u8], used: &[usize], bits: usize, words: usize) -> (r: Vec<u64>)
    requires
        positions_valid(d@, used@),
        used.len() <= 65,
        bits == ground_bits(used@.len()),
        bits <= 64 * words,
        bits <= u64::MAX,
    ensures
        r.len() == words,
        bits_view(r@, bits as nat) == cut_vector(d@, used@),
{
    let leaders = block_leaders(d, used);
    let mut out = zero_words(words);
    let mut col: usize = 0;
    while col < bits
        invariant
            positions_valid(d@, used@),
            used.len() <= 65,
            bits <= 64 * words,
            bits <= u64::MAX,
            col <= bits,
            out.len() == words,
            leaders.len() == used.len(),
            forall|i: int| 0 <= i < used.len() ==> {
                &&& #[trigger] leaders@[i] <= i
                &&& same_block(d@, used@, i, leaders@[i] as int)
                &&& forall|j: int| 0 <= j < leaders@[i] ==> !same_block(d@, used@, i, j)
            },
            bits_view(out@, bits as nat) == Seq::new(bits as nat, |c: int| c < col && refines(d@, used@, c)),
        decreases bits - col,
    {
        if refines_exec(d, used, &leaders, col) {
            proof {
                assert(col / 64 < words) by (nonlinear_arith)
                    requires col < bits, bits <= 64 * words;
            }
            set_bit(&mut out, col);
        }
        proof {
            assert(bits_view(out@, bits as nat) =~= Seq::new(bits as nat, |c: int| c < col + 1 && refines(d@, used@, c)));
        }
        col += 1;
    }
    proof {
        assert(bits_view(out@, bits as nat) =~= cut_vector(d@, used@));
    }
    out
}

/// Clears `v` at every pivot by adding rows; the sum of what was added is
/// `v + result`.
fn reduce_by_rows(
    rows: &Vec<Vec<u64>>,
    pivots: &Vec<usize>,
    bits: usize,
    words: usize,
    v: Vec<u64>,
) -> (r: Vec<u64>)
    requires
        echelon(rows_view(rows@, bits as nat), pivots@, bits as nat),
        forall|i: int| 0 <= i < rows.len() ==> (#[trigger] rows@[i]).len() == words,
        v.len() == words,
        bits <= 64 * words,
    ensures
        r.len() == words,
        forall|j: int| 0 <= j < pivots.len() ==> !bits_view(r@, bits as nat)[#[trigger] pivots@[j] as int],
        in_span(rows_view(rows@, bits as nat), xor_vec(bits_view(r@, bits as nat), bits_view(v@, bits as nat)), bits as nat),
{
    let ghost n = bits as nat;
    let ghost rs = rows_view(rows@, n);
    let ghost v0 = bits_view(v@, n);
    let mut cur = v;
    proof {
        assert(xor_vec(v0, v0) =~= zero_vec(n));
        lemma_span_zero(rs, n);
    }
    let mut bi: usize = 0;
    while bi < pivots.len()
        invariant
            rs == rows_view(rows@, n),
            n == bits as nat,
            v0 == bits_view(v@, n),
            v@.len() == words,
            echelon(rs, pivots@, n),
            forall|i: int| 0 <= i < rows.len() ==> (#[trigger] rows@[i]).len() == words,
            bits <= 64 * words,
            bi <= pivots.len(),
            cur.len() == words,
            forall|j: int| 0 <= j < bi ==> !bits_view(cur@, n)[#[trigger] pivots@[j] as int],
            in_span(rs, xor_vec(bits_view(cur@, n), v0), n),
        decreases pivots.len() - bi,
    {
        let p = pivots[bi];
        proof {
            assert(p / 64 < words) by (nonlinear_arith)
                requires p < bits, bits <= 64 * words;
        }
        if test_bit(&cur, p) {
            let ghost before = bits_view(cur@, n);
            let ghost c0 = cur@;
            xor_into(&mut cur, &rows[bi]);
            let ghost next = cur;
            proof {
                assert(bits_view(c0, n) == before);
                let row = rs[bi as int];
                assert(row == bits_view(rows@[bi as int]@, n));
                assert(bits_view(next@, n) == xor_vec(before, row));
                assert forall|j: int| 0 <= j < bi + 1 implies !bits_view(next@, n)[#[trigger] pivots@[j] as int] by {
                    assert(rs[bi as int][pivots@[j] as int] == (bi == j));
                }
                lemma_span_member(rs, n, bi as int);
                lemma_span_xor(rs, xor_vec(before, v0), row, n);
                assert(xor_vec(xor_vec(before, v0), row) =~= xor_vec(bits_view(next@, n), v0));
            }
        }
        bi += 1;
    }
    cur
}

/// The first column at which `v` has a one.
fn first_set(v: &Vec<u64>, bits: usize) -> (r: Option<usize>)
    requires
        bits <= 64 * v.len(),
    ensures
        r is None ==> bits_view(v@, bits as nat) == zero_vec(bits as nat),
        r matches Some(p) ==> p < bits && bits_view(v@, bits as nat)[p as int],
{
    let mut c: usize = 0;
    while c < bits
        invariant
            bits <= 64 * v.len(),
            c <= bits,
            forall|e: int| 0 <= e < c ==> !(#[trigger] bits_view(v@, bits as nat)[e]),
        decreases bits - c,
    {
        proof {
            assert(c / 64 < v.len()) by (nonlinear_arith)
                requires c < bits, bits <= 64 * v.len();
        }
        if c % 64 == 0 && v[c / 64] == 0 {
            // A zero word: skip its bits at once.
            let next = if bits - c < 64 { bits } else { c + 64 };
            proof {
                assert forall|e: int| 0 <= e < next implies !(#[trigger] bits_view(v@, bits as nat)[e]) by {
                    if e >= c {
                        assert(e / 64 == c / 64) by (nonlinear_arith)
                            requires c % 64 == 0, c <= e, e < c + 64;
                        let k = (e % 64) as u64;
                        assert((0u64 >> k) & 1 != 1) by (bit_vector);
                    }
                }
            }
            c = next;
        } else {
            if test_bit(v, c) {
                return Some(c);
            }
            c += 1;
        }
    }
    proof {
        assert(bits_view(v@, bits as nat) =~= zero_vec(bits as nat));
    }
    None
}

/// Adds `v` to every row with a one at column `p`.
fn absorb(rows: &mut Vec<Vec<u64>>, v: &Vec<u64>, p: usize, bits: usize, words: usize)
    requires
        forall|i: int| 0 <= i < old(rows).len() ==> (#[trigger] old(rows)@[i]).len() == words,
        v.len() == words,
        p < bits,
        bits <= 64 * words,
    ensures
        final(rows).len() == old(rows).len(),
        forall|i: int| 0 <= i < final(rows).len() ==> (#[trigger] final(rows)@[i]).len() == words,
        rows_view(final(rows)@, bits as nat).push(bits_view(v@, bits as nat))
            == absorbed(rows_view(old(rows)@, bits as nat), bits_view(v@, bits as nat), p as int),
{
    let ghost n = bits as nat;
    let ghost old_rs = rows_view(rows@, n);
    let ghost vv = bits_view(v@, n);
    let mut bi: usize = 0;
    proof {
        assert(p / 64 < words) by (nonlinear_arith)
            requires p < bits, bits <= 64 * words;
    }
    while bi < rows.len()
        invariant
            n == bits as nat,
            vv == bits_view(v@, n),
            v.len() == words,
            p < bits,
            p / 64 < words,
            bits <= 64 * words,
            rows.len() == old_rs.len(),
            bi <= rows.len(),
            forall|i: int| 0 <= i < rows.len() ==> (#[trigger] rows@[i]).len() == words,
            forall|i: int| 0 <= i < rows.len() ==> #[trigger] bits_view(rows@[i]@, n)
                == if i < bi && old_rs[i][p as int] { xor_vec(old_rs[i], vv) } else { old_rs[i] },
        decreases rows.len() - bi,
    {
        if test_bit(&rows[bi], p) {
            let nr = xor_words(&rows[bi], v);
            rows.set(bi, nr);
        }
        proof {
            assert(bits_view(rows@[bi as int]@, n) == if old_rs[bi as int][p as int] { xor_vec(old_rs[bi as int], vv) } else { old_rs[bi as int] });
        }
        bi += 1;
    }
    proof {
        assert(rows_view(rows@, n).push(vv) =~= absorbed(old_rs, vv, p as int));
    }
}

/// A ground set whose cut space fits in `usize` columns has at most 65 elements.
proof fn lemma_ground_small(s: nat)
    requires
        ground_bits(s) <= usize::MAX,
    ensures
        s <= 65,
{
    if s > 65 {
        vstd::arithmetic::power2::lemma2_to64();
        lemma_pow2_strictly_increases(64, (s - 1) as nat);
    }
}

/// `ground_bits(s)`, computed.
fn columns_for(s: usize) -> (bits: usize)
    requires
        s <= usize::BITS,
    ensures
        bits == ground_bits(s as nat),
        bits >= 1,
{
    if s <= 1 {
        1
    } else {
        let e = s - 1;
        proof {
            lemma_usize_pow2_no_overflow(e as nat);
            lemma_usize_shl_is_mul(1, e);
        }
        1usize << e
    }
}

/// Words needed for `bits` columns.
fn words_for(bits: usize) -> (words: usize)
    ensures
        bits <= 64 * words,
        words == bits / 64 + (if bits % 64 == 0 { 0int } else { 1int }),
{
    if bits % 64 == 0 {
        bits / 64
    } else {
        bits / 64 + 1
    }
}

/// An incremental row-reduced basis of the cut space of an `s`-element ground
/// set, over a packed bag.
///
/// The reduction is a matroid greedy: candidates are offered in nondecreasing
/// weight and a candidate is kept exactly when its cut vector is independent
/// of the ones already kept. The view is the sequence of kept cut vectors.
pub struct Basis {
    bits: usize,
    words: usize,
    rows: Vec<Vec<u64>>,
    pivots: Vec<usize>,
    kept: Ghost<Seq<Seq<bool>>>,
}

impl View for Basis {
    type V = Seq<Seq<bool>>;

    closed spec fn view(&self) -> Seq<Seq<bool>> {
        self.kept@
    }
}

impl Basis {
    pub closed spec fn wf(&self) -> bool {
        &&& basis_inv(self.bits as nat, self.words as nat, self.rows@, self.pivots@, self.kept@)
        &&& self.words <= MAX_WORDS
    }

    /// Columns of the cut space.
    pub closed spec fn columns(&self) -> nat {
        self.bits as nat
    }

    /// The empty basis of the cut space of an `s`-element ground set.
    pub fn new(s: usize) -> (b: Basis)
        requires
            s <= MAX_BAG,
        ensures
            b.wf(),
            b@ == Seq::<Seq<bool>>::empty(),
            b.columns() == ground_bits(s as nat),
    {
        // `s <= 1` admits exactly one partition, so the cut space has one column.
        let bits = columns_for(s);
        proof {
            vstd::arithmetic::power2::lemma2_to64();
            if s >= 2 {
                if s < 15 {
                    lemma_pow2_strictly_increases((s - 1) as nat, 14);
                }
            }
        }
        let w = words_for(bits);
        let words = if w < MAX_WORDS { w } else { MAX_WORDS };
        let b = Basis { bits, words, rows: Vec::new(), pivots: Vec::new(), kept: Ghost(Seq::empty()) };
        proof {
            assert(rows_view(b.rows@, bits as nat) =~= Seq::<Seq<bool>>::empty());
        }
        b
    }

    /// Whether the basis spans the whole cut space, so that every further
    /// candidate is dependent whatever it is.
    pub fn is_full(&self) -> (r: bool)
        requires
            self.wf(),
        ensures
            r == (self@.len() >= self.columns()),
    {
        self.rows.len() >= self.bits
    }

    /// Offer a partition. Returns `true`, and keeps it, exactly when its cut
    /// vector is outside the span of the kept ones.
    pub fn offer(&mut self, d: &[u8; MAX_BAG], used: &[usize]) -> (r: bool)
        requires
            old(self).wf(),
            positions_valid(d@, used@),
            ground_bits(used@.len()) == old(self).columns(),
        ensures
            final(self).wf(),
            final(self).columns() == old(self).columns(),
            r == !in_span(old(self)@, cut_vector(d@, used@), old(self).columns()),
            final(self)@ == (if r { old(self)@.push(cut_vector(d@, used@)) } else { old(self)@ }),
    {
        let ds = d.as_slice();
        proof {
            lemma_ground_small(used@.len());
        }
        let ghost n = self.bits as nat;
        let ghost cut = cut_vector(d@, used@);
        let ghost rs = rows_view(self.rows@, n);
        if used.len() <= 1 {
            // One partition exists; the first offer is it.
            if self.rows.len() == 0 {
                let mut row = zero_words(self.words);
                set_bit(&mut row, 0);
                proof {
                    assert(cut =~= seq![true]);
                    assert(bits_view(row@, n) =~= seq![true]);
                    lemma_span_zero(rs, n);
                    assert(xor_vec(bits_view(row@, n), cut) =~= zero_vec(n));
                    lemma_accept(rs, self.pivots@, self.kept@, n, cut, bits_view(row@, n), 0);
                    assert(rows_view(self.rows@.push(row), n) =~= absorbed(rs, bits_view(row@, n), 0));
                }
                self.rows.push(row);
                self.pivots.push(0);
                self.kept = Ghost(self.kept@.push(cut));
                return true;
            }
            proof {
                assert(cut =~= seq![true]);
                lemma_full_rows_span(rs, self.pivots@, n, cut);
                lemma_span_mono(rs, self.kept@, n, cut);
            }
            return false;
        }
        let v = cut_words(ds, used, self.bits, self.words);
        let red = reduce_by_rows(&self.rows, &self.pivots, self.bits, self.words, v);
        match first_set(&red, self.bits) {
            None => {
                proof {
                    lemma_reject(rs, self.kept@, n, cut, bits_view(red@, n));
                }
                false
            },
            Some(p) => {
                proof {
                    lemma_accept(rs, self.pivots@, self.kept@, n, cut, bits_view(red@, n), p);
                }
                absorb(&mut self.rows, &red, p, self.bits, self.words);
                proof {
                    assert(rows_view(self.rows@.push(red), n) =~= rows_view(self.rows@, n).push(bits_view(red@, n)));
                }
                self.rows.push(red);
                self.pivots.push(p);
                self.kept = Ghost(self.kept@.push(cut));
                true
            },
        }
    }
}

/// A basis never holds more vectors than its space has columns.
pub proof fn lemma_basis_rank(b: &Basis)
    requires
        b.wf(),
    ensures
        b@.len() <= b.columns(),
{
    lemma_pivot_count(rows_view(b.rows@, b.bits as nat), b.pivots@, b.bits as nat);
}

/// A full basis spans its whole cut space: every further offer is refused.
pub proof fn lemma_full_basis_spans(b: &Basis, v: Seq<bool>)
    requires
        b.wf(),
        b@.len() >= b.columns(),
        v.len() == b.columns(),
    ensures
        in_span(b@, v, b.columns()),
{
    let n = b.bits as nat;
    let rs = rows_view(b.rows@, n);
    lemma_full_rows_span(rs, b.pivots@, n, v);
    lemma_span_mono(rs, b.kept@, n, v);
}

/// The greedy selection over candidates taken in order: the labels and the
/// cut vectors of those kept, each kept exactly when its cut vector is outside
/// the span of the ones kept before it.
pub open spec fn greedy(cuts: Seq<Seq<bool>>, labels: Seq<usize>, n: nat) -> (Seq<usize>, Seq<Seq<bool>>)
    decreases cuts.len(),
{
    if cuts.len() == 0 {
        (Seq::empty(), Seq::empty())
    } else {
        let prev = greedy(cuts.drop_last(), labels, n);
        if in_span(prev.1, cuts.last(), n) {
            prev
        } else {
            (prev.0.push(labels[cuts.len() - 1]), prev.1.push(cuts.last()))
        }
    }
}

/// The cut vectors of the candidates, in the order they are offered.
pub open spec fn order_cuts(decoded: Seq<[u8; MAX_BAG]>, used: Seq<usize>, order: Seq<usize>) -> Seq<Seq<bool>> {
    Seq::new(order.len(), |k: int| cut_vector(decoded[order[k] as int]@, used))
}

/// Once the kept vectors span every vector of length `n`, the greedy keeps
/// nothing more.
proof fn lemma_greedy_saturated(cuts: Seq<Seq<bool>>, labels: Seq<usize>, n: nat, k: int, m: int)
    requires
        0 <= k <= m <= cuts.len(),
        all_len(cuts, n),
        forall|v: Seq<bool>| v.len() == n ==> #[trigger] in_span(greedy(cuts.take(k), labels, n).1, v, n),
    ensures
        greedy(cuts.take(m), labels, n) == greedy(cuts.take(k), labels, n),
    decreases m - k,
{
    if m > k {
        lemma_greedy_saturated(cuts, labels, n, k, m - 1);
        assert(cuts.take(m).drop_last() =~= cuts.take(m - 1));
        assert(cuts.take(m).last() == cuts[m - 1]);
        assert(in_span(greedy(cuts.take(k), labels, n).1, cuts[m - 1], n));
    }
}

/// Keep a minimum-weight representative subset of the candidates.
///
/// `order` lists candidate indices by nondecreasing cost; the result lists,
/// in that order, the indices to keep.
pub fn reduce(decoded: &[[u8; MAX_BAG]], used: &[usize], order: &[usize]) -> (r: Vec<usize>)
    requires
        used.len() <= MAX_BAG,
        forall|i: int| 0 <= i < used.len() ==> (#[trigger] used@[i]) < MAX_BAG,
        forall|k: int| 0 <= k < order.len() ==> (#[trigger] order@[k]) < decoded.len(),
    ensures
        used.len() <= 1 ==> r@ == order@,
        used.len() >= 2 ==> r@ == greedy(order_cuts(decoded@, used@, order@), order@, ground_bits(used.len() as nat)).0,
        forall|t: int| 0 <= t < r@.len() ==> order@.contains(#[trigger] r@[t]),
{
    if used.len() <= 1 {
        // A single element admits one partition, so nothing can be dropped
        // and no work is needed.
        let all = vstd::slice::slice_to_vec(order);
        proof {
            assert forall|t: int| 0 <= t < all@.len() implies order@.contains(#[trigger] all@[t]) by {
                assert(all@[t] == order@[t]);
            }
        }
        return all;
    }
    let ghost n = ground_bits(used.len() as nat);
    let ghost cuts = order_cuts(decoded@, used@, order@);
    let mut basis = Basis::new(used.len());
    let mut keep: Vec<usize> = Vec::new();
    let mut k: usize = 0;
    proof {
        assert(cuts.take(0) =~= Seq::<Seq<bool>>::empty());
        assert(all_len(cuts, n));
        assert(cuts.take(order.len() as int) =~= cuts);
    }
    while k < order.len()
        invariant
            n == ground_bits(used.len() as nat),
            cuts == order_cuts(decoded@, used@, order@),
            all_len(cuts, n),
            used.len() <= MAX_BAG,
            forall|i: int| 0 <= i < used.len() ==> (#[trigger] used@[i]) < MAX_BAG,
            forall|j: int| 0 <= j < order.len() ==> (#[trigger] order@[j]) < decoded.len(),
            k <= order.len(),
            basis.wf(),
            basis.columns() == n,
            keep@ == greedy(cuts.take(k as int), order@, n).0,
            basis@ == greedy(cuts.take(k as int), order@, n).1,
            k == order.len() ==> cuts.take(k as int) == cuts,
        ensures
            keep@ == greedy(cuts, order@, n).0,
        decreases order.len() - k,
    {
        if basis.is_full() {
            proof {
                assert forall|v: Seq<bool>| v.len() == n implies #[trigger] in_span(
                    greedy(cuts.take(k as int), order@, n).1,
                    v,
                    n,
                ) by {
                    lemma_full_basis_spans(&basis, v);
                }
                lemma_greedy_saturated(cuts, order@, n, k as int, order.len() as int);
                assert(cuts.take(order.len() as int) =~= cuts);
            }
            break;
        }
        let i = order[k];
        let d = &decoded[i];
        proof {
            assert(positions_valid(d@, used@));
        }
        let took = basis.offer(d, used);
        if took {
            keep.push(i);
        }
        proof {
            assert(cuts.take(k + 1).drop_last() =~= cuts.take(k as int));
            assert(cuts.take(k + 1).last() == cuts[k as int]);
        }
        k += 1;
        proof {
            assert(cuts.take(order.len() as int) =~= cuts);
        }
    }
    proof {
        lemma_greedy_origin(cuts, order@, n, order.len() as int);
        assert(cuts.take(order.len() as int) =~= cuts);
        assert forall|t: int| 0 <= t < keep@.len() implies order@.contains(#[trigger] keep@[t]) by {
            let pos = choose|pos: int| 0 <= pos < order.len() && #[trigger] greedy(cuts, order@, n).0[t] == order@[pos]
                && greedy(cuts, order@, n).1[t] == cuts[pos];
            assert(order@[pos] == keep@[t]);
        }
    }
    keep
}

/// The basis of [`Basis`] over ground sets of any size, with its row storage
/// bounded by a byte budget.
///
/// Exhausting the budget is not an error: [`DynBasis::offer`] then answers
/// `None`, and a caller that keeps every remaining candidate holds a superset
/// of a representative set.
pub struct DynBasis {
    bits: usize,
    words: usize,
    rows: Vec<Vec<u64>>,
    pivots: Vec<usize>,
    budget_bytes: u64,
    kept: Ghost<Seq<Seq<bool>>>,
}

impl View for DynBasis {
    type V = Seq<Seq<bool>>;

    closed spec fn view(&self) -> Seq<Seq<bool>> {
        self.kept@
    }
}

impl DynBasis {
    pub closed spec fn wf(&self) -> bool {
        &&& basis_inv(self.bits as nat, self.words as nat, self.rows@, self.pivots@, self.kept@)
        &&& self.words == self.bits / 64 + (if self.bits % 64 == 0 { 0int } else { 1int })
        &&& self.rows@.len() * (self.words * 8) <= self.budget_bytes
    }

    /// Columns of the cut space.
    pub closed spec fn columns(&self) -> nat {
        self.bits as nat
    }

    /// Bytes one row occupies.
    pub closed spec fn row_bytes(&self) -> nat {
        (self.words * 8) as nat
    }

    /// The byte budget for the rows.
    pub closed spec fn budget(&self) -> nat {
        self.budget_bytes as nat
    }

    /// The empty basis of the cut space of an `s`-element ground set.
    pub fn new(s: usize, budget_bytes: u64) -> (b: DynBasis)
        requires
            s <= usize::BITS,
        ensures
            b.wf(),
            b@ == Seq::<Seq<bool>>::empty(),
            b.columns() == ground_bits(s as nat),
            b.row_bytes() == 8 * (b.columns() / 64 + (if b.columns() % 64 == 0 { 0int } else { 1int })),
            b.budget() == budget_bytes,
    {
        let bits = columns_for(s);
        let words = words_for(bits);
        let b = DynBasis { bits, words, rows: Vec::new(), pivots: Vec::new(), budget_bytes, kept: Ghost(Seq::empty()) };
        proof {
            assert(rows_view(b.rows@, bits as nat) =~= Seq::<Seq<bool>>::empty());
        }
        b
    }

    /// Whether the basis spans the whole cut space.
    pub fn is_full(&self) -> (r: bool)
        requires
            self.wf(),
        ensures
            r == (self@.len() >= self.columns()),
    {
        self.rows.len() >= self.bits
    }

    /// Bytes the kept rows occupy.
    pub fn bytes(&self) -> (r: u64)
        requires
            self.wf(),
        ensures
            r == self@.len() * self.row_bytes(),
    {
        let k = self.rows.len() as u64;
        let w = self.words as u64;
        proof {
            assert(k * w * 8 <= u64::MAX && k * w <= u64::MAX && k * w * 8 == k * (w * 8)) by (nonlinear_arith)
                requires
                    k * (w * 8) <= self.budget_bytes || k * (w * 8) <= 8,
                    self.budget_bytes <= u64::MAX,
                    k >= 0,
                    w >= 0;
        }
        k * w * 8
    }

    /// Whether one more row would take the rows past the budget.
    fn would_exceed(&self) -> (r: bool)
        ensures
            r == ((self.rows@.len() + 1) * (self.words * 8) > self.budget_bytes),
    {
        let k = self.rows.len() as u64;
        let w = self.words as u64;
        match k.checked_add(1) {
            None => {
                proof {
                    assert((w == 0 && (k + 1) * (w * 8) == 0) || (w != 0 && (k + 1) * (w * 8) > self.budget_bytes))
                        by (nonlinear_arith)
                        requires k + 1 > u64::MAX, w >= 0, self.budget_bytes <= u64::MAX;
                }
                w != 0
            },
            Some(k1) => match k1.checked_mul(w) {
                None => {
                    proof {
                        assert(k1 * (w * 8) > self.budget_bytes) by (nonlinear_arith)
                            requires k1 * w > u64::MAX, self.budget_bytes <= u64::MAX, k1 >= 0, w >= 0;
                    }
                    true
                },
                Some(kw) => match kw.checked_mul(8) {
                    None => {
                        proof {
                            assert(k1 * (w * 8) == kw * 8) by (nonlinear_arith)
                                requires kw == k1 * w;
                        }
                        true
                    },
                    Some(b) => {
                        proof {
                            assert(k1 * (w * 8) == kw * 8) by (nonlinear_arith)
                                requires kw == k1 * w;
                        }
                        b > self.budget_bytes
                    },
                },
            },
        }
    }

    /// Offer a partition: `Some(true)` to keep it, `Some(false)` when its cut
    /// vector is in the span of the kept ones, `None` when it is independent
    /// but another row would exceed the budget (the basis is then unchanged
    /// and the caller must keep every candidate after).
    pub fn offer(&mut self, d: &[u8], used: &[usize]) -> (r: Option<bool>)
        requires
            old(self).wf(),
            positions_valid(d@, used@),
            ground_bits(used@.len()) == old(self).columns(),
        ensures
            final(self).wf(),
            final(self).columns() == old(self).columns(),
            final(self).row_bytes() == old(self).row_bytes(),
            final(self).budget() == old(self).budget(),
            r == (if in_span(old(self)@, cut_vector(d@, used@), old(self).columns()) {
                Some(false)
            } else if (old(self)@.len() + 1) * old(self).row_bytes() > old(self).budget() {
                None
            } else {
                Some(true)
            }),
            final(self)@ == (if r == Some(true) { old(self)@.push(cut_vector(d@, used@)) } else { old(self)@ }),
    {
        proof {
            lemma_ground_small(used@.len());
        }
        let ghost n = self.bits as nat;
        let ghost cut = cut_vector(d@, used@);
        let ghost rs = rows_view(self.rows@, n);
        if used.len() <= 1 {
            // One partition exists; the first offer is it.
            if self.rows.len() == 0 {
                let mut row = zero_words(self.words);
                set_bit(&mut row, 0);
                proof {
                    assert(cut =~= seq![true]);
                    assert(bits_view(row@, n) =~= seq![true]);
                    lemma_span_zero(rs, n);
                    assert(xor_vec(bits_view(row@, n), cut) =~= zero_vec(n));
                    lemma_accept(rs, self.pivots@, self.kept@, n, cut, bits_view(row@, n), 0);
                    assert(rows_view(self.rows@.push(row), n) =~= absorbed(rs, bits_view(row@, n), 0));
                }
                if self.would_exceed() {
                    return None;
                }
                self.rows.push(row);
                self.pivots.push(0);
                self.kept = Ghost(self.kept@.push(cut));
                return Some(true);
            }
            proof {
                assert(cut =~= seq![true]);
                lemma_full_rows_span(rs, self.pivots@, n, cut);
                lemma_span_mono(rs, self.kept@, n, cut);
            }
            return Some(false);
        }
        let v = cut_words(d, used, self.bits, self.words);
        let red = reduce_by_rows(&self.rows, &self.pivots, self.bits, self.words, v);
        match first_set(&red, self.bits) {
            None => {
                proof {
                    lemma_reject(rs, self.kept@, n, cut, bits_view(red@, n));
                }
                Some(false)
            },
            Some(p) => {
                proof {
                    lemma_accept(rs, self.pivots@, self.kept@, n, cut, bits_view(red@, n), p);
                }
                if self.would_exceed() {
                    return None;
                }
                absorb(&mut self.rows, &red, p, self.bits, self.words);
                proof {
                    assert(rows_view(self.rows@.push(red), n) =~= rows_view(self.rows@, n).push(bits_view(red@, n)));
                }
                self.rows.push(red);
                self.pivots.push(p);
                self.kept = Ghost(self.kept@.push(cut));
                Some(true)
            },
        }
    }
}

/// Index `a` comes before index `b` when it is cheaper, or as cheap and smaller.
pub open spec fn cost_before(costs: Seq<u64>, a: usize, b: usize) -> bool {
    costs[a as int] < costs[b as int] || (costs[a as int] == costs[b as int] && a < b)
}

/// `order` lists every index of `costs` once, cheapest first, ties by index.
pub open spec fn cost_sorted(costs: Seq<u64>, order: Seq<usize>) -> bool {
    &&& order.len() == costs.len()
    &&& forall|k: int| 0 <= k < order.len() ==> (#[trigger] order[k] as int) < costs.len()
    &&& forall|a: int, b: int| 0 <= a < b < order.len() ==> cost_before(costs, #[trigger] order[a], #[trigger] order[b])
}

/// The order that lists the indices cheapest first, ties by index.
pub open spec fn by_cost_order(costs: Seq<u64>) -> Seq<usize> {
    choose|o: Seq<usize>| cost_sorted(costs, o)
}

pub(crate) proof fn lemma_cost_sorted_contains(costs: Seq<u64>, o: Seq<usize>, x: usize)
    requires
        cost_sorted(costs, o),
        (x as int) < costs.len(),
        costs.len() <= usize::MAX,
    ensures
        o.contains(x),
{
    // The entries are distinct and below `len`, so they are all of `0..len`.
    let ps = o.to_set();
    assert(o.no_duplicates()) by {
        assert forall|a: int, b: int| 0 <= a < o.len() && 0 <= b < o.len() && a != b implies o[a] != o[b] by {
            if a < b {
                assert(cost_before(costs, o[a], o[b]));
            } else {
                assert(cost_before(costs, o[b], o[a]));
            }
        }
    }
    o.unique_seq_to_set();
    if !o.contains(x) {
        let range = Set::new(|c: usize| (c as int) < costs.len()).remove(x);
        assert(ps.subset_of(range));
        lemma_usize_range_len(costs.len());
        vstd::set_lib::lemma_len_subset(ps, range);
    }
}

/// Two cheapest-first orders of the same costs are the same order.
proof fn lemma_cost_sorted_unique(costs: Seq<u64>, o1: Seq<usize>, o2: Seq<usize>)
    requires
        cost_sorted(costs, o1),
        cost_sorted(costs, o2),
        costs.len() <= usize::MAX,
    ensures
        o1 == o2,
{
    assert forall|k: int| 0 <= k < o1.len() implies o1[k] == o2[k] by {
        lemma_position_of(costs, o1, o2, k);
    }
    assert(o1 =~= o2);
}

/// The position of an index in a cheapest-first order is the number of
/// indices before it, which both orders agree on.
proof fn lemma_position_of(costs: Seq<u64>, o1: Seq<usize>, o2: Seq<usize>, k: int)
    requires
        cost_sorted(costs, o1),
        cost_sorted(costs, o2),
        costs.len() <= usize::MAX,
        0 <= k < o1.len(),
    ensures
        o1[k] == o2[k],
    decreases k,
{
    if k > 0 {
        lemma_position_of(costs, o1, o2, k - 1);
    }
    if o1[k] != o2[k] {
        lemma_cost_sorted_contains(costs, o2, o1[k]);
        lemma_cost_sorted_contains(costs, o1, o2[k]);
        let j = choose|j: int| 0 <= j < o2.len() && o2[j] == o1[k];
        let i = choose|i: int| 0 <= i < o1.len() && o1[i] == o2[k];
        // Earlier positions agree, so neither index sits before `k` in the other order.
        if j < k {
            lemma_position_of(costs, o1, o2, j);
            assert(o1[j] == o2[j]);
            assert(cost_before(costs, o1[j], o1[k]));
        }
        if i < k {
            lemma_position_of(costs, o1, o2, i);
            assert(cost_before(costs, o2[i], o2[k]));
        }
        assert(j > k && i > k);
        assert(cost_before(costs, o2[k], o2[j]));
        assert(cost_before(costs, o1[k], o1[i]));
    }
}

/// `s` lists indices in `lo..hi`, in strictly increasing (cost, index) order.
pub open spec fn run_sorted(costs: Seq<u64>, s: Seq<usize>, lo: int, hi: int) -> bool {
    &&& forall|k: int| 0 <= k < s.len() ==> lo <= #[trigger] s[k] < hi
    &&& forall|a: int, b: int| 0 <= a < b < s.len() ==> cost_before(costs, #[trigger] s[a], #[trigger] s[b])
}

/// The merge of two sorted runs over adjacent index ranges.
fn merge_runs(costs: &[u64], x: Vec<usize>, y: Vec<usize>, Ghost(lo): Ghost<int>, Ghost(mid): Ghost<int>, Ghost(hi): Ghost<int>) -> (r: Vec<usize>)
    requires
        0 <= lo <= mid <= hi <= costs.len(),
        run_sorted(costs@, x@, lo, mid),
        run_sorted(costs@, y@, mid, hi),
    ensures
        run_sorted(costs@, r@, lo, hi),
        r@.len() == x@.len() + y@.len(),
{
    let mut out: Vec<usize> = Vec::new();
    let mut i: usize = 0;
    let mut j: usize = 0;
    while i < x.len() || j < y.len()
        invariant
            0 <= lo <= mid <= hi <= costs.len(),
            run_sorted(costs@, x@, lo, mid),
            run_sorted(costs@, y@, mid, hi),
            i <= x@.len(),
            j <= y@.len(),
            out@.len() == i + j,
            run_sorted(costs@, out@, lo, hi),
            forall|k: int, p: int| 0 <= k < out@.len() && i <= p < x@.len() ==> cost_before(costs@, #[trigger] out@[k], #[trigger] x@[p]),
            forall|k: int, q: int| 0 <= k < out@.len() && j <= q < y@.len() ==> cost_before(costs@, #[trigger] out@[k], #[trigger] y@[q]),
        decreases x@.len() + y@.len() - i - j,
    {
        let take_x = if j >= y.len() {
            true
        } else if i >= x.len() {
            false
        } else {
            let a = x[i];
            let b = y[j];
            costs[a] < costs[b] || (costs[a] == costs[b] && a < b)
        };
        let ghost o0 = out@;
        if take_x {
            let e = x[i];
            proof {
                assert forall|q: int| j <= q < y@.len() implies cost_before(costs@, e, #[trigger] y@[q]) by {
                    assert(cost_before(costs@, x@[i as int], y@[j as int]));
                    if q > j {
                        assert(cost_before(costs@, y@[j as int], y@[q]));
                    }
                }
            }
            out.push(e);
            i += 1;
        } else {
            let e = y[j];
            proof {
                if i < x@.len() {
                    assert(x@[i as int] != y@[j as int]);
                    assert(cost_before(costs@, y@[j as int], x@[i as int]));
                }
                assert forall|p: int| i <= p < x@.len() implies cost_before(costs@, e, #[trigger] x@[p]) by {
                    if p > i {
                        assert(cost_before(costs@, x@[i as int], x@[p]));
                    }
                }
            }
            out.push(e);
            j += 1;
        }
        proof {
            assert forall|a: int, b: int| 0 <= a < b < out@.len() implies cost_before(costs@, #[trigger] out@[a], #[trigger] out@[b]) by {
                if b == out@.len() - 1 {
                    assert(out@[a] == o0[a]);
                } else {
                    assert(out@[a] == o0[a] && out@[b] == o0[b]);
                }
            }
            assert forall|k: int, p: int| 0 <= k < out@.len() && i <= p < x@.len() implies cost_before(costs@, #[trigger] out@[k], #[trigger] x@[p]) by {
                if k < o0.len() {
                    assert(out@[k] == o0[k]);
                }
            }
            assert forall|k: int, q: int| 0 <= k < out@.len() && j <= q < y@.len() implies cost_before(costs@, #[trigger] out@[k], #[trigger] y@[q]) by {
                if k < o0.len() {
                    assert(out@[k] == o0[k]);
                }
            }
        }
    }
    out
}

/// The indices `lo..hi`, cheapest first, ties by index.
fn sort_range(costs: &[u64], lo: usize, hi: usize) -> (r: Vec<usize>)
    requires
        lo <= hi <= costs.len(),
    ensures
        run_sorted(costs@, r@, lo as int, hi as int),
        r@.len() == hi - lo,
    decreases hi - lo,
{
    if hi - lo == 0 {
        return Vec::new();
    }
    if hi - lo == 1 {
        let mut r: Vec<usize> = Vec::new();
        r.push(lo);
        return r;
    }
    let mid = lo + (hi - lo) / 2;
    let x = sort_range(costs, lo, mid);
    let y = sort_range(costs, mid, hi);
    merge_runs(costs, x, y, Ghost(lo as int), Ghost(mid as int), Ghost(hi as int))
}

/// Indices listed cheapest first, ties by index.
pub fn by_cost(costs: &[u64]) -> (order: Vec<usize>)
    ensures
        cost_sorted(costs@, order@),
        order@ == by_cost_order(costs@),
{
    let order = sort_range(costs, 0, costs.len());
    proof {
        assert(cost_sorted(costs@, order@));
        lemma_cost_sorted_unique(costs@, order@, by_cost_order(costs@));
    }
    order
}

/// The budgeted greedy over candidates taken in order: the positions kept,
/// whether the budget ran out, and the kept cut vectors. Once the budget runs
/// out every later candidate is kept.
pub open spec fn class_scan(
    cuts: Seq<Seq<bool>>,
    n: nat,
    row_bytes: nat,
    budget: nat,
) -> (Seq<int>, bool, Seq<Seq<bool>>)
    decreases cuts.len(),
{
    if cuts.len() == 0 {
        (Seq::empty(), false, Seq::empty())
    } else {
        let prev = class_scan(cuts.drop_last(), n, row_bytes, budget);
        let i = cuts.len() - 1;
        if prev.1 {
            (prev.0.push(i), true, prev.2)
        } else if in_span(prev.2, cuts.last(), n) {
            prev
        } else if (prev.2.len() + 1) * row_bytes > budget {
            (prev.0.push(i), true, prev.2)
        } else {
            (prev.0.push(i), false, prev.2.push(cuts.last()))
        }
    }
}

/// The cut vectors of a class's entries, cheapest first.
pub open spec fn class_cuts(entries: Seq<(Vec<u8>, u64)>, used: Seq<usize>) -> Seq<Seq<bool>> {
    let order = by_cost_order(Seq::new(entries.len(), |k: int| entries[k].1));
    Seq::new(order.len(), |k: int| cut_vector(entries[order[k] as int].0@, used))
}

proof fn lemma_class_scan_saturated(
    cuts: Seq<Seq<bool>>,
    n: nat,
    rb: nat,
    budget: nat,
    k: int,
    m: int,
)
    requires
        0 <= k <= m <= cuts.len(),
        all_len(cuts, n),
        !class_scan(cuts.take(k), n, rb, budget).1,
        forall|v: Seq<bool>| v.len() == n ==> #[trigger] in_span(class_scan(cuts.take(k), n, rb, budget).2, v, n),
    ensures
        class_scan(cuts.take(m), n, rb, budget) == class_scan(cuts.take(k), n, rb, budget),
    decreases m - k,
{
    if m > k {
        lemma_class_scan_saturated(cuts, n, rb, budget, k, m - 1);
        assert(cuts.take(m).drop_last() =~= cuts.take(m - 1));
        assert(cuts.take(m).last() == cuts[m - 1]);
        assert(in_span(class_scan(cuts.take(k), n, rb, budget).2, cuts[m - 1], n));
    }
}

/// Reduce one class of entries over the ground set `used`, cheapest first,
/// with the basis rows bounded by `budget` bytes. Returns the kept entries,
/// the bytes the basis held, and whether the budget ran out (after which every
/// remaining entry was kept).
pub fn reduce_class(entries: Vec<(Vec<u8>, u64)>, used: &[usize], budget: u64) -> (r: (Vec<(Vec<u8>, u64)>, u64, bool))
    requires
        used.len() <= usize::BITS,
        forall|e: int| 0 <= e < entries.len() ==> positions_valid((#[trigger] entries@[e]).0@, used@),
    ensures
        ({
            let order = by_cost_order(Seq::new(entries.len() as nat, |k: int| entries@[k].1));
            let n = ground_bits(used.len() as nat);
            let rb = 8 * (n / 64 + (if n % 64 == 0 { 0int } else { 1int }));
            let scan = class_scan(class_cuts(entries@, used@), n, rb as nat, budget as nat);
            &&& r.0.len() == scan.0.len()
            &&& forall|t: int| 0 <= t < r.0.len() ==> {
                &&& (#[trigger] r.0@[t]).0@ == entries@[order[scan.0[t]] as int].0@
                &&& r.0@[t].1 == entries@[order[scan.0[t]] as int].1
            }
            &&& r.1 == scan.2.len() * rb
            &&& r.2 == scan.1
        }),
{
    let mut costs: Vec<u64> = Vec::new();
    let mut e: usize = 0;
    while e < entries.len()
        invariant
            e <= entries.len(),
            costs.len() == e,
            forall|k: int| 0 <= k < e ==> costs@[k] == entries@[k].1,
        decreases entries.len() - e,
    {
        costs.push(entries[e].1);
        e += 1;
    }
    proof {
        assert(costs@ =~= Seq::new(entries.len() as nat, |k: int| entries@[k].1));
    }
    let order = by_cost(costs.as_slice());
    let ghost n = ground_bits(used.len() as nat);
    let ghost cuts = class_cuts(entries@, used@);
    let mut basis = DynBasis::new(used.len(), budget);
    let ghost rb = basis.row_bytes();
    let mut out: Vec<(Vec<u8>, u64)> = Vec::new();
    let mut refused = false;
    let ghost mut pos: Seq<int> = Seq::empty();
    let mut k: usize = 0;
    proof {
        assert(cuts.take(0) =~= Seq::<Seq<bool>>::empty());
        assert(cuts.take(order.len() as int) =~= cuts);
    }
    while k < order.len()
        invariant
            n == ground_bits(used.len() as nat),
            cuts == class_cuts(entries@, used@),
            order@ == by_cost_order(Seq::new(entries.len() as nat, |j: int| entries@[j].1)),
            cost_sorted(costs@, order@),
            costs.len() == entries.len(),
            forall|j: int| 0 <= j < entries.len() ==> positions_valid((#[trigger] entries@[j]).0@, used@),
            k <= order.len(),
            basis.wf(),
            basis.columns() == n,
            basis.row_bytes() == rb,
            basis.budget() == budget,
            rb == 8 * (n / 64 + (if n % 64 == 0 { 0int } else { 1int })),
            class_scan(cuts.take(k as int), n, rb, budget as nat) == (pos, refused, basis@),
            out.len() == pos.len(),
            forall|t: int| 0 <= t < out.len() ==> 0 <= #[trigger] pos[t] < k,
            forall|t: int| 0 <= t < out.len() ==> {
                &&& (#[trigger] out@[t]).0@ == entries@[order@[pos[t]] as int].0@
                &&& out@[t].1 == entries@[order@[pos[t]] as int].1
            },
            k == order.len() ==> cuts.take(k as int) == cuts,
        ensures
            class_scan(cuts, n, rb, budget as nat) == (pos, refused, basis@),
            out.len() == pos.len(),
            forall|t: int| 0 <= t < out.len() ==> {
                &&& (#[trigger] out@[t]).0@ == entries@[order@[pos[t]] as int].0@
                &&& out@[t].1 == entries@[order@[pos[t]] as int].1
            },
            basis.wf(),
            basis.row_bytes() == rb,
        decreases order.len() - k,
    {
        // A full basis spans the cut space, so every later candidate is a
        // combination of kept ones of no greater cost. A refused basis proves
        // nothing about what follows, so everything after it is kept.
        if !refused && basis.is_full() {
            proof {
                assert forall|v: Seq<bool>| v.len() == n implies #[trigger] in_span(basis@, v, n) by {
                    lemma_dyn_full_spans(&basis, v);
                }
                lemma_class_scan_saturated(cuts, n, rb, budget as nat, k as int, order.len() as int);
                assert(cuts.take(order.len() as int) =~= cuts);
            }
            break;
        }
        let i = order[k];
        proof {
            assert(cuts.take(k + 1).drop_last() =~= cuts.take(k as int));
            assert(cuts.take(k + 1).last() == cuts[k as int]);
            assert(cuts[k as int] == cut_vector(entries@[i as int].0@, used@));
            assert(positions_valid(entries@[i as int].0@, used@));
        }
        if refused {
            out.push((entries[i].0.clone(), entries[i].1));
            proof {
                pos = pos.push(k as int);
                assert(out@[out.len() - 1].0@ =~= entries@[order@[k as int] as int].0@);
            }
        } else {
            let sig = entries[i].0.as_slice();
            match basis.offer(sig, used) {
                Some(true) => {
                    out.push((entries[i].0.clone(), entries[i].1));
                    proof {
                        pos = pos.push(k as int);
                        assert(out@[out.len() - 1].0@ =~= entries@[order@[k as int] as int].0@);
                    }
                },
                Some(false) => {},
                None => {
                    refused = true;
                    out.push((entries[i].0.clone(), entries[i].1));
                    proof {
                        pos = pos.push(k as int);
                        assert(out@[out.len() - 1].0@ =~= entries@[order@[k as int] as int].0@);
                    }
                },
            }
        }
        k += 1;
        proof {
            assert(cuts.take(order.len() as int) =~= cuts);
        }
    }
    let bytes = basis.bytes();
    (out, bytes, refused)
}

/// A full budgeted basis spans its whole cut space.
pub proof fn lemma_dyn_full_spans(b: &DynBasis, v: Seq<bool>)
    requires
        b.wf(),
        b@.len() >= b.columns(),
        v.len() == b.columns(),
    ensures
        in_span(b@, v, b.columns()),
{
    let n = b.bits as nat;
    let rs = rows_view(b.rows@, n);
    lemma_full_rows_span(rs, b.pivots@, n, v);
    lemma_span_mono(rs, b.kept@, n, v);
}

/// `b` holds every ground element that shares a block, in either partition,
/// with one of its own.
pub open spec fn closed_under(d: Seq<u8>, e: Seq<u8>, used: Seq<usize>, b: Set<int>) -> bool {
    forall|i: int, j: int|
        #![trigger b.contains(i), same_block(d, used, i, j)]
        #![trigger b.contains(i), same_block(e, used, i, j)]
        0 <= i < used.len() && 0 <= j < used.len() && b.contains(i)
            && (same_block(d, used, i, j) || same_block(e, used, i, j)) ==> b.contains(j)
}

/// The two partitions together connect the ground set: their join is the
/// single block.
pub open spec fn connects(d: Seq<u8>, e: Seq<u8>, used: Seq<usize>) -> bool {
    forall|b: Set<int>| closed_under(d, e, used, b) && b.contains(0)
        ==> forall|i: int| 0 <= i < used.len() ==> #[trigger] b.contains(i)
}

proof fn lemma_side_bit(col: u64, i: int)
    requires
        1 <= i <= 64,
    ensures
        on_side(col as int, i) == ((col >> ((i - 1) as u64)) & 1 == 1),
{
    lemma_u64_shr_is_div(col, (i - 1) as u64);
    lemma_low_bit(col >> ((i - 1) as u64));
}

/// A number below `2^m` whose bits below `m` are all one is `2^m - 1`.
proof fn lemma_all_set(col: int, m: nat)
    requires
        0 <= col < pow2(m),
        forall|k: nat| k < m ==> (col / (#[trigger] pow2(k) as int)) % 2 == 1,
    ensures
        col == pow2(m) - 1,
    decreases m,
{
    vstd::arithmetic::power2::lemma2_to64();
    if m > 0 {
        vstd::arithmetic::power2::lemma_pow2_unfold(m);
        let h = col / 2;
        assert((col / (pow2(0) as int)) % 2 == 1);
        assert(col % 2 == 1);
        assert forall|k: nat| k < (m - 1) as nat implies (h / (#[trigger] pow2(k) as int)) % 2 == 1 by {
            lemma_pow2_pos(k);
            vstd::arithmetic::div_mod::lemma_div_denominator(col, 2, pow2(k) as int);
            vstd::arithmetic::power2::lemma_pow2_unfold(k + 1);
            assert(pow2(k + 1) == 2 * pow2(k));
            assert((col / (pow2(k + 1) as int)) % 2 == 1);
        }
        assert(pow2(m) == 2 * pow2((m - 1) as nat));
        assert(h < pow2((m - 1) as nat));
        lemma_all_set(h, (m - 1) as nat);
    }
}

/// `2^m - 1` has all of its bits below `m` one.
proof fn lemma_all_ones_bit(m: nat, k: nat)
    requires
        k < m,
    ensures
        ((pow2(m) - 1) / (pow2(k) as int)) % 2 == 1,
{
    let d = (m - k) as nat;
    vstd::arithmetic::power2::lemma_pow2_adds(k, d);
    assert(k + d == m);
    lemma_pow2_pos(k);
    lemma_pow2_pos(d);
    vstd::arithmetic::power2::lemma_pow2_unfold(d);
    let a = pow2(k) as int;
    let b = pow2(d) as int;
    assert(b == 2 * pow2((d - 1) as nat));
    assert(pow2(m) - 1 == a * (b - 1) + (a - 1)) by (nonlinear_arith)
        requires pow2(m) == a * b;
    vstd::arithmetic::div_mod::lemma_fundamental_div_mod_converse(pow2(m) - 1, a, b - 1, a - 1);
}

proof fn lemma_or_bit(a: u64, j: u64, t: u64)
    by (bit_vector)
    requires
        j < 64,
        t < 64,
    ensures
        ((a | (1u64 << j)) >> t) & 1 == 1 <==> (t == j || (a >> t) & 1 == 1),
{
}

proof fn lemma_or_bound(a: u64, j: u64)
    by (bit_vector)
    requires
        j < 63,
        a < (1u64 << j),
    ensures
        (a | (1u64 << j)) < (1u64 << (j + 1)),
        a < (1u64 << (j + 1)),
{
}

proof fn lemma_zero_bit(t: u64)
    by (bit_vector)
    ensures
        !((0u64 >> t) & 1 == 1),
{
}

proof fn lemma_xor_facts(a: u64, b: u64, t: u64)
    by (bit_vector)
    requires
        t < 64,
    ensures
        ((a ^ b) >> t) & 1 == 1 <==> (((a >> t) & 1 == 1) != ((b >> t) & 1 == 1)),
        (a ^ b) ^ b == a,
        b != 0 ==> a ^ b != a,
{
}

proof fn lemma_xor_bound(a: u64, b: u64, m: u64)
    by (bit_vector)
    requires
        m < 64,
        a < (1u64 << m),
        b < (1u64 << m),
    ensures
        (a ^ b) < (1u64 << m),
{
}

/// The mask with bit `i - 1` set for every `i` of `c` with `1 <= i < k`.
pub open spec fn mask_upto(c: Set<int>, k: int) -> u64
    decreases k,
{
    if k <= 1 {
        0
    } else {
        let prev = mask_upto(c, k - 1);
        if c.contains(k - 1) { prev | (1u64 << ((k - 2) as u64)) } else { prev }
    }
}

proof fn lemma_mask_upto(c: Set<int>, k: int)
    requires
        1 <= k <= 64,
    ensures
        mask_upto(c, k) < (1u64 << ((k - 1) as u64)),
        forall|t: u64| t < 64 ==> (#[trigger] ((mask_upto(c, k) >> t) & 1) == 1) == (t + 2 <= k && c.contains(t + 1)),
    decreases k,
{
    if k == 1 {
        assert(0u64 < (1u64 << 0u64)) by (bit_vector);
        assert forall|t: u64| t < 64 implies (#[trigger] ((mask_upto(c, k) >> t) & 1) == 1) == (t + 2 <= k && c.contains(t + 1)) by {
            lemma_zero_bit(t);
        }
    } else {
        lemma_mask_upto(c, k - 1);
        let prev = mask_upto(c, k - 1);
        let j = (k - 2) as u64;
        lemma_or_bound(prev, j);
        assert forall|t: u64| t < 64 implies (#[trigger] ((mask_upto(c, k) >> t) & 1) == 1) == (t + 2 <= k && c.contains(t + 1)) by {
            if c.contains(k - 1) {
                lemma_or_bit(prev, j, t);
            }
        }
    }
}

/// A finite set paired off by an involution without fixed points has an even
/// number of elements.
proof fn lemma_involution_even(a: Set<int>, f: spec_fn(int) -> int)
    requires
        a.finite(),
        forall|x: int| #[trigger] a.contains(x) ==> a.contains(f(x)) && f(f(x)) == x && f(x) != x,
    ensures
        a.len() % 2 == 0,
    decreases a.len(),
{
    if a.len() > 0 {
        let x = a.choose();
        let a2 = a.remove(x).remove(f(x));
        assert forall|y: int| #[trigger] a2.contains(y) implies a2.contains(f(y)) && f(f(y)) == y && f(y) != y by {
            if f(y) == x {
                assert(f(f(y)) == f(x));
            }
            if f(y) == f(x) {
                assert(f(f(y)) == f(f(x)));
            }
        }
        lemma_involution_even(a2, f);
    }
}

/// The inner product of two cut vectors is one exactly when the two
/// partitions together connect the ground set.
pub proof fn lemma_inner_product_detects_connection(d: Seq<u8>, e: Seq<u8>, used: Seq<usize>)
    requires
        1 <= used.len() <= 64,
        positions_valid(d, used),
        positions_valid(e, used),
    ensures
        inner(cut_vector(d, used), cut_vector(e, used), ground_bits(used.len()) as int) == connects(d, e, used),
{
    let s = used.len() as int;
    let n = ground_bits(used.len());
    let cd = cut_vector(d, used);
    let ce = cut_vector(e, used);
    let a = common_ones(cd, ce, n as int);
    lemma_inner_parity(cd, ce, n as int);
    if s == 1 {
        assert(refines(d, used, 0) && refines(e, used, 0));
        assert(a =~= set![0int]);
        assert(a.len() == 1);
        assert(connects(d, e, used));
        return;
    }
    let m = (s - 1) as nat;
    assert(n == pow2(m));
    lemma_pow2_pos(m);
    lemma_u64_pow2_no_overflow(m);
    lemma_u64_shl_is_mul(1, m as u64);
    assert((1u64 << (m as u64)) == pow2(m));
    if connects(d, e, used) {
        let top = pow2(m) - 1;
        assert forall|i: int, j: int| 0 <= i < s && 0 <= j < s implies on_side(top, i) && on_side(top, j) by {
            if i >= 1 {
                lemma_all_ones_bit(m, (i - 1) as nat);
            }
            if j >= 1 {
                lemma_all_ones_bit(m, (j - 1) as nat);
            }
        }
        assert(a.contains(top));
        assert forall|col: int| #[trigger] a.contains(col) implies col == top by {
            let x = Set::new(|i: int| 0 <= i < s && on_side(col, i));
            assert(closed_under(d, e, used, x));
            assert(x.contains(0));
            assert forall|k: nat| k < m implies (col / (#[trigger] pow2(k) as int)) % 2 == 1 by {
                assert(x.contains(k + 1int));
            }
            lemma_all_set(col, m);
        }
        assert(a =~= set![top]);
        assert(a.len() == 1);
    } else {
        let b = choose|b: Set<int>| closed_under(d, e, used, b) && b.contains(0)
            && !(forall|i: int| 0 <= i < used.len() ==> #[trigger] b.contains(i));
        let i0 = choose|i: int| 0 <= i < used.len() && !b.contains(i);
        let c = Set::new(|i: int| 1 <= i < s && !b.contains(i));
        assert(c.contains(i0));
        assert forall|i: int, j: int| 0 <= i < s && 0 <= j < s
            && (same_block(d, used, i, j) || same_block(e, used, i, j)) implies c.contains(i) == c.contains(j) by {
            if same_block(d, used, i, j) {
                assert(same_block(d, used, j, i));
            } else {
                assert(same_block(e, used, j, i));
            }
        }
        lemma_mask_upto(c, s);
        let mask = mask_upto(c, s);
        assert(mask != 0) by {
            let t = (i0 - 1) as u64;
            assert(((mask >> t) & 1) == 1);
            if mask == 0 {
                lemma_zero_bit(t);
            }
        }
        let f = |col: int| ((col as u64) ^ mask) as int;
        assert forall|col: int| #[trigger] a.contains(col) implies a.contains(f(col)) && f(f(col)) == col && f(col) != col by {
            let cu = col as u64;
            let g = cu ^ mask;
            lemma_xor_bound(cu, mask, m as u64);
            lemma_xor_facts(cu, mask, 0);
            assert(f(col) == g as int);
            assert(f(f(col)) == col);
            assert forall|i: int| 0 <= i < s implies on_side(g as int, i) == (on_side(col, i) != c.contains(i)) by {
                if i >= 1 {
                    lemma_side_bit(g, i);
                    lemma_side_bit(cu, i);
                    lemma_xor_facts(cu, mask, (i - 1) as u64);
                }
            }
            assert(refines(d, used, g as int));
            assert(refines(e, used, g as int));
        }
        lemma_involution_even(a, f);
    }
}

/// What the greedy keeps over the first `k` candidates comes from them, label
/// and cut vector alike.
proof fn lemma_greedy_origin(cuts: Seq<Seq<bool>>, labels: Seq<usize>, n: nat, k: int)
    requires
        0 <= k <= cuts.len(),
        labels.len() == cuts.len(),
        all_len(cuts, n),
    ensures
        greedy(cuts.take(k), labels, n).0.len() == greedy(cuts.take(k), labels, n).1.len(),
        all_len(greedy(cuts.take(k), labels, n).1, n),
        forall|t: int| 0 <= t < greedy(cuts.take(k), labels, n).0.len() ==> exists|pos: int| 0 <= pos < k
            && #[trigger] greedy(cuts.take(k), labels, n).0[t] == labels[pos]
            && greedy(cuts.take(k), labels, n).1[t] == cuts[pos],
    decreases k,
{
    if k > 0 {
        lemma_greedy_origin(cuts, labels, n, k - 1);
        assert(cuts.take(k).drop_last() =~= cuts.take(k - 1));
        assert(cuts.take(k).last() == cuts[k - 1]);
        let g0 = greedy(cuts.take(k - 1), labels, n);
        let g = greedy(cuts.take(k), labels, n);
        assert forall|t: int| 0 <= t < g.0.len() implies exists|pos: int| 0 <= pos < k
            && #[trigger] g.0[t] == labels[pos] && g.1[t] == cuts[pos] by {
            if t < g0.0.len() {
                let pos = choose|pos: int| 0 <= pos < k - 1 && #[trigger] g0.0[t] == labels[pos] && g0.1[t] == cuts[pos];
                assert(g.0[t] == g0.0[t] && g.1[t] == g0.1[t]);
                assert(0 <= pos < k && g.0[t] == labels[pos] && g.1[t] == cuts[pos]);
            } else {
                assert(g.0[t] == labels[k - 1] && g.1[t] == cuts[k - 1]);
            }
        }
    } else {
        assert(cuts.take(0) =~= Seq::<Seq<bool>>::empty());
    }
}

/// The greedy only appends: what it keeps over `k` candidates starts what
/// it keeps over `m >= k`.
proof fn lemma_greedy_prefix(cuts: Seq<Seq<bool>>, labels: Seq<usize>, n: nat, k: int, m: int)
    requires
        0 <= k <= m <= cuts.len(),
    ensures
        greedy(cuts.take(k), labels, n).0.len() <= greedy(cuts.take(m), labels, n).0.len(),
        forall|t: int| 0 <= t < greedy(cuts.take(k), labels, n).0.len()
            ==> #[trigger] greedy(cuts.take(m), labels, n).0[t] == greedy(cuts.take(k), labels, n).0[t],
    decreases m - k,
{
    if m > k {
        lemma_greedy_prefix(cuts, labels, n, k, m - 1);
        assert(cuts.take(m).drop_last() =~= cuts.take(m - 1));
    }
}

/// The reduction loses nothing: for every query partition `e` of the ground
/// set, if some candidate connects the ground set together with `e`, so does
/// a kept candidate that costs no more.
pub proof fn lemma_reduction_represents(
    decoded: Seq<[u8; MAX_BAG]>,
    used: Seq<usize>,
    order: Seq<usize>,
    costs: Seq<u64>,
    e: Seq<u8>,
    k: int,
)
    requires
        2 <= used.len() <= MAX_BAG,
        forall|i: int| 0 <= i < used.len() ==> (#[trigger] used[i]) < MAX_BAG,
        forall|j: int| 0 <= j < order.len() ==> (#[trigger] order[j]) < decoded.len() && order[j] < costs.len(),
        forall|a: int, b: int| 0 <= a <= b < order.len() ==> costs[#[trigger] order[a] as int] <= costs[#[trigger] order[b] as int],
        positions_valid(e, used),
        0 <= k < order.len(),
        connects(decoded[order[k] as int]@, e, used),
    ensures
        exists|t: int| 0 <= t < greedy(order_cuts(decoded, used, order), order, ground_bits(used.len())).0.len() && {
            let x = #[trigger] greedy(order_cuts(decoded, used, order), order, ground_bits(used.len())).0[t];
            connects(decoded[x as int]@, e, used) && costs[x as int] <= costs[order[k] as int]
        },
{
    let n = ground_bits(used.len());
    let cuts = order_cuts(decoded, used, order);
    let m = order.len() as int;
    let ce = cut_vector(e, used);
    assert(all_len(cuts, n));
    assert forall|j: int| 0 <= j < order.len() implies positions_valid(decoded[order[j] as int]@, used) by {}
    lemma_greedy_origin(cuts, order, n, k);
    lemma_greedy_prefix(cuts, order, n, k + 1, m);
    assert(cuts.take(m) =~= cuts);
    assert(cuts.take(k + 1).drop_last() =~= cuts.take(k));
    assert(cuts.take(k + 1).last() == cuts[k]);
    let gk = greedy(cuts.take(k), order, n);
    let gk1 = greedy(cuts.take(k + 1), order, n);
    let gm = greedy(cuts, order, n);
    lemma_inner_product_detects_connection(decoded[order[k] as int]@, e, used);
    if in_span(gk.1, cuts[k], n) {
        lemma_inner_span(gk.1, cuts[k], ce, n);
        let i = choose|i: int| 0 <= i < gk.1.len() && inner(#[trigger] gk.1[i], ce, n as int);
        let pos = choose|pos: int| 0 <= pos < k && #[trigger] gk.0[i] == order[pos] && gk.1[i] == cuts[pos];
        lemma_inner_product_detects_connection(decoded[order[pos] as int]@, e, used);
        assert(gk1 == gk);
        assert(gm.0[i] == gk.0[i]);
        assert(costs[order[pos] as int] <= costs[order[k] as int]);
    } else {
        let t = gk.0.len() as int;
        assert(gk1.0[t] == order[k]);
        assert(gm.0[t] == order[k]);
    }
}

/// The budgeted greedy over the first `k` candidates.
pub open spec fn scan_at(cuts: Seq<Seq<bool>>, n: nat, rb: nat, budget: nat, k: int) -> (Seq<int>, bool, Seq<Seq<bool>>) {
    class_scan(cuts.take(k), n, rb, budget)
}

/// The basis vector at `i` of a scan result is the cut vector of one of the
/// positions the scan kept.
spec fn kept_origin(s: (Seq<int>, bool, Seq<Seq<bool>>), cuts: Seq<Seq<bool>>, i: int) -> bool {
    exists|t: int| 0 <= t < s.0.len() && s.2[i] == cuts[#[trigger] s.0[t]]
}

/// What the budgeted greedy keeps over the first `k` candidates are
/// positions among them, and every vector of its basis is the cut vector of
/// a kept position.
proof fn lemma_class_scan_origin(cuts: Seq<Seq<bool>>, n: nat, rb: nat, budget: nat, k: int)
    requires
        0 <= k <= cuts.len(),
        all_len(cuts, n),
    ensures
        all_len(scan_at(cuts, n, rb, budget, k).2, n),
        forall|t: int| 0 <= t < scan_at(cuts, n, rb, budget, k).0.len()
            ==> 0 <= #[trigger] scan_at(cuts, n, rb, budget, k).0[t] < k,
        forall|i: int| 0 <= i < scan_at(cuts, n, rb, budget, k).2.len()
            ==> #[trigger] kept_origin(scan_at(cuts, n, rb, budget, k), cuts, i),
    decreases k,
{
    let s = scan_at(cuts, n, rb, budget, k);
    if k > 0 {
        lemma_class_scan_origin(cuts, n, rb, budget, k - 1);
        let p = scan_at(cuts, n, rb, budget, k - 1);
        assert(cuts.take(k).drop_last() =~= cuts.take(k - 1));
        assert(cuts.take(k).last() == cuts[k - 1]);
        assert forall|i: int| 0 <= i < s.2.len() implies #[trigger] kept_origin(s, cuts, i) by {
            if i < p.2.len() {
                assert(kept_origin(p, cuts, i));
                let t = choose|t: int| 0 <= t < p.0.len() && p.2[i] == cuts[#[trigger] p.0[t]];
                assert(s.0[t] == p.0[t]);
                assert(s.2[i] == p.2[i]);
            } else {
                let last = s.0.len() - 1;
                assert(s.2[i] == cuts[k - 1]);
                assert(s.0[last] == k - 1);
            }
        }
    } else {
        assert(cuts.take(0) =~= Seq::<Seq<bool>>::empty());
    }
}

proof fn lemma_class_scan_prefix(cuts: Seq<Seq<bool>>, n: nat, rb: nat, budget: nat, k: int, m: int)
    requires
        0 <= k <= m <= cuts.len(),
    ensures
        class_scan(cuts.take(k), n, rb, budget).0.len() <= class_scan(cuts.take(m), n, rb, budget).0.len(),
        forall|t: int| 0 <= t < class_scan(cuts.take(k), n, rb, budget).0.len()
            ==> #[trigger] class_scan(cuts.take(m), n, rb, budget).0[t] == class_scan(cuts.take(k), n, rb, budget).0[t],
    decreases m - k,
{
    if m > k {
        lemma_class_scan_prefix(cuts, n, rb, budget, k, m - 1);
        assert(cuts.take(m).drop_last() =~= cuts.take(m - 1));
    }
}

/// The budgeted reduction of a class loses nothing either: whether or not the
/// budget runs out, for every query partition `e`, if some entry connects the
/// ground set together with `e`, so does a kept entry that costs no more.
pub proof fn lemma_class_reduction_represents(
    entries: Seq<(Vec<u8>, u64)>,
    used: Seq<usize>,
    order: Seq<usize>,
    rb: nat,
    budget: nat,
    e: Seq<u8>,
    k: int,
)
    requires
        1 <= used.len() <= 64,
        entries.len() <= usize::MAX,
        forall|j: int| 0 <= j < entries.len() ==> positions_valid((#[trigger] entries[j]).0@, used),
        positions_valid(e, used),
        cost_sorted(Seq::new(entries.len(), |j: int| entries[j].1), order),
        0 <= k < entries.len(),
        connects(entries[order[k] as int].0@, e, used),
    ensures
        ({
            let scan = class_scan(class_cuts(entries, used), ground_bits(used.len()), rb, budget);
            exists|t: int| 0 <= t < scan.0.len() && {
                let x = order[#[trigger] scan.0[t]] as int;
                connects(entries[x].0@, e, used) && entries[x].1 <= entries[order[k] as int].1
            }
        }),
{
    let costs = Seq::new(entries.len(), |j: int| entries[j].1);
    let n = ground_bits(used.len());
    lemma_cost_sorted_unique(costs, order, by_cost_order(costs));
    let cuts = class_cuts(entries, used);
    let m = cuts.len() as int;
    let ce = cut_vector(e, used);
    assert(all_len(cuts, n));
    lemma_class_scan_origin(cuts, n, rb, budget, k);
    lemma_class_scan_prefix(cuts, n, rb, budget, k + 1, m);
    assert(cuts.take(m) =~= cuts);
    assert(cuts.take(k + 1).drop_last() =~= cuts.take(k));
    assert(cuts.take(k + 1).last() == cuts[k]);
    let p = class_scan(cuts.take(k), n, rb, budget);
    let q = class_scan(cuts.take(k + 1), n, rb, budget);
    let scan = class_scan(cuts, n, rb, budget);
    lemma_inner_product_detects_connection(entries[order[k] as int].0@, e, used);
    if !p.1 && in_span(p.2, cuts[k], n) {
        lemma_inner_span(p.2, cuts[k], ce, n);
        let i = choose|i: int| 0 <= i < p.2.len() && inner(#[trigger] p.2[i], ce, n as int);
        assert(kept_origin(scan_at(cuts, n, rb, budget, k), cuts, i));
        let t = choose|t: int| 0 <= t < p.0.len() && p.2[i] == cuts[#[trigger] p.0[t]];
        let pos = p.0[t];
        assert(scan_at(cuts, n, rb, budget, k).0[t] == pos);
        lemma_inner_product_detects_connection(entries[order[pos] as int].0@, e, used);
        assert(q == p);
        assert(scan.0[t] == pos);
        assert(costs[order[pos] as int] <= costs[order[k] as int]);
    } else {
        let t = p.0.len() as int;
        assert(q.0[t] == k);
        assert(scan.0[t] == k);
    }
}

} // verus!
