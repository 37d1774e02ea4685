//! Vectors over GF(2), packed 64 to a word, and the span of a list of them.
use vstd::prelude::*;

verus! {

/// Bit `k` of a word.
pub open spec fn word_bit(w: u64, k: int) -> bool {
    (w >> (k as u64)) & 1 == 1
}

/// The first `n` bits of a packed vector: bit `c` is bit `c % 64` of word `c / 64`.
pub open spec fn bits_view(ws: Seq<u64>, n: nat) -> Seq<bool> {
    Seq::new(n, |c: int| word_bit(ws[c / 64], c % 64))
}

pub open spec fn zero_vec(n: nat) -> Seq<bool> {
    Seq::new(n, |c: int| false)
}

/// Coordinatewise sum over GF(2).
pub open spec fn xor_vec(a: Seq<bool>, b: Seq<bool>) -> Seq<bool> {
    Seq::new(a.len(), |c: int| a[c] != b[c])
}

/// Every vector has length `n`.
pub open spec fn all_len(vs: Seq<Seq<bool>>, n: nat) -> bool {
    forall|i: int| 0 <= i < vs.len() ==> (#[trigger] vs[i]).len() == n
}

/// Sum of the vectors among the first `k` of `vs` that `sel` selects.
pub open spec fn combo_upto(vs: Seq<Seq<bool>>, sel: Seq<bool>, n: nat, k: int) -> Seq<bool>
    decreases k,
{
    if k <= 0 {
        zero_vec(n)
    } else {
        let rest = combo_upto(vs, sel, n, k - 1);
        if sel[k - 1] {
            xor_vec(rest, vs[k - 1])
        } else {
            rest
        }
    }
}

/// Sum of the vectors of `vs` that `sel` selects.
pub open spec fn combo(vs: Seq<Seq<bool>>, sel: Seq<bool>, n: nat) -> Seq<bool> {
    combo_upto(vs, sel, n, vs.len() as int)
}

/// `v` is a sum of some of the vectors of `vs`.
pub open spec fn in_span(vs: Seq<Seq<bool>>, v: Seq<bool>, n: nat) -> bool {
    exists|sel: Seq<bool>| sel.len() == vs.len() && #[trigger] combo(vs, sel, n) == v
}

/// Every vector of `a` lies in the span of `b`.
pub open spec fn spans_into(a: Seq<Seq<bool>>, b: Seq<Seq<bool>>, n: nat) -> bool {
    forall|i: int| 0 <= i < a.len() ==> in_span(b, #[trigger] a[i], n)
}

/// Coordinatewise sum of two selections.
pub open spec fn xor_sel(a: Seq<bool>, b: Seq<bool>) -> Seq<bool> {
    Seq::new(a.len(), |c: int| a[c] != b[c])
}

/// The selection of the single index `j`.
pub open spec fn unit_sel(len: nat, j: int) -> Seq<bool> {
    Seq::new(len, |c: int| c == j)
}

/// Rows in reduced echelon form: row `i` has a one at pivot `i` and a zero at
/// every other pivot.
pub open spec fn echelon(rows: Seq<Seq<bool>>, pivots: Seq<usize>, n: nat) -> bool {
    &&& rows.len() == pivots.len()
    &&& all_len(rows, n)
    &&& forall|j: int| 0 <= j < pivots.len() ==> (#[trigger] pivots[j]) < n
    &&& forall|i: int, j: int|
        0 <= i < rows.len() && 0 <= j < rows.len() ==> #[trigger] rows[i][#[trigger] pivots[j] as int] == (i == j)
}

pub proof fn lemma_combo_len(vs: Seq<Seq<bool>>, sel: Seq<bool>, n: nat, k: int)
    requires
        all_len(vs, n),
        k <= vs.len(),
    ensures
        combo_upto(vs, sel, n, k).len() == n,
    decreases k,
{
    if k > 0 {
        lemma_combo_len(vs, sel, n, k - 1);
    }
}

/// The sum is linear in the selection.
pub proof fn lemma_combo_linear(vs: Seq<Seq<bool>>, s1: Seq<bool>, s2: Seq<bool>, n: nat, k: int)
    requires
        all_len(vs, n),
        k <= vs.len(),
        s1.len() >= k,
        s2.len() == s1.len(),
    ensures
        combo_upto(vs, xor_sel(s1, s2), n, k) == xor_vec(combo_upto(vs, s1, n, k), combo_upto(vs, s2, n, k)),
    decreases k,
{
    lemma_combo_len(vs, s1, n, k);
    lemma_combo_len(vs, s2, n, k);
    lemma_combo_len(vs, xor_sel(s1, s2), n, k);
    if k <= 0 {
        assert(xor_vec(zero_vec(n), zero_vec(n)) =~= zero_vec(n));
    } else {
        lemma_combo_linear(vs, s1, s2, n, k - 1);
        lemma_combo_len(vs, s1, n, k - 1);
        lemma_combo_len(vs, s2, n, k - 1);
        let a = combo_upto(vs, s1, n, k - 1);
        let b = combo_upto(vs, s2, n, k - 1);
        let x = vs[k - 1];
        let l = combo_upto(vs, xor_sel(s1, s2), n, k);
        let r = xor_vec(combo_upto(vs, s1, n, k), combo_upto(vs, s2, n, k));
        assert(l =~= r);
    }
}

pub proof fn lemma_combo_zero_sel(vs: Seq<Seq<bool>>, sel: Seq<bool>, n: nat, k: int)
    requires
        forall|c: int| 0 <= c < k ==> !(#[trigger] sel[c]),
    ensures
        combo_upto(vs, sel, n, k) == zero_vec(n),
    decreases k,
{
    if k > 0 {
        lemma_combo_zero_sel(vs, sel, n, k - 1);
    }
}

/// The sum only reads the first `k` vectors and selection bits.
pub proof fn lemma_combo_prefix(
    vs: Seq<Seq<bool>>,
    ws: Seq<Seq<bool>>,
    s1: Seq<bool>,
    s2: Seq<bool>,
    n: nat,
    k: int,
)
    requires
        k <= vs.len(),
        k <= ws.len(),
        k <= s1.len(),
        k <= s2.len(),
        forall|c: int| 0 <= c < k ==> vs[c] == ws[c] && s1[c] == s2[c],
    ensures
        combo_upto(vs, s1, n, k) == combo_upto(ws, s2, n, k),
    decreases k,
{
    if k > 0 {
        lemma_combo_prefix(vs, ws, s1, s2, n, k - 1);
    }
}

/// Selecting one vector gives that vector.
pub proof fn lemma_combo_unit(vs: Seq<Seq<bool>>, n: nat, j: int, k: int)
    requires
        all_len(vs, n),
        0 <= j < vs.len(),
        k <= vs.len(),
    ensures
        combo_upto(vs, unit_sel(vs.len(), j), n, k) == (if j < k { vs[j] } else { zero_vec(n) }),
    decreases k,
{
    if k > 0 {
        lemma_combo_unit(vs, n, j, k - 1);
        if j == k - 1 {
            assert(xor_vec(zero_vec(n), vs[j]) =~= vs[j]);
        }
    }
}

pub proof fn lemma_span_zero(vs: Seq<Seq<bool>>, n: nat)
    ensures
        in_span(vs, zero_vec(n), n),
{
    let sel = Seq::new(vs.len(), |c: int| false);
    lemma_combo_zero_sel(vs, sel, n, vs.len() as int);
    assert(combo(vs, sel, n) == zero_vec(n));
}

pub proof fn lemma_span_member(vs: Seq<Seq<bool>>, n: nat, j: int)
    requires
        all_len(vs, n),
        0 <= j < vs.len(),
    ensures
        in_span(vs, vs[j], n),
{
    lemma_combo_unit(vs, n, j, vs.len() as int);
    assert(combo(vs, unit_sel(vs.len(), j), n) == vs[j]);
}

/// The span is closed under sums.
pub proof fn lemma_span_xor(vs: Seq<Seq<bool>>, x: Seq<bool>, y: Seq<bool>, n: nat)
    requires
        all_len(vs, n),
        in_span(vs, x, n),
        in_span(vs, y, n),
    ensures
        in_span(vs, xor_vec(x, y), n),
{
    let s1 = choose|sel: Seq<bool>| sel.len() == vs.len() && #[trigger] combo(vs, sel, n) == x;
    let s2 = choose|sel: Seq<bool>| sel.len() == vs.len() && #[trigger] combo(vs, sel, n) == y;
    lemma_combo_linear(vs, s1, s2, n, vs.len() as int);
    assert(combo(vs, xor_sel(s1, s2), n) == xor_vec(x, y));
}

/// A vector of the span has length `n`.
pub proof fn lemma_span_len(vs: Seq<Seq<bool>>, v: Seq<bool>, n: nat)
    requires
        all_len(vs, n),
        in_span(vs, v, n),
    ensures
        v.len() == n,
{
    let s = choose|sel: Seq<bool>| sel.len() == vs.len() && #[trigger] combo(vs, sel, n) == v;
    lemma_combo_len(vs, s, n, vs.len() as int);
}

/// If every vector of `a` lies in the span of `b`, so does every sum of them.
pub proof fn lemma_span_mono(a: Seq<Seq<bool>>, b: Seq<Seq<bool>>, n: nat, v: Seq<bool>)
    requires
        all_len(a, n),
        all_len(b, n),
        spans_into(a, b, n),
        in_span(a, v, n),
    ensures
        in_span(b, v, n),
{
    let s = choose|sel: Seq<bool>| sel.len() == a.len() && #[trigger] combo(a, sel, n) == v;
    lemma_span_mono_upto(a, b, n, s, a.len() as int);
}

proof fn lemma_span_mono_upto(a: Seq<Seq<bool>>, b: Seq<Seq<bool>>, n: nat, s: Seq<bool>, k: int)
    requires
        all_len(a, n),
        all_len(b, n),
        spans_into(a, b, n),
        k <= a.len(),
        s.len() == a.len(),
    ensures
        in_span(b, combo_upto(a, s, n, k), n),
    decreases k,
{
    if k <= 0 {
        lemma_span_zero(b, n);
    } else {
        lemma_span_mono_upto(a, b, n, s, k - 1);
        if s[k - 1] {
            assert(in_span(b, a[k - 1], n));
            lemma_span_xor(b, combo_upto(a, s, n, k - 1), a[k - 1], n);
        }
    }
}

/// Appending a vector keeps every earlier sum.
pub proof fn lemma_span_push(vs: Seq<Seq<bool>>, x: Seq<bool>, v: Seq<bool>, n: nat)
    requires
        in_span(vs, v, n),
    ensures
        in_span(vs.push(x), v, n),
{
    let s = choose|sel: Seq<bool>| sel.len() == vs.len() && #[trigger] combo(vs, sel, n) == v;
    let s2 = s.push(false);
    lemma_combo_prefix(vs, vs.push(x), s, s2, n, vs.len() as int);
    assert(combo(vs.push(x), s2, n) == v);
}

/// At the pivot of row `j`, a sum of echelon rows reads the selection bit `j`.
pub proof fn lemma_combo_at_pivot(rows: Seq<Seq<bool>>, pivots: Seq<usize>, n: nat, sel: Seq<bool>, j: int, k: int)
    requires
        echelon(rows, pivots, n),
        0 <= j < rows.len(),
        k <= rows.len(),
        sel.len() == rows.len(),
    ensures
        combo_upto(rows, sel, n, k)[pivots[j] as int] == (j < k && sel[j]),
    decreases k,
{
    if k > 0 {
        lemma_combo_at_pivot(rows, pivots, n, sel, j, k - 1);
        lemma_combo_len(rows, sel, n, k - 1);
        assert(rows[k - 1][pivots[j] as int] == (k - 1 == j));
    }
}

/// A nonzero vector that vanishes at every pivot is outside the span of the rows.
pub proof fn lemma_outside_span(rows: Seq<Seq<bool>>, pivots: Seq<usize>, n: nat, v: Seq<bool>, c: int)
    requires
        echelon(rows, pivots, n),
        forall|j: int| 0 <= j < pivots.len() ==> !v[#[trigger] pivots[j] as int],
        0 <= c < v.len(),
        v[c],
    ensures
        !in_span(rows, v, n),
{
    if in_span(rows, v, n) {
        let s = choose|sel: Seq<bool>| sel.len() == rows.len() && #[trigger] combo(rows, sel, n) == v;
        assert forall|j: int| 0 <= j < rows.len() implies !(#[trigger] s[j]) by {
            lemma_combo_at_pivot(rows, pivots, n, s, j, rows.len() as int);
        }
        lemma_combo_zero_sel(rows, s, n, rows.len() as int);
    }
}

/// Pivots of echelon rows are distinct.
pub proof fn lemma_pivots_distinct(rows: Seq<Seq<bool>>, pivots: Seq<usize>, n: nat)
    requires
        echelon(rows, pivots, n),
    ensures
        pivots.no_duplicates(),
{
    assert forall|i: int, j: int| 0 <= i < pivots.len() && 0 <= j < pivots.len() && i != j
        implies pivots[i] != pivots[j] by {
        assert(rows[i][pivots[i] as int]);
        assert(!rows[i][pivots[j] as int]);
    }
}

/// There are at most `n` echelon rows, and with exactly `n` of them every
/// column is a pivot.
pub proof fn lemma_pivot_count(rows: Seq<Seq<bool>>, pivots: Seq<usize>, n: nat)
    requires
        echelon(rows, pivots, n),
        n <= usize::MAX,
    ensures
        pivots.len() <= n,
        pivots.len() >= n ==> forall|c: usize| (c as int) < n ==> #[trigger] pivots.contains(c),
{
    lemma_pivots_distinct(rows, pivots, n);
    let ps = pivots.to_set();
    pivots.unique_seq_to_set();
    let range = Set::new(|c: usize| (c as int) < n);
    assert(ps.subset_of(range));
    lemma_usize_range_len(n);
    vstd::set_lib::lemma_len_subset(ps, range);
    if pivots.len() >= n {
        assert forall|c: usize| (c as int) < n implies #[trigger] pivots.contains(c) by {
            if !pivots.contains(c) {
                let smaller = range.remove(c);
                assert(ps.subset_of(smaller));
                vstd::set_lib::lemma_len_subset(ps, smaller);
            }
        }
    }
}

/// The indices below `n` form a set of `n` elements.
pub proof fn lemma_usize_range_len(n: nat)
    requires
        n <= usize::MAX + 1,
    ensures
        Set::new(|c: usize| (c as int) < n).finite(),
        Set::new(|c: usize| (c as int) < n).len() == n,
    decreases n,
{
    let r = Set::new(|c: usize| (c as int) < n);
    if n == 0 {
        assert(r =~= Set::empty());
    } else {
        lemma_usize_range_len((n - 1) as nat);
        let r0 = Set::new(|c: usize| (c as int) < n - 1);
        assert(r =~= r0.insert((n - 1) as usize));
    }
}

/// With as many echelon rows as columns, every vector of length `n` is in
/// their span.
pub proof fn lemma_full_rows_span(rows: Seq<Seq<bool>>, pivots: Seq<usize>, n: nat, v: Seq<bool>)
    requires
        echelon(rows, pivots, n),
        rows.len() >= n,
        v.len() == n,
        n <= usize::MAX,
    ensures
        in_span(rows, v, n),
{
    lemma_pivot_count(rows, pivots, n);
    let sel = Seq::new(rows.len(), |j: int| v[pivots[j] as int]);
    let w = xor_vec(v, combo(rows, sel, n));
    lemma_combo_len(rows, sel, n, rows.len() as int);
    assert forall|c: int| 0 <= c < n implies v[c] == combo(rows, sel, n)[c] by {
        let cu = c as usize;
        assert(pivots.contains(cu));
        let j = choose|j: int| 0 <= j < pivots.len() && pivots[j] == cu;
        lemma_combo_at_pivot(rows, pivots, n, sel, j, rows.len() as int);
        assert(combo(rows, sel, n)[c] == sel[j]);
        assert(!w[c]);
    }
    assert(v =~= combo(rows, sel, n));
}


/// The inner product over GF(2) of the first `k` coordinates.
pub open spec fn inner(a: Seq<bool>, b: Seq<bool>, k: int) -> bool
    decreases k,
{
    if k <= 0 {
        false
    } else {
        inner(a, b, k - 1) != (a[k - 1] && b[k - 1])
    }
}

/// The coordinates below `k` where both vectors are one.
pub open spec fn common_ones(a: Seq<bool>, b: Seq<bool>, k: int) -> Set<int> {
    Set::new(|c: int| 0 <= c < k && a[c] && b[c])
}

/// The inner product is the parity of the number of common ones.
pub proof fn lemma_inner_parity(a: Seq<bool>, b: Seq<bool>, k: int)
    requires
        k >= 0,
    ensures
        common_ones(a, b, k).finite(),
        inner(a, b, k) == (common_ones(a, b, k).len() % 2 == 1),
    decreases k,
{
    if k == 0 {
        assert(common_ones(a, b, 0) =~= Set::<int>::empty());
    } else {
        lemma_inner_parity(a, b, k - 1);
        let prev = common_ones(a, b, k - 1);
        if a[k - 1] && b[k - 1] {
            assert(common_ones(a, b, k) =~= prev.insert(k - 1));
        } else {
            assert(common_ones(a, b, k) =~= prev);
        }
    }
}

/// The inner product is linear in its first argument.
pub proof fn lemma_inner_xor(a: Seq<bool>, b: Seq<bool>, w: Seq<bool>, k: int)
    requires
        0 <= k <= a.len(),
        a.len() == b.len(),
    ensures
        inner(xor_vec(a, b), w, k) == (inner(a, w, k) != inner(b, w, k)),
    decreases k,
{
    if k > 0 {
        lemma_inner_xor(a, b, w, k - 1);
    }
}

pub proof fn lemma_inner_zero(w: Seq<bool>, n: nat, k: int)
    requires
        k <= n,
    ensures
        !inner(zero_vec(n), w, k),
    decreases k,
{
    if k > 0 {
        lemma_inner_zero(w, n, k - 1);
    }
}

/// If a sum of vectors has inner product one with `w`, one of the summands
/// does.
pub proof fn lemma_inner_combo(vs: Seq<Seq<bool>>, sel: Seq<bool>, w: Seq<bool>, n: nat, j: int)
    requires
        all_len(vs, n),
        j <= vs.len(),
        sel.len() == vs.len(),
        inner(combo_upto(vs, sel, n, j), w, n as int),
    ensures
        exists|i: int| 0 <= i < j && sel[i] && inner(vs[i], w, n as int),
    decreases j,
{
    if j <= 0 {
        lemma_inner_zero(w, n, n as int);
    } else {
        lemma_combo_len(vs, sel, n, j - 1);
        if sel[j - 1] {
            lemma_inner_xor(combo_upto(vs, sel, n, j - 1), vs[j - 1], w, n as int);
            if !inner(vs[j - 1], w, n as int) {
                lemma_inner_combo(vs, sel, w, n, j - 1);
            }
        } else {
            lemma_inner_combo(vs, sel, w, n, j - 1);
        }
    }
}

/// A vector of the span with inner product one against `w` is a sum that
/// includes a spanning vector with inner product one against `w`.
pub proof fn lemma_inner_span(vs: Seq<Seq<bool>>, v: Seq<bool>, w: Seq<bool>, n: nat)
    requires
        all_len(vs, n),
        in_span(vs, v, n),
        inner(v, w, n as int),
    ensures
        exists|i: int| 0 <= i < vs.len() && inner(#[trigger] vs[i], w, n as int),
{
    let sel = choose|sel: Seq<bool>| sel.len() == vs.len() && #[trigger] combo(vs, sel, n) == v;
    lemma_inner_combo(vs, sel, w, n, vs.len() as int);
    let i = choose|i: int| 0 <= i < vs.len() && sel[i] && inner(vs[i], w, n as int);
    assert(inner(vs[i], w, n as int));
}

proof fn lemma_bit_xor(a: u64, b: u64, k: u64)
    by (bit_vector)
    requires
        k < 64,
    ensures
        ((a ^ b) >> k) & 1 == 1 <==> (((a >> k) & 1 == 1) != ((b >> k) & 1 == 1)),
{
}

proof fn lemma_bit_set(a: u64, j: u64, k: u64)
    by (bit_vector)
    requires
        j < 64,
        k < 64,
    ensures
        ((a | (1u64 << j)) >> k) & 1 == 1 <==> (k == j || (a >> k) & 1 == 1),
{
}

proof fn lemma_bit_zero(k: u64)
    by (bit_vector)
    ensures
        !((0u64 >> k) & 1 == 1),
{
}

/// The zero vector of `words` words.
pub fn zero_words(words: usize) -> (r: Vec<u64>)
    ensures
        r.len() == words,
        forall|n: nat| n <= 64 * words ==> #[trigger] bits_view(r@, n) == zero_vec(n),
{
    let r: Vec<u64> = vec![0u64; words];
    proof {
        assert forall|n: nat| n <= 64 * words implies #[trigger] bits_view(r@, n) == zero_vec(n) by {
            assert forall|c: int| 0 <= c < n implies !#[trigger] bits_view(r@, n)[c] by {
                lemma_bit_zero((c % 64) as u64);
            }
            assert(bits_view(r@, n) =~= zero_vec(n));
        }
    }
    r
}

/// Bit `c` of a packed vector.
pub fn test_bit(v: &Vec<u64>, c: usize) -> (r: bool)
    requires
        c / 64 < v.len(),
    ensures
        r == word_bit(v@[c as int / 64], c as int % 64),
{
    (v[c / 64] >> ((c % 64) as u64)) & 1 == 1
}

/// Sets bit `c` of a packed vector.
pub fn set_bit(v: &mut Vec<u64>, c: usize)
    requires
        c / 64 < old(v).len(),
    ensures
        final(v).len() == old(v).len(),
        forall|n: nat| n <= 64 * old(v).len() ==> #[trigger] bits_view(final(v)@, n)
            == (if c < n { bits_view(old(v)@, n).update(c as int, true) } else { bits_view(old(v)@, n) }),
{
    let ghost old_v = v@;
    let w = c / 64;
    let j = (c % 64) as u64;
    let nw = v[w] | (1u64 << j);
    v.set(w, nw);
    proof {
        assert forall|n: nat| n <= 64 * old_v.len() implies #[trigger] bits_view(v@, n)
            == (if c < n { bits_view(old_v, n).update(c as int, true) } else { bits_view(old_v, n) }) by {
            let want = if c < n { bits_view(old_v, n).update(c as int, true) } else { bits_view(old_v, n) };
            assert forall|d: int| 0 <= d < n implies bits_view(v@, n)[d] == want[d] by {
                if d / 64 == w as int {
                    lemma_bit_set(old_v[w as int], j, (d % 64) as u64);
                }
            }
            assert(bits_view(v@, n) =~= want);
        }
    }
}

/// The coordinatewise sum of two packed vectors of equal length.
pub fn xor_words(a: &Vec<u64>, b: &Vec<u64>) -> (r: Vec<u64>)
    requires
        a.len() == b.len(),
    ensures
        r.len() == a.len(),
        forall|n: nat| n <= 64 * a.len() ==> #[trigger] bits_view(r@, n)
            == xor_vec(bits_view(a@, n), bits_view(b@, n)),
{
    let mut r: Vec<u64> = Vec::new();
    let mut i: usize = 0;
    while i < a.len()
        invariant
            a.len() == b.len(),
            i <= a.len(),
            r.len() == i,
            forall|w: int| 0 <= w < i ==> #[trigger] r@[w] == a@[w] ^ b@[w],
        decreases a.len() - i,
    {
        r.push(a[i] ^ b[i]);
        i += 1;
    }
    proof {
        assert forall|n: nat| n <= 64 * a.len() implies #[trigger] bits_view(r@, n)
            == xor_vec(bits_view(a@, n), bits_view(b@, n)) by {
            assert forall|d: int| 0 <= d < n implies bits_view(r@, n)[d]
                == xor_vec(bits_view(a@, n), bits_view(b@, n))[d] by {
                lemma_bit_xor(a@[d / 64], b@[d / 64], (d % 64) as u64);
            }
            assert(bits_view(r@, n) =~= xor_vec(bits_view(a@, n), bits_view(b@, n)));
        }
    }
    r
}

/// Add `b` into `a`, coordinatewise.
pub fn xor_into(a: &mut Vec<u64>, b: &Vec<u64>)
    requires
        old(a).len() == b.len(),
    ensures
        final(a).len() == old(a).len(),
        forall|n: nat| n <= 64 * old(a).len() ==> #[trigger] bits_view(final(a)@, n)
            == xor_vec(bits_view(old(a)@, n), bits_view(b@, n)),
{
    let ghost a0 = a@;
    let mut i: usize = 0;
    while i < a.len()
        invariant
            a.len() == b.len(),
            a@.len() == a0.len(),
            i <= a.len(),
            forall|w: int| 0 <= w < i ==> #[trigger] a@[w] == a0[w] ^ b@[w],
            forall|w: int| i <= w < a@.len() ==> #[trigger] a@[w] == a0[w],
        decreases a.len() - i,
    {
        let x = a[i] ^ b[i];
        a.set(i, x);
        i += 1;
    }
    proof {
        assert forall|n: nat| n <= 64 * a0.len() implies #[trigger] bits_view(a@, n)
            == xor_vec(bits_view(a0, n), bits_view(b@, n)) by {
            assert forall|d: int| 0 <= d < n implies bits_view(a@, n)[d]
                == xor_vec(bits_view(a0, n), bits_view(b@, n))[d] by {
                lemma_bit_xor(a0[d / 64], b@[d / 64], (d % 64) as u64);
            }
            assert(bits_view(a@, n) =~= xor_vec(bits_view(a0, n), bits_view(b@, n)));
        }
    }
}

} // verus!
