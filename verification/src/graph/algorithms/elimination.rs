//! The elimination game as a mathematical object, and the theorem that the
//! bags it records form a tree decomposition whatever the elimination order.
use vstd::prelude::*;

verus! {

/// A graph on the vertices `0..h.len()`: `h[x]` is the neighbourhood of `x`.
pub open spec fn is_simple(h: Seq<Set<u32>>) -> bool {
    &&& h.len() <= u32::MAX
    &&& forall|x: int| 0 <= x < h.len() ==> (#[trigger] h[x]).finite()
    &&& forall|x: int, y: u32| 0 <= x < h.len() && #[trigger] h[x].contains(y) ==> y < h.len()
    &&& forall|x: int| 0 <= x < h.len() ==> !(#[trigger] h[x]).contains(x as u32)
    &&& forall|x: int, y: u32| 0 <= x < h.len() && #[trigger] h[x].contains(y) ==> h[y as int].contains(x as u32)
}

/// One step of the game: the neighbourhood of `z` becomes a clique and `z` leaves.
pub open spec fn eliminate(h: Seq<Set<u32>>, z: u32) -> Seq<Set<u32>> {
    Seq::new(
        h.len(),
        |x: int|
            if x == z as int {
                Set::empty()
            } else if h[z as int].contains(x as u32) {
                h[x].union(h[z as int]).remove(x as u32).remove(z)
            } else {
                h[x].remove(z)
            },
    )
}

/// The graph after the first `k` vertices of `order` have been eliminated.
pub open spec fn elim_graph(h0: Seq<Set<u32>>, order: Seq<u32>, k: int) -> Seq<Set<u32>>
    decreases k,
{
    if k <= 0 {
        h0
    } else {
        eliminate(elim_graph(h0, order, k - 1), order[k - 1])
    }
}

/// The bag recorded at step `i`: the eliminated vertex and its current neighbourhood.
pub open spec fn game_bag(h0: Seq<Set<u32>>, order: Seq<u32>, i: int) -> Set<u32> {
    elim_graph(h0, order, i)[order[i] as int].insert(order[i])
}

/// Still in the game after `k` eliminations.
pub open spec fn alive(order: Seq<u32>, k: int, v: u32) -> bool {
    !order.subrange(0, k).contains(v)
}

/// `order` eliminates every vertex of `0..n` exactly once.
pub open spec fn is_elimination_order(order: Seq<u32>, n: int) -> bool {
    &&& order.len() == n
    &&& n <= u32::MAX
    &&& order.no_duplicates()
    &&& forall|i: int| 0 <= i < n ==> (#[trigger] order[i]) < n
}

/// The step at which `v` is eliminated.
pub open spec fn position(order: Seq<u32>, v: u32) -> int {
    order.index_of(v)
}

/// Elimination keeps the graph simple, and only live vertices have or are neighbours.
pub proof fn lemma_eliminate_simple(h: Seq<Set<u32>>, z: u32)
    requires
        is_simple(h),
        z < h.len(),
    ensures
        is_simple(eliminate(h, z)),
        eliminate(h, z).len() == h.len(),
        eliminate(h, z)[z as int] == Set::<u32>::empty(),
        forall|x: int| 0 <= x < h.len() ==> !(#[trigger] eliminate(h, z)[x]).contains(z),
        forall|x: int| 0 <= x < h.len() ==> (#[trigger] eliminate(h, z)[x]).subset_of(h[x].union(h[z as int])),
{
    let g = eliminate(h, z);
    assert forall|x: int, y: u32| 0 <= x < g.len() && #[trigger] g[x].contains(y) implies g[y as int].contains(
        x as u32,
    ) by {
        if h[z as int].contains(x as u32) {
            if h[x].contains(y) {
                assert(h[y as int].contains(x as u32));
                if h[z as int].contains(y) {
                } else {
                    assert(h[y as int].contains(x as u32));
                }
            } else {
                assert(h[z as int].contains(y));
            }
        } else {
            assert(h[y as int].contains(x as u32));
            if h[z as int].contains(y) {
                assert(h[x].contains(y));
            }
        }
    }
}

/// The graphs of the game stay simple and of the same size.
pub proof fn lemma_elim_graph_simple(h0: Seq<Set<u32>>, order: Seq<u32>, k: int)
    requires
        is_simple(h0),
        0 <= k <= order.len(),
        forall|i: int| 0 <= i < order.len() ==> (#[trigger] order[i]) < h0.len(),
    ensures
        is_simple(elim_graph(h0, order, k)),
        elim_graph(h0, order, k).len() == h0.len(),
    decreases k,
{
    if k > 0 {
        lemma_elim_graph_simple(h0, order, k - 1);
        lemma_eliminate_simple(elim_graph(h0, order, k - 1), order[k - 1]);
    }
}

/// Eliminated vertices are isolated and are nobody's neighbour.
pub proof fn lemma_elim_graph_dead(h0: Seq<Set<u32>>, order: Seq<u32>, k: int, x: int, y: u32)
    requires
        is_simple(h0),
        0 <= k <= order.len(),
        forall|i: int| 0 <= i < order.len() ==> (#[trigger] order[i]) < h0.len(),
        0 <= x < h0.len(),
        elim_graph(h0, order, k)[x].contains(y),
    ensures
        alive(order, k, y),
        alive(order, k, x as u32),
    decreases k,
{
    if k > 0 {
        let h = elim_graph(h0, order, k - 1);
        let z = order[k - 1];
        lemma_elim_graph_simple(h0, order, k - 1);
        lemma_eliminate_simple(h, z);
        let g = elim_graph(h0, order, k);
        assert(g[x].subset_of(h[x].union(h[z as int])));
        assert(order.subrange(0, k).drop_last() == order.subrange(0, k - 1));
        if h[x].contains(y) {
            lemma_elim_graph_dead(h0, order, k - 1, x, y);
        } else {
            assert(h[z as int].contains(y));
            lemma_elim_graph_dead(h0, order, k - 1, z as int, y);
        }
        assert(x != z as int);
        if h[z as int].contains(x as u32) {
            lemma_elim_graph_dead(h0, order, k - 1, z as int, x as u32);
        } else {
            assert(h[x].contains(y));
            lemma_elim_graph_dead(h0, order, k - 1, x, y);
        }
        assert(y != z);
        assert forall|i: int| 0 <= i < k implies #[trigger] order.subrange(0, k)[i] != y && order.subrange(0, k)[i] != x as u32 by {
            if i < k - 1 {
                assert(order.subrange(0, k)[i] == order.subrange(0, k - 1)[i]);
            }
        }
    }
}

/// An edge between two vertices still alive at step `k` survives to step `k`.
pub proof fn lemma_edge_persists(h0: Seq<Set<u32>>, order: Seq<u32>, j: int, k: int, x: int, y: u32)
    requires
        is_simple(h0),
        0 <= j <= k <= order.len(),
        forall|i: int| 0 <= i < order.len() ==> (#[trigger] order[i]) < h0.len(),
        0 <= x < h0.len(),
        elim_graph(h0, order, j)[x].contains(y),
        alive(order, k, y),
        alive(order, k, x as u32),
    ensures
        elim_graph(h0, order, k)[x].contains(y),
    decreases k - j,
{
    if k > j {
        let z = order[k - 1];
        assert(order.subrange(0, k)[k - 1] == z);
        assert forall|i: int| 0 <= i < k - 1 implies #[trigger] order.subrange(0, k - 1)[i] == order.subrange(0, k)[i] by {}
        assert(alive(order, k - 1, y)) by {
            if order.subrange(0, k - 1).contains(y) {
                let i = choose|i: int| 0 <= i < k - 1 && #[trigger] order.subrange(0, k - 1)[i] == y;
                assert(order.subrange(0, k)[i] == y);
            }
        }
        assert(alive(order, k - 1, x as u32)) by {
            if order.subrange(0, k - 1).contains(x as u32) {
                let i = choose|i: int| 0 <= i < k - 1 && #[trigger] order.subrange(0, k - 1)[i] == x as u32;
                assert(order.subrange(0, k)[i] == x as u32);
            }
        }
        lemma_edge_persists(h0, order, j, k - 1, x, y);
        lemma_elim_graph_simple(h0, order, k - 1);
    }
}

/// The neighbourhood of an eliminated vertex is a clique among its members
/// that are still alive.
pub proof fn lemma_bag_clique(h0: Seq<Set<u32>>, order: Seq<u32>, i: int, k: int, x: u32, y: u32)
    requires
        is_simple(h0),
        0 <= i < k <= order.len(),
        forall|t: int| 0 <= t < order.len() ==> (#[trigger] order[t]) < h0.len(),
        elim_graph(h0, order, i)[order[i] as int].contains(x),
        elim_graph(h0, order, i)[order[i] as int].contains(y),
        x != y,
        alive(order, k, x),
        alive(order, k, y),
    ensures
        elim_graph(h0, order, k)[x as int].contains(y),
{
    let h = elim_graph(h0, order, i);
    lemma_elim_graph_simple(h0, order, i);
    assert(elim_graph(h0, order, i + 1)[x as int].contains(y));
    lemma_edge_persists(h0, order, i + 1, k, x as int, y);
}

/// Step `i` eliminates the vertex at position `i`, and the positions of an
/// elimination order are a bijection.
pub proof fn lemma_position(order: Seq<u32>, n: int, i: int)
    requires
        is_elimination_order(order, n),
        0 <= i < n,
    ensures
        position(order, order[i]) == i,
{
    order.index_of_first_ensures(order[i]);
    let p = position(order, order[i]);
    assert(order.contains(order[i]));
    order.index_of_first_ensures(order[i]);
}

/// A vertex alive after `k` steps is eliminated at step `k` or later.
pub proof fn lemma_alive_position(order: Seq<u32>, n: int, k: int, v: u32)
    requires
        is_elimination_order(order, n),
        0 <= k <= n,
        v < n,
    ensures
        order.contains(v),
        alive(order, k, v) <==> position(order, v) >= k,
        0 <= position(order, v) < n,
        order[position(order, v)] == v,
{
    assert(order.contains(v)) by {
        // every vertex below n is hit, since n distinct values below n are all of them
        lemma_order_covers(order, n, v);
    }
    order.index_of_first_ensures(v);
    let p = position(order, v);
    if alive(order, k, v) {
        if p < k {
            assert(order.subrange(0, k)[p] == v);
        }
    } else {
        let i = choose|i: int| 0 <= i < k && #[trigger] order.subrange(0, k)[i] == v;
        assert(order[i] == v);
        if p >= k {
            assert(order[p] == order[i]);
        }
    }
}

/// `n` distinct values below `n` hit every value below `n`.
pub proof fn lemma_order_covers(order: Seq<u32>, n: int, v: u32)
    requires
        is_elimination_order(order, n),
        v < n,
    ensures
        order.contains(v),
{
    let s = order.to_set();
    order.unique_seq_to_set();
    let full = Set::new(|x: u32| x < n);
    assert(s.subset_of(full)) by {
        assert forall|x: u32| s.contains(x) implies full.contains(x) by {
            let i = choose|i: int| 0 <= i < order.len() && order[i] == x;
        }
    }
    lemma_full_len(n);
    if !s.contains(v) {
        vstd::set_lib::lemma_len_subset(s.insert(v), full);
    }
}

pub proof fn lemma_full_len(n: int)
    requires
        0 <= n <= u32::MAX + 1,
    ensures
        Set::new(|x: u32| x < n).finite(),
        Set::new(|x: u32| x < n).len() == n,
    decreases n,
{
    if n == 0 {
        assert(Set::new(|x: u32| x < n) =~= Set::<u32>::empty());
    } else {
        lemma_full_len(n - 1);
        assert(Set::new(|x: u32| x < n) =~= Set::new(|x: u32| x < n - 1).insert((n - 1) as u32));
    }
}


/// Positions `a < b` of `bag` hold `x` and `y`, in either order.
pub open spec fn pair_in(bag: Seq<u32>, x: u32, y: u32) -> bool {
    exists|a: int, b: int|
        0 <= a < b < bag.len() && ((#[trigger] bag[a] == x && #[trigger] bag[b] == y) || (bag[a] == y && bag[b] == x))
}

/// Axiom 1: bags hold vertices of `0..n`, and every such vertex is in some bag.
pub open spec fn bags_cover_vertices(bags: Seq<Seq<u32>>, n: int) -> bool {
    &&& forall|i: int, a: int| 0 <= i < bags.len() && 0 <= a < bags[i].len() ==> #[trigger] bags[i][a] < n
    &&& forall|v: u32| v < n ==> #[trigger] in_some_bag(bags, v)
}

pub open spec fn in_some_bag(bags: Seq<Seq<u32>>, v: u32) -> bool {
    exists|i: int| 0 <= i < bags.len() && #[trigger] bags[i].contains(v)
}

/// `i` is the last bag holding `v`.
pub open spec fn is_topmost(bags: Seq<Seq<u32>>, v: u32, i: int) -> bool {
    forall|j: int| i < j < bags.len() ==> !#[trigger] bags[j].contains(v)
}

/// Axiom 3 in parent-pointer form: a vertex in a bag that is not the last bag
/// holding it is also in that bag's parent.
pub open spec fn bags_connected(bags: Seq<Seq<u32>>, parent: Seq<usize>) -> bool {
    forall|i: int, v: u32|
        0 <= i < bags.len() && #[trigger] bags[i].contains(v) && !is_topmost(bags, v, i) ==> {
            &&& parent[i] != usize::MAX
            &&& parent[i] < bags.len()
            &&& bags[parent[i] as int].contains(v)
        }
}

/// The bag members other than the eliminated vertex.
pub open spec fn separator(h0: Seq<Set<u32>>, order: Seq<u32>, i: int) -> Set<u32> {
    elim_graph(h0, order, i)[order[i] as int]
}

/// `p` is the parent the construction assigns to bag `i`: the position of the
/// earliest-eliminated separator vertex, or `usize::MAX` for an empty separator.
pub open spec fn is_game_parent(h0: Seq<Set<u32>>, order: Seq<u32>, i: int, p: usize) -> bool {
    if separator(h0, order, i).is_empty() {
        p == usize::MAX
    } else {
        &&& p < order.len()
        &&& separator(h0, order, i).contains(order[p as int])
        &&& forall|u: u32| #[trigger] separator(h0, order, i).contains(u) ==> position(order, u) >= p
    }
}

/// Separator vertices are eliminated after the bag's own vertex.
proof fn lemma_separator_later(h0: Seq<Set<u32>>, order: Seq<u32>, n: int, i: int, u: u32)
    requires
        is_simple(h0),
        h0.len() == n,
        is_elimination_order(order, n),
        0 <= i < n,
        separator(h0, order, i).contains(u),
    ensures
        u < n,
        u != order[i],
        position(order, u) > i,
{
    lemma_elim_graph_simple(h0, order, i);
    lemma_elim_graph_dead(h0, order, i, order[i] as int, u);
    lemma_alive_position(order, n, i, u);
    lemma_position(order, n, i);
}

/// **Theorem (validity).** Whatever the elimination order, the bags of the
/// elimination game with the earliest-eliminated-separator parent form a tree
/// decomposition: they cover every vertex, every edge lies in a bag, and a
/// vertex in a bag that is not its last is also in the bag's parent.
pub proof fn lemma_game_is_tree_decomposition(
    h0: Seq<Set<u32>>,
    order: Seq<u32>,
    n: int,
    bags: Seq<Seq<u32>>,
    parent: Seq<usize>,
)
    requires
        is_simple(h0),
        h0.len() == n,
        is_elimination_order(order, n),
        bags.len() == n,
        parent.len() == n,
        forall|i: int| 0 <= i < n ==> (#[trigger] bags[i]).no_duplicates(),
        forall|i: int| 0 <= i < n ==> (#[trigger] bags[i]).to_set() == game_bag(h0, order, i),
        forall|i: int| 0 <= i < n ==> is_game_parent(h0, order, i, #[trigger] parent[i]),
    ensures
        bags_cover_vertices(bags, n),
        forall|x: u32, y: u32| x < n && #[trigger] h0[x as int].contains(y) ==> exists|i: int|
            0 <= i < n && #[trigger] pair_in(bags[i], x, y),
        bags_connected(bags, parent),
{
    // Axiom 1.
    assert forall|i: int, a: int| 0 <= i < bags.len() && 0 <= a < bags[i].len() implies #[trigger] bags[i][a] < n by {
        assert(bags[i].to_set().contains(bags[i][a]));
        if bags[i][a] != order[i] {
            lemma_separator_later(h0, order, n, i, bags[i][a]);
        }
    }
    assert forall|v: u32| v < n implies #[trigger] in_some_bag(bags, v) by {
        lemma_alive_position(order, n, 0, v);
        let p = position(order, v);
        assert(bags[p].to_set().contains(v));
    }
    // Axiom 2.
    assert forall|x: u32, y: u32| x < n && #[trigger] h0[x as int].contains(y) implies exists|i: int|
        0 <= i < n && #[trigger] pair_in(bags[i], x, y) by {
        lemma_edge_in_bag(h0, order, n, bags, x, y);
    }
    // Axiom 3.
    assert forall|i: int, v: u32|
        0 <= i < bags.len() && #[trigger] bags[i].contains(v) && !is_topmost(bags, v, i) implies {
            &&& parent[i] != usize::MAX
            &&& parent[i] < bags.len()
            &&& bags[parent[i] as int].contains(v)
        } by {
        lemma_connected_step(h0, order, n, bags, parent, i, v);
    }
}

proof fn lemma_edge_in_bag(h0: Seq<Set<u32>>, order: Seq<u32>, n: int, bags: Seq<Seq<u32>>, x: u32, y: u32)
    requires
        is_simple(h0),
        h0.len() == n,
        is_elimination_order(order, n),
        bags.len() == n,
        forall|i: int| 0 <= i < n ==> (#[trigger] bags[i]).no_duplicates(),
        forall|i: int| 0 <= i < n ==> (#[trigger] bags[i]).to_set() == game_bag(h0, order, i),
        x < n,
        h0[x as int].contains(y),
    ensures
        exists|i: int| 0 <= i < n && #[trigger] pair_in(bags[i], x, y),
{
    assert(y < n);
    assert(x != y);
    assert(h0[y as int].contains(x));
    lemma_alive_position(order, n, 0, x);
    lemma_alive_position(order, n, 0, y);
    let px = position(order, x);
    let py = position(order, y);
    assert(px != py);
    let (a, b, p) = if px < py { (x, y, px) } else { (y, x, py) };
    assert(elim_graph(h0, order, 0) == h0);
    lemma_alive_position(order, n, p, a);
    lemma_alive_position(order, n, p, b);
    lemma_edge_persists(h0, order, 0, p, a as int, b);
    assert(order[p] == a);
    let bag = bags[p];
    assert(bag.to_set().contains(a));
    assert(bag.to_set().contains(b));
    let ia = choose|k: int| 0 <= k < bag.len() && bag[k] == a;
    let ib = choose|k: int| 0 <= k < bag.len() && bag[k] == b;
    assert(ia != ib);
    if ia < ib {
        assert(bag[ia] == a && bag[ib] == b);
    } else {
        assert(bag[ib] == b && bag[ia] == a);
    }
    assert(pair_in(bags[p], x, y));
}

proof fn lemma_connected_step(
    h0: Seq<Set<u32>>,
    order: Seq<u32>,
    n: int,
    bags: Seq<Seq<u32>>,
    parent: Seq<usize>,
    i: int,
    v: u32,
)
    requires
        is_simple(h0),
        h0.len() == n,
        is_elimination_order(order, n),
        bags.len() == n,
        parent.len() == n,
        forall|i: int| 0 <= i < n ==> (#[trigger] bags[i]).to_set() == game_bag(h0, order, i),
        forall|i: int| 0 <= i < n ==> is_game_parent(h0, order, i, #[trigger] parent[i]),
        0 <= i < n,
        bags[i].contains(v),
        !is_topmost(bags, v, i),
    ensures
        parent[i] != usize::MAX,
        parent[i] < bags.len(),
        bags[parent[i] as int].contains(v),
{
    let j = choose|j: int| i < j < bags.len() && #[trigger] bags[j].contains(v);
    assert(bags[i].to_set().contains(v));
    assert(bags[j].to_set().contains(v));
    lemma_position(order, n, i);
    lemma_position(order, n, j);
    if v == order[i] {
        assert(v != order[j]);
        lemma_separator_later(h0, order, n, j, v);
        assert(false);
    }
    assert(separator(h0, order, i).contains(v));
    let p = parent[i];
    assert(!separator(h0, order, i).is_empty());
    let u = order[p as int];
    lemma_separator_later(h0, order, n, i, u);
    lemma_separator_later(h0, order, n, i, v);
    lemma_position(order, n, p as int);
    if v == u {
        assert(bags[p as int].to_set().contains(v));
    } else {
        lemma_alive_position(order, n, p as int, v);
        lemma_alive_position(order, n, p as int, u);
        lemma_alive_position(order, n, 0, v);
        assert(position(order, v) != p);
        lemma_bag_clique(h0, order, i, p as int, u, v);
        assert(bags[p as int].to_set().contains(v));
    }
}


/// The game up to step `k` depends only on the first `k` eliminations.
pub proof fn lemma_elim_graph_prefix(h0: Seq<Set<u32>>, o1: Seq<u32>, o2: Seq<u32>, k: int)
    requires
        0 <= k <= o1.len(),
        k <= o2.len(),
        forall|i: int| 0 <= i < k ==> o1[i] == o2[i],
    ensures
        elim_graph(h0, o1, k) == elim_graph(h0, o2, k),
    decreases k,
{
    if k > 0 {
        lemma_elim_graph_prefix(h0, o1, o2, k - 1);
    }
}

/// Fewer than `n` distinct values below `n` miss one of them.
pub proof fn lemma_some_vertex_left(order: Seq<u32>, n: int)
    requires
        order.len() < n <= u32::MAX,
        order.no_duplicates(),
        forall|i: int| 0 <= i < order.len() ==> (#[trigger] order[i]) < n,
    ensures
        exists|v: u32| v < n && !order.contains(v),
{
    let s = order.to_set();
    order.unique_seq_to_set();
    let full = Set::new(|x: u32| x < n);
    lemma_full_len(n);
    assert(s.subset_of(full)) by {
        assert forall|x: u32| s.contains(x) implies full.contains(x) by {
            let i = choose|i: int| 0 <= i < order.len() && order[i] == x;
        }
    }
    if forall|v: u32| v < n ==> order.contains(v) {
        assert(full.subset_of(s)) by {
            assert forall|x: u32| full.contains(x) implies s.contains(x) by {
                assert(order.contains(x));
            }
        }
        vstd::set_lib::lemma_len_subset(full, s);
    }
}

} // verus!
