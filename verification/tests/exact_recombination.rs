use scip_jack::graph::algorithms::dreyfus_wagner::dreyfus_wagner;
use scip_jack::graph::algorithms::dual_ascent::ArcIndex;
use scip_jack::graph::algorithms::tree_decomposition::MAX_BAG;
use scip_jack::graph::{ArcId, Cost, DirectedGraph, NodeId, NodeType, UndirectedGraph};
use scip_jack::heuristics::exact_recombination::{exact_recombination, grow_and_solve, recombine_pool};
use scip_jack::heuristics::sph::{shortest_path_heuristic, SphResult, SphWorkspace};

/// Work allowance generous enough that only the width cap binds.
const PLENTY: u128 = 90_000_000_000;

/// The largest width the dynamic programme handles.
const WIDEST: usize = 11;

fn xorshift(mut s: u64) -> impl FnMut() -> u64 {
    move || {
        s ^= s << 13;
        s ^= s >> 7;
        s ^= s << 17;
        s
    }
}

fn random_instance(rng: &mut impl FnMut() -> u64, n: u32, k: u32, spread: u64) -> UndirectedGraph {
    let mut g = UndirectedGraph::new(n);
    for v in 1..=n {
        let t = v <= k;
        g.add_node(v, if t { NodeType::Terminal } else { NodeType::Steiner }, 0);
    }
    let mut perm: Vec<u32> = (1..=n).collect();
    for i in (1..perm.len()).rev() {
        perm.swap(i, (rng() % (i as u64 + 1)) as usize);
    }
    for w in perm.windows(2) {
        g.add_edge(w[0], w[1], 1 + rng() % spread);
    }
    for u in 1..=n {
        for v in u + 1..=n {
            if rng() % 100 < 30 {
                g.add_edge(u, v, 1 + rng() % spread);
            }
        }
    }
    g
}

fn terminal_flags(idx: &ArcIndex, terminals: &[NodeId]) -> Vec<bool> {
    let mut is_t = vec![false; idx.num_nodes()];
    for &t in terminals {
        is_t[t as usize] = true;
    }
    is_t
}

fn arc_costs(idx: &ArcIndex) -> Vec<Cost> {
    (0..idx.num_arcs()).map(|a| idx.cost(a as ArcId)).collect()
}

fn reaches_all(idx: &ArcIndex, root: NodeId, arcs: &[ArcId], terminals: &[NodeId]) -> bool {
    let mut reached = vec![false; idx.num_nodes()];
    reached[root as usize] = true;
    let mut changed = true;
    while changed {
        changed = false;
        for &a in arcs {
            if reached[idx.tail(a) as usize] && !reached[idx.head(a) as usize] {
                reached[idx.head(a) as usize] = true;
                changed = true;
            }
        }
    }
    terminals.iter().all(|&t| reached[t as usize])
}

/// Growing the ground set until the width cap binds returns the optimum
/// whenever the cap is loose enough to admit the whole graph, and never
/// something worse than the seed otherwise.
#[test]
fn growing_reaches_the_optimum_when_the_cap_allows() {
    let mut rng = xorshift(0x1357_9BDF_2468_ACE0);
    let mut reached_optimum = 0;
    let mut ran = 0;
    for n in 5..=12u32 {
        for _ in 0..70 {
            let k = 2 + (rng() % (n as u64 - 1).min(4)) as u32;
            let terminals: Vec<NodeId> = (1..=k).collect();
            let g = random_instance(&mut rng, n, k, 15);
            let d = DirectedGraph::from_undirected(&g);
            let idx = ArcIndex::new(&d);
            let active = vec![true; idx.num_arcs()];
            let is_t = terminal_flags(&idx, &terminals);
            let costs = arc_costs(&idx);
            let mut ws = SphWorkspace::new(idx.num_nodes());
            let Some(seed) = shortest_path_heuristic(
                &idx, &active, &costs, terminals[0], terminals[0], &terminals, &is_t, &mut ws,
            ) else {
                continue;
            };
            // A cap of `n` admits any decomposition of an `n`-vertex graph.
            let Some((out, stat)) = grow_and_solve(
                &idx,
                terminals[0],
                &seed.arcs,
                &terminals,
                &is_t,
                &costs,
                n as usize,
                PLENTY,
                None,
            ) else {
                continue;
            };
            ran += 1;
            assert!(out.cost <= seed.cost, "grown {} > seed {}", out.cost, seed.cost);
            let dw = dreyfus_wagner(&g, &terminals).expect("dw");
            assert!(out.cost >= dw.optimal_cost, "grown {} below the optimum {}", out.cost, dw.optimal_cost);
            if out.cost == dw.optimal_cost {
                reached_optimum += 1;
            }
            let sum: Cost = out.arcs.iter().map(|&a| idx.cost(a)).sum();
            assert_eq!(sum, out.cost, "cost {} vs arcs {sum}", out.cost);
            assert!(stat.width as usize <= n as usize);
        }
    }
    assert!(ran > 200, "only {ran} runs");
    assert_eq!(reached_optimum, ran, "{reached_optimum} of {ran} runs reached the optimum");
}

/// Recombining a pool never returns something worse than its best member,
/// and never something below the optimum.
#[test]
fn never_worse_than_the_best_parent() {
    let mut rng = xorshift(0x9E37_79B9_7F4A_7C15);
    let mut exercised = 0;
    for n in 6..=14u32 {
        for _ in 0..60 {
            let k = 2 + (rng() % (n as u64 - 1).min(4)) as u32;
            let terminals: Vec<NodeId> = (1..=k).collect();
            let g = random_instance(&mut rng, n, k, 12);
            let d = DirectedGraph::from_undirected(&g);
            let idx = ArcIndex::new(&d);
            let active = vec![true; idx.num_arcs()];
            let is_t = terminal_flags(&idx, &terminals);
            let costs = arc_costs(&idx);
            let mut ws = SphWorkspace::new(idx.num_nodes());

            let mut pool: Vec<SphResult> = Vec::new();
            for &s0 in &terminals {
                if let Some(r) = shortest_path_heuristic(
                    &idx, &active, &costs, terminals[0], s0, &terminals, &is_t, &mut ws,
                ) {
                    pool.push(r);
                }
            }
            if pool.is_empty() {
                continue;
            }
            let best = pool.iter().map(|r| r.cost).min().unwrap();
            let parents: Vec<Vec<ArcId>> = pool.iter().map(|r| r.arcs.clone()).collect();
            let Some((out, _)) = exact_recombination(
                &idx,
                terminals[0],
                &parents,
                &terminals,
                &is_t,
                MAX_BAG - 1,
                PLENTY,
                None,
            ) else {
                continue;
            };
            exercised += 1;
            assert!(out.cost <= best, "recombined {} > best parent {best}", out.cost);
            let dw = dreyfus_wagner(&g, &terminals).expect("dw");
            assert!(out.cost >= dw.optimal_cost, "recombined {} below the optimum {}", out.cost, dw.optimal_cost);
            assert!(reaches_all(&idx, terminals[0], &out.arcs, &terminals), "not connected");
            let sum: Cost = out.arcs.iter().map(|&a| idx.cost(a)).sum();
            assert_eq!(sum, out.cost, "cost {} vs arcs {sum}", out.cost);
        }
    }
    assert!(exercised > 200, "only {exercised} recombinations ran");
}

/// A square 1-2-3-4 with a diagonal 1-3 of cost 3 and sides of cost 2.
/// Terminals 1 and 3. Each parent takes a two-side path (cost 4); the
/// induced ground set holds the diagonal, which is the optimum.
fn square() -> (UndirectedGraph, Vec<NodeId>) {
    let mut g = UndirectedGraph::new(4);
    for v in 1..=4 {
        let t = v == 1 || v == 3;
        g.add_node(v, if t { NodeType::Terminal } else { NodeType::Steiner }, 0);
    }
    g.add_edge(1, 2, 2);
    g.add_edge(2, 3, 2);
    g.add_edge(3, 4, 2);
    g.add_edge(4, 1, 2);
    g.add_edge(1, 3, 3);
    (g, vec![1, 3])
}

fn arc_between(idx: &ArcIndex, u: NodeId, w: NodeId) -> ArcId {
    (0..idx.num_arcs() as ArcId).find(|&a| idx.tail(a) == u && idx.head(a) == w).unwrap()
}

#[test]
fn induced_ground_set_finds_the_diagonal() {
    let (g, terminals) = square();
    let d = DirectedGraph::from_undirected(&g);
    let idx = ArcIndex::new(&d);
    let is_t = terminal_flags(&idx, &terminals);
    let p1 = vec![arc_between(&idx, 1, 2), arc_between(&idx, 2, 3)];
    let p2 = vec![arc_between(&idx, 1, 4), arc_between(&idx, 4, 3)];
    let (out, stat) = exact_recombination(&idx, 1, &vec![p1, p2], &terminals, &is_t, WIDEST, PLENTY, None)
        .expect("the union decomposes");
    assert_eq!(out.cost, 3);
    assert_eq!(stat.cost, 3);
    assert!(stat.induced);
    assert_eq!(stat.nodes, 4);
    assert_eq!(out.arcs, vec![arc_between(&idx, 1, 3)]);
}

#[test]
fn no_parent_gives_nothing() {
    let (g, terminals) = square();
    let d = DirectedGraph::from_undirected(&g);
    let idx = ArcIndex::new(&d);
    let is_t = terminal_flags(&idx, &terminals);
    assert!(exact_recombination(&idx, 1, &Vec::new(), &terminals, &is_t, WIDEST, PLENTY, None).is_none());
    assert!(recombine_pool(&idx, 1, &Vec::new(), &terminals, &is_t, WIDEST, PLENTY, None).is_none());
}

#[test]
fn terminal_outside_the_parents_gives_nothing() {
    let (g, terminals) = square();
    let d = DirectedGraph::from_undirected(&g);
    let idx = ArcIndex::new(&d);
    let is_t = terminal_flags(&idx, &terminals);
    // A parent that only reaches vertex 2 misses terminal 3.
    let p = vec![arc_between(&idx, 1, 2)];
    assert!(exact_recombination(&idx, 1, &vec![p.clone()], &terminals, &is_t, WIDEST, PLENTY, None).is_none());
    let pool = vec![SphResult { arcs: p.clone(), cost: 2 }];
    assert!(recombine_pool(&idx, 1, &pool, &terminals, &is_t, WIDEST, PLENTY, None).is_none());
    assert!(grow_and_solve(&idx, 1, &p, &terminals, &is_t, &arc_costs(&idx), WIDEST, PLENTY, None).is_none());
}

#[test]
fn pool_recombination_takes_every_member_the_cap_admits() {
    let (g, terminals) = square();
    let d = DirectedGraph::from_undirected(&g);
    let idx = ArcIndex::new(&d);
    let is_t = terminal_flags(&idx, &terminals);
    let pool = vec![
        SphResult { arcs: vec![arc_between(&idx, 1, 2), arc_between(&idx, 2, 3)], cost: 4 },
        SphResult { arcs: vec![arc_between(&idx, 1, 4), arc_between(&idx, 4, 3)], cost: 4 },
    ];
    let (out, _) = recombine_pool(&idx, 1, &pool, &terminals, &is_t, WIDEST, PLENTY, None).expect("solvable");
    assert_eq!(out.cost, 3);
}

#[test]
fn a_width_cap_of_zero_admits_no_edge() {
    let (g, terminals) = square();
    let d = DirectedGraph::from_undirected(&g);
    let idx = ArcIndex::new(&d);
    let is_t = terminal_flags(&idx, &terminals);
    let seed = vec![arc_between(&idx, 1, 2), arc_between(&idx, 2, 3)];
    assert!(grow_and_solve(&idx, 1, &seed, &terminals, &is_t, &arc_costs(&idx), 0, PLENTY, None).is_none());
    // With room, growing from the two-side path reaches the diagonal.
    let (out, stat) = grow_and_solve(&idx, 1, &seed, &terminals, &is_t, &arc_costs(&idx), WIDEST, PLENTY, None)
        .expect("solvable");
    assert_eq!(out.cost, 3);
    assert!(!stat.induced);
    assert_eq!(stat.cost, 3);
}

#[test]
fn a_work_allowance_of_zero_admits_nothing() {
    let (g, terminals) = square();
    let d = DirectedGraph::from_undirected(&g);
    let idx = ArcIndex::new(&d);
    let is_t = terminal_flags(&idx, &terminals);
    let seed = vec![arc_between(&idx, 1, 2), arc_between(&idx, 2, 3)];
    assert!(grow_and_solve(&idx, 1, &seed, &terminals, &is_t, &arc_costs(&idx), WIDEST, 0, None).is_none());
}
