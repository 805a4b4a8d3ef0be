use astar::astar;

/// Consumes a path completely and returns the emitted node sequence.
fn collect_path(mut p: astar::Path) -> Vec<usize> {
    let mut out: Vec<usize> = Vec::new();
    while let Some(n) = p.next() {
        out.push(n);
        assert!(out.len() <= 64, "path walk did not terminate");
    }
    out
}

/// Minimum route cost from `cur` to `goal` over the edge list, by exhaustive
/// search; the independent reference for shortest-path checks.
fn brute_force_min_cost(
    adj: &Vec<(usize, usize, u64)>,
    cur: usize,
    goal: usize,
    visited: &mut Vec<usize>,
) -> Option<u64> {
    if cur == goal {
        return Some(0);
    }
    visited.push(cur);
    let mut best: Option<u64> = None;
    for &(a, b, c) in adj.iter() {
        if a == cur && !visited.contains(&b) {
            if let Some(rest) = brute_force_min_cost(adj, b, goal, visited) {
                let total = c + rest;
                best = Some(match best {
                    None => total,
                    Some(x) => {
                        if total < x {
                            total
                        } else {
                            x
                        }
                    }
                });
            }
        }
    }
    visited.pop();
    best
}

/// Total cost of a full route (consecutive nodes) under an edge list.
fn route_cost(adj: &Vec<(usize, usize, u64)>, route: &Vec<usize>) -> u64 {
    let mut total: u64 = 0;
    for w in route.windows(2) {
        let c = adj
            .iter()
            .find(|&&(a, b, _)| a == w[0] && b == w[1])
            .map(|&(_, _, c)| c)
            .expect("route uses a missing edge");
        total += c;
    }
    total
}

fn chain_reachable(n: usize) -> Vec<usize> {
    if n < 4 {
        vec![n + 1]
    } else {
        vec![]
    }
}

#[test]
fn start_is_goal_returns_absence() {
    // The start node satisfies the goal test: absence, never a trivial path.
    let r = astar(4, chain_reachable, |n| n == 4, |_| 0, |_, _| 1);
    assert!(r.is_none());
}

#[test]
fn start_is_goal_wins_over_reachable_goals() {
    // Even with another goal right next door, a goal-satisfying start means
    // absence: the precheck decides before any expansion.
    let r = astar(
        0,
        |_n: usize| vec![1],
        |n| n == 0 || n == 1,
        |_| 0,
        |_, _| 1,
    );
    assert!(r.is_none());
}

#[test]
fn chain_path_enumeration() {
    // Chain 0-1-2-3-4, unit costs, zero heuristic: the path yields exactly
    // [4, 3, 2, 1] - goal first, start excluded.
    let r = astar(0, chain_reachable, |n| n == 4, |_| 0, |_, _| 1);
    let p = r.expect("goal 4 is reachable along the chain");
    assert_eq!(collect_path(p), vec![4, 3, 2, 1]);
}

#[test]
fn path_is_exhausted_after_consumption() {
    let r = astar(0, chain_reachable, |n| n == 4, |_| 0, |_, _| 1);
    let mut p = r.unwrap();
    while p.next().is_some() {}
    assert!(p.next().is_none());
    assert!(p.next().is_none());
}

#[test]
fn goal_adjacent_to_start() {
    // The goal is generated directly from the start's expansion: the path
    // holds the goal node alone.
    let r = astar(0, |_n: usize| vec![5], |n| n == 5, |_| 0, |_, _| 7);
    let p = r.expect("goal 5 is one step away");
    assert_eq!(collect_path(p), vec![5]);
}

#[test]
fn shortest_path_matches_brute_force() {
    // Diamond with a detour: 0->1 (1), 0->2 (4), 1->3 (1), 2->3 (1), 3->4 (1).
    // Zero heuristic is consistent and admissible; node 3 is the goal's only
    // predecessor. The returned route's cost must equal the brute-force
    // optimum.
    let adj: Vec<(usize, usize, u64)> = vec![(0, 1, 1), (0, 2, 4), (1, 3, 1), (2, 3, 1), (3, 4, 1)];
    let edges = adj.clone();
    let reachable = move |n: usize| -> Vec<usize> {
        edges.iter().filter(|&&(a, _, _)| a == n).map(|&(_, b, _)| b).collect()
    };
    let costs = adj.clone();
    let edge_cost = move |a: usize, b: usize| -> u64 {
        costs.iter().find(|&&(x, y, _)| x == a && y == b).map(|&(_, _, c)| c).unwrap()
    };
    let r = astar(0, reachable, |n| n == 4, |_| 0, edge_cost);
    let p = r.expect("goal 4 is reachable");

    let mut route = collect_path(p);
    route.push(0);
    route.reverse();
    assert_eq!(*route.first().unwrap(), 0);
    assert_eq!(*route.last().unwrap(), 4);

    let expected = brute_force_min_cost(&adj, 0, 4, &mut Vec::new()).unwrap();
    assert_eq!(expected, 3);
    assert_eq!(route_cost(&adj, &route), expected);
}

#[test]
fn unreachable_goal_returns_absence() {
    // No node reachable from 0 satisfies the goal test: the frontier is
    // exhausted and the search reports absence in finite time.
    let r = astar(0, |n: usize| if n < 2 { vec![n + 1] } else { vec![] }, |n| n == 9, |_| 0, |_, _| 1);
    assert!(r.is_none());
}

#[test]
fn relaxation_prefers_cheaper_route() {
    // Node 3 is first reached through 1 at f = 11, then - before 3 is
    // closed - through 2 at f = 3. The record used for reconstruction must
    // reflect the cheaper route's parent, so the path runs through 2.
    let reachable = |n: usize| -> Vec<usize> {
        match n {
            0 => vec![1, 2],
            1 => vec![3],
            2 => vec![3],
            3 => vec![4],
            _ => vec![],
        }
    };
    let edge_cost = |a: usize, b: usize| -> u64 {
        match (a, b) {
            (0, 1) => 1,
            (0, 2) => 2,
            (1, 3) => 10,
            (2, 3) => 1,
            (3, 4) => 1,
            _ => unreachable!(),
        }
    };
    let r = astar(0, reachable, |n| n == 4, |_| 0, edge_cost);
    let p = r.expect("goal 4 is reachable");
    assert_eq!(collect_path(p), vec![4, 3, 2]);
}

#[test]
fn zero_cost_search_finds_reachable_goal() {
    // With both cost collaborators constantly zero the search is pure
    // reachability: any reachable goal is reported. The tie-break among
    // equally costed candidates is unspecified, so only route validity is
    // asserted, not expansion order.
    let reachable = |n: usize| -> Vec<usize> {
        match n {
            0 => vec![1, 2],
            1 => vec![3],
            2 => vec![],
            _ => vec![],
        }
    };
    let r = astar(0, reachable, |n| n == 3, |_| 0, |_, _| 0);
    let p = r.expect("goal 3 is reachable through 1");
    let mut route = collect_path(p);
    assert_eq!(route[0], 3);
    route.push(0);
    route.reverse();
    for w in route.windows(2) {
        assert!(reachable(w[0]).contains(&w[1]), "route step is not an edge");
    }
}

#[test]
fn zero_cost_search_reports_unreachable_goal() {
    let reachable = |n: usize| -> Vec<usize> {
        match n {
            0 => vec![1, 2],
            1 => vec![0],
            2 => vec![2],
            _ => vec![],
        }
    };
    let r = astar(0, reachable, |n| n == 7, |_| 0, |_, _| 0);
    assert!(r.is_none());
}

#[test]
fn cyclic_graph_terminates_and_finds_goal() {
    // The closed set keeps the cycle 0 -> 1 -> 2 -> 0 from being re-expanded.
    let reachable = |n: usize| -> Vec<usize> {
        match n {
            0 => vec![1],
            1 => vec![2],
            2 => vec![0, 3],
            _ => vec![],
        }
    };
    let r = astar(0, reachable, |n| n == 3, |_| 0, |_, _| 1);
    let p = r.expect("goal 3 is reachable around the cycle");
    assert_eq!(collect_path(p), vec![3, 2, 1]);
}

#[test]
fn huge_costs_saturate_without_overflow() {
    // g and f arithmetic saturates at u64::MAX instead of overflowing.
    let r = astar(
        0,
        |n: usize| if n < 2 { vec![n + 1] } else { vec![] },
        |n| n == 2,
        |_| u64::MAX,
        |_, _| u64::MAX,
    );
    let p = r.expect("goal 2 is reachable");
    assert_eq!(collect_path(p), vec![2, 1]);
}
