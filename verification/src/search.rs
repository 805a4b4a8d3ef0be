//! The search driver: the priority-driven expansion loop at the core of the
//! kernel.

use crate::frontier::OpenList;
use crate::frontier::OpenListElement;
use crate::measure::lemma_measure_fresh;
use crate::measure::lemma_measure_nonneg;
use crate::measure::lemma_measure_update;
use crate::measure::loop_measure;
use crate::path::Path;
use crate::store::ClosedSet;
use crate::store::NodeInfo;
use crate::store::RecordStore;
use crate::store::sum_costs;
use vstd::prelude::*;

verus! {

/// Whether `b` can be enumerated as a successor of `a`: some return value
/// that the successor enumeration admits for `a` contains `b`.
pub open spec fn is_edge<Fr: Fn(usize) -> Vec<usize>>(reachable: Fr, a: usize, b: usize) -> bool {
    exists|v: Vec<usize>| #[trigger] call_ensures(reachable, (a,), v) && v@.contains(b)
}

/// The node reached from `n` after following `k` parent links of `pm`.
pub open spec fn walk(pm: Map<usize, usize>, n: usize, k: nat) -> usize
    decreases k,
{
    if k == 0 {
        n
    } else {
        walk(pm, pm[n], (k - 1) as nat)
    }
}

/// A finalized node's parent chain reaches `start`: parent links of
/// finalized nodes lead to nodes finalized strictly earlier, so the chain
/// cannot revisit a node and must bottom out at `start`. The finalization
/// order is witnessed by `rank`.
proof fn lemma_reaches_start(
    pm: Map<usize, usize>,
    cl: Set<usize>,
    rank: Map<usize, nat>,
    start: usize,
    n: usize,
)
    requires
        rank.dom() == cl,
        forall|m: usize| #[trigger] pm.contains_key(m) ==> pm.contains_key(pm[m]),
        forall|m: usize| #[trigger] pm.contains_key(m) && m != start ==> cl.contains(pm[m]),
        forall|m: usize| #[trigger]
            cl.contains(m) && pm.contains_key(m) && m != start ==> rank[pm[m]] < rank[m],
        pm.contains_key(n),
        cl.contains(n),
    ensures
        exists|k: nat| walk(pm, n, k) == start,
    decreases rank[n],
{
    if n == start {
        assert(walk(pm, n, 0) == start);
    } else {
        let p = pm[n];
        lemma_reaches_start(pm, cl, rank, start, p);
        let k = choose|k: nat| walk(pm, p, k) == start;
        assert(walk(pm, n, (k + 1) as nat) == start);
    }
}

/// Whether `b` can be reached from `a` in exactly `k` successor steps.
pub open spec fn reach_in<Fr: Fn(usize) -> Vec<usize>>(
    reachable: Fr,
    a: usize,
    b: usize,
    k: nat,
) -> bool
    decreases k,
{
    if k == 0 {
        a == b
    } else {
        exists|mid: usize|
            reach_in(reachable, a, mid, (k - 1) as nat) && #[trigger] is_edge(reachable, mid, b)
    }
}

/// A finalized node has been fully expanded: every successor it can
/// enumerate has tested negative for the goal and is itself finalized or
/// still queued on the frontier.
spec fn expanded<Fr: Fn(usize) -> Vec<usize>, Fg: Fn(usize) -> bool>(
    reachable: Fr,
    goal_test: Fg,
    cl: Set<usize>,
    open: Seq<OpenListElement>,
    n: usize,
) -> bool {
    forall|b: usize| #[trigger]
        is_edge(reachable, n, b) ==> call_ensures(goal_test, (b,), false) && (cl.contains(b)
            || exists|jj: int| 0 <= jj < open.len() && (#[trigger] open[jj]).id == b)
}

/// Once the frontier is empty, the finalized set is closed under successor
/// steps: everything reachable from the start is finalized, and has tested
/// negative for the goal.
proof fn lemma_closed_under_expansion<Fr: Fn(usize) -> Vec<usize>, Fg: Fn(usize) -> bool>(
    reachable: Fr,
    goal_test: Fg,
    cl: Set<usize>,
    open: Seq<OpenListElement>,
    start: usize,
    m: usize,
    k: nat,
)
    requires
        open.len() == 0,
        cl.contains(start),
        forall|n: usize| #[trigger]
            cl.contains(n) ==> expanded(reachable, goal_test, cl, open, n),
        reach_in(reachable, start, m, k),
    ensures
        cl.contains(m),
        m != start ==> call_ensures(goal_test, (m,), false),
    decreases k,
{
    if k > 0 {
        let mid = choose|mid: usize|
            reach_in(reachable, start, mid, (k - 1) as nat) && #[trigger] is_edge(
                reachable,
                mid,
                m,
            );
        lemma_closed_under_expansion(reachable, goal_test, cl, open, start, mid, (k - 1) as nat);
        assert(expanded(reachable, goal_test, cl, open, mid));
        assert(cl.contains(m));
    }
}

/// Finds a route from `start` to a node satisfying `is_goal`, driven by the
/// priority `f = g + h` where `g` accumulates `edge_cost` along the route
/// found so far and `h` is the `goal_cost` estimate. Cost arithmetic
/// saturates at `u64::MAX`.
///
/// The result is absent both when `start` itself satisfies the goal test (a
/// deliberate contract: no zero-length path is ever produced) and when the
/// frontier is exhausted without a goal match; the two failures are not
/// distinguished.
///
/// Two rules are deliberate design choices, kept as stated: a node is
/// finalized on its first extraction from the frontier, without re-checking
/// staleness against the record store; and relaxation replaces a record
/// exactly when the candidate's `f` is strictly below the stored `f` (it
/// compares `f`, not `g`, so with an inconsistent heuristic an accepted
/// update need not improve `g`).
///
/// The collaborators are expected to behave as pure functions of their
/// arguments, which the contract demands of `is_goal` and `reachable`. The
/// contract then pins down: a present result is a genuine route — its nodes
/// walk recorded parent links, every link is an enumerable edge, the walk
/// starts at a node satisfying the goal test and reaches `start` after
/// finitely many steps without yielding it; and an absent result (with a
/// start that fails the goal test) means no node reachable from `start` by
/// any number of successor steps satisfies the goal test. Which route is
/// returned, and its cost, are not pinned down: finalizing on first
/// extraction means the route found need not be the cheapest one.
///
/// start: node id to start from
/// reachable: returns list of neighbours/nodes reachable from param node
/// is_goal: is the param node a goal/destination? (end search)
/// goal_cost: estimated distance from node to goal/destination
/// edge_cost: transition cost between two neighbouring nodes
#[verifier::rlimit(60)]
pub fn astar<Fr, Fg, Fh, Fc>(
    start: usize,
    reachable: Fr,
    is_goal: Fg,
    goal_cost: Fh,
    edge_cost: Fc,
) -> (r: Option<Path>) where
    Fg: Fn(usize) -> bool,
    Fh: Fn(usize) -> u64,
    Fr: Fn(usize) -> Vec<usize>,
    Fc: Fn(usize, usize) -> u64,

    requires
        forall|n: usize| #[trigger] call_requires(reachable, (n,)),
        forall|n: usize| #[trigger] call_requires(is_goal, (n,)),
        forall|n: usize| #[trigger] call_requires(goal_cost, (n,)),
        forall|a: usize, b: usize| #[trigger] call_requires(edge_cost, (a, b)),
        forall|n: usize, b1: bool, b2: bool|
            #![trigger call_ensures(is_goal, (n,), b1), call_ensures(is_goal, (n,), b2)]
            call_ensures(is_goal, (n,), b1) && call_ensures(is_goal, (n,), b2) ==> b1 == b2,
        forall|n: usize, v1: Vec<usize>, v2: Vec<usize>|
            #![trigger call_ensures(reachable, (n,), v1), call_ensures(reachable, (n,), v2)]
            call_ensures(reachable, (n,), v1) && call_ensures(reachable, (n,), v2) ==> v1@ == v2@,
    ensures
        call_ensures(is_goal, (start,), true) ==> r is None,
        call_ensures(is_goal, (start,), false) && r is None ==> forall|m: usize, k: nat|
            #[trigger] reach_in(reachable, start, m, k) ==> call_ensures(is_goal, (m,), false),
        r matches Some(p) ==> {
            &&& p.wf()
            &&& p.boundary() == start
            &&& p.parent_map().contains_key(start)
            &&& p.parent_map()[start] == start
            &&& p.cursor() != start
            &&& call_ensures(is_goal, (p.cursor(),), true)
            &&& forall|n: usize|
                #[trigger] p.parent_map().contains_key(n) && n != start ==> is_edge(
                    reachable,
                    p.parent_map()[n],
                    n,
                )
            &&& exists|k: nat| walk(p.parent_map(), p.cursor(), k) == start
        },
{
    if is_goal(start) {
        return None;
    }
    let mut closed = ClosedSet::new();
    let mut open = OpenList::new();
    let mut infos = RecordStore::new();

    infos.put(start, NodeInfo::new(0, 0, start));
    open.push(OpenListElement::new(0, start));

    // The order in which nodes are finalized, as a ghost certificate: parent
    // links always lead to nodes finalized strictly earlier, which is what
    // lets the returned path's walk be shown to reach the start.
    let ghost mut rank: Map<usize, nat> = Map::empty();
    let ghost mut stamp: nat = 0;

    proof {
        assert((open@[0]).id == start);
    }
    while open.len() != 0
        invariant
            forall|n: usize| #[trigger] call_requires(reachable, (n,)),
            forall|n: usize| #[trigger] call_requires(is_goal, (n,)),
            forall|n: usize| #[trigger] call_requires(goal_cost, (n,)),
            forall|a: usize, b: usize| #[trigger] call_requires(edge_cost, (a, b)),
            forall|n: usize, b1: bool, b2: bool|
                #![trigger call_ensures(is_goal, (n,), b1), call_ensures(is_goal, (n,), b2)]
                call_ensures(is_goal, (n,), b1) && call_ensures(is_goal, (n,), b2) ==> b1 == b2,
            call_ensures(is_goal, (start,), false),
            infos@.dom().finite(),
            infos@.contains_key(start),
            infos@[start].parent == start,
            forall|n: usize| #[trigger]
                infos@.contains_key(n) ==> infos@.contains_key(infos@[n].parent),
            forall|n: usize| #[trigger]
                infos@.contains_key(n) && n != start ==> is_edge(reachable, infos@[n].parent, n),
            forall|j: int| 0 <= j < open@.len() ==> infos@.contains_key(#[trigger] open@[j].id),
            forall|j: int|
                0 <= j < open@.len() ==> call_ensures(is_goal, ((#[trigger] open@[j]).id,), false),
            forall|n: usize| #[trigger]
                closed@.contains(n) ==> call_ensures(is_goal, (n,), false),
            rank.dom() == closed@,
            forall|n: usize| #[trigger] closed@.contains(n) ==> rank[n] < stamp,
            forall|n: usize| #[trigger]
                infos@.contains_key(n) && n != start ==> closed@.contains(infos@[n].parent),
            forall|n: usize| #[trigger]
                closed@.contains(n) && infos@.contains_key(n) && n != start ==> rank[infos@[n].parent]
                    < rank[n],
            forall|n: usize, v1: Vec<usize>, v2: Vec<usize>|
                #![trigger call_ensures(reachable, (n,), v1), call_ensures(reachable, (n,), v2)]
                call_ensures(reachable, (n,), v1) && call_ensures(reachable, (n,), v2) ==> v1@
                    == v2@,
            forall|m: usize| #[trigger]
                infos@.contains_key(m) ==> closed@.contains(m) || (exists|jj: int|
                    0 <= jj < open@.len() && (#[trigger] open@[jj]).id == m),
            forall|n: usize| #[trigger]
                closed@.contains(n) ==> expanded(reachable, is_goal, closed@, open@, n),
            closed@.contains(start) || (open@.len() == 1 && open@[0].id == start),
        decreases loop_measure(infos@, open@.len()),
    {
        let ghost pre_open = open@;
        let ghost pre_closed = closed@;
        proof {
            lemma_measure_nonneg(infos@, open@.len());
        }
        let element = open.pop_min().unwrap();
        let parent_id = element.id;
        closed.insert(parent_id);
        proof {
            let idx: int = choose|idx: int|
                0 <= idx < pre_open.len() && element == pre_open[idx] && open@ == pre_open.remove(
                    idx,
                );
            assert(open@.len() == pre_open.len() - 1);
            assert(infos@.contains_key(parent_id));
            assert(call_ensures(is_goal, (parent_id,), false));
            assert forall|j: int| 0 <= j < open@.len() implies infos@.contains_key(
                #[trigger] open@[j].id,
            ) && call_ensures(is_goal, (open@[j].id,), false) by {
                if j < idx {
                    assert(open@[j] == pre_open[j]);
                } else {
                    assert(open@[j] == pre_open[j + 1]);
                }
            }
            if !pre_closed.contains(start) {
                assert(parent_id == start);
            }
            assert(closed@.contains(start));
            if !pre_closed.contains(parent_id) {
                rank = rank.insert(parent_id, stamp);
                stamp = stamp + 1;
            }
            assert forall|m: usize| #[trigger] infos@.contains_key(m) implies closed@.contains(m)
                || (exists|jj: int| 0 <= jj < open@.len() && (#[trigger] open@[jj]).id == m) by {
                if m != parent_id && !pre_closed.contains(m) {
                    let jj = choose|jj: int| 0 <= jj < pre_open.len() && (#[trigger] pre_open[jj]).id == m;
                    if jj < idx {
                        assert(open@[jj] == pre_open[jj]);
                    } else {
                        assert(jj != idx);
                        assert(open@[jj - 1] == pre_open[jj]);
                    }
                }
            }
            assert forall|n: usize| #[trigger]
                closed@.contains(n) && n != parent_id implies expanded(
                reachable,
                is_goal,
                closed@,
                open@,
                n,
            ) by {
                assert(expanded(reachable, is_goal, pre_closed, pre_open, n));
                assert forall|b: usize| #[trigger] is_edge(reachable, n, b) implies call_ensures(
                    is_goal,
                    (b,),
                    false,
                ) && (closed@.contains(b) || exists|jj: int|
                    0 <= jj < open@.len() && (#[trigger] open@[jj]).id == b) by {
                    if !pre_closed.contains(b) && b != parent_id {
                        let jj = choose|jj: int|
                            0 <= jj < pre_open.len() && (#[trigger] pre_open[jj]).id == b;
                        if jj < idx {
                            assert(open@[jj] == pre_open[jj]);
                        } else {
                            assert(jj != idx);
                            assert(open@[jj - 1] == pre_open[jj]);
                        }
                    }
                }
            }
        }
        let ghost mid_measure = loop_measure(infos@, open@.len());
        proof {
            assert(mid_measure == loop_measure(infos@, pre_open.len()) - 1);
        }
        let neighbours = reachable(parent_id);

        let mut i: usize = 0;
        while i < neighbours.len()
            invariant
                forall|n: usize| #[trigger] call_requires(reachable, (n,)),
                forall|n: usize| #[trigger] call_requires(is_goal, (n,)),
                forall|n: usize| #[trigger] call_requires(goal_cost, (n,)),
                forall|a: usize, b: usize| #[trigger] call_requires(edge_cost, (a, b)),
                forall|n: usize, b1: bool, b2: bool|
                    #![trigger call_ensures(is_goal, (n,), b1), call_ensures(is_goal, (n,), b2)]
                    call_ensures(is_goal, (n,), b1) && call_ensures(is_goal, (n,), b2) ==> b1
                        == b2,
                call_ensures(is_goal, (start,), false),
                infos@.dom().finite(),
                infos@.contains_key(start),
                infos@[start].parent == start,
                forall|n: usize| #[trigger]
                    infos@.contains_key(n) ==> infos@.contains_key(infos@[n].parent),
                forall|n: usize| #[trigger]
                    infos@.contains_key(n) && n != start ==> is_edge(
                        reachable,
                        infos@[n].parent,
                        n,
                    ),
                forall|j: int| 0 <= j < open@.len() ==> infos@.contains_key(#[trigger] open@[j].id),
                forall|j: int|
                    0 <= j < open@.len() ==> call_ensures(
                        is_goal,
                        ((#[trigger] open@[j]).id,),
                        false,
                    ),
                forall|n: usize| #[trigger]
                    closed@.contains(n) ==> call_ensures(is_goal, (n,), false),
                rank.dom() == closed@,
                forall|n: usize| #[trigger] closed@.contains(n) ==> rank[n] < stamp,
                forall|n: usize| #[trigger]
                    infos@.contains_key(n) && n != start ==> closed@.contains(infos@[n].parent),
                forall|n: usize| #[trigger]
                    closed@.contains(n) && infos@.contains_key(n) && n != start
                        ==> rank[infos@[n].parent] < rank[n],
                forall|n: usize, v1: Vec<usize>, v2: Vec<usize>|
                    #![trigger call_ensures(reachable, (n,), v1), call_ensures(reachable, (n,), v2)]
                    call_ensures(reachable, (n,), v1) && call_ensures(reachable, (n,), v2) ==> v1@
                        == v2@,
                forall|m: usize| #[trigger]
                    infos@.contains_key(m) ==> closed@.contains(m) || (exists|jj: int|
                        0 <= jj < open@.len() && (#[trigger] open@[jj]).id == m),
                forall|n: usize| #[trigger]
                    closed@.contains(n) && n != parent_id ==> expanded(
                        reachable,
                        is_goal,
                        closed@,
                        open@,
                        n,
                    ),
                forall|j: int|
                    0 <= j < i ==> call_ensures(is_goal, (#[trigger] neighbours@[j],), false) && (
                    closed@.contains(neighbours@[j]) || (exists|jj: int|
                        0 <= jj < open@.len() && (#[trigger] open@[jj]).id == neighbours@[j])),
                closed@.contains(start),
                closed@.contains(parent_id),
                infos@.contains_key(parent_id),
                call_ensures(reachable, (parent_id,), neighbours),
                i <= neighbours@.len(),
                loop_measure(infos@, open@.len()) <= mid_measure,
            decreases neighbours@.len() - i,
        {
            let neighbour_id = neighbours[i];
            proof {
                assert(neighbours@[i as int] == neighbour_id);
                assert(neighbours@.contains(neighbour_id));
                assert(is_edge(reachable, parent_id, neighbour_id));
            }
            if is_goal(neighbour_id) {
                proof {
                    if neighbour_id == start {
                        assert(call_ensures(is_goal, (start,), true));
                        assert(false);
                    }
                    if closed@.contains(neighbour_id) {
                        assert(call_ensures(is_goal, (neighbour_id,), false));
                        assert(false);
                    }
                }
                infos.put(neighbour_id, NodeInfo::new(0, 0, parent_id));
                let ghost infos_final = infos@;
                let path = Path::new(infos, neighbour_id, start);
                proof {
                    let pm = path.parent_map();
                    assert forall|m: usize| #[trigger] pm.contains_key(m) implies pm.contains_key(
                        pm[m],
                    ) by {
                        assert(infos_final.contains_key(infos_final[m].parent));
                    }
                    assert forall|m: usize| #[trigger]
                        pm.contains_key(m) && m != start implies closed@.contains(pm[m]) by {
                        if m != neighbour_id {
                            assert(closed@.contains(infos_final[m].parent));
                        }
                    }
                    assert forall|m: usize| #[trigger]
                        closed@.contains(m) && pm.contains_key(m) && m != start implies rank[pm[m]]
                        < rank[m] by {
                        assert(m != neighbour_id);
                        assert(rank[infos_final[m].parent] < rank[m]);
                    }
                    lemma_reaches_start(pm, closed@, rank, start, parent_id);
                    let k = choose|k: nat| walk(pm, parent_id, k) == start;
                    assert(pm[neighbour_id] == parent_id);
                    assert(walk(pm, neighbour_id, (k + 1) as nat) == start);
                }
                return Some(path);
            }
            if !closed.contains(neighbour_id) {
                let g_via = sum_costs(
                    infos.get(parent_id).unwrap().g,
                    edge_cost(parent_id, neighbour_id),
                );
                let node_info = NodeInfo::new(g_via, goal_cost(neighbour_id), parent_id);

                let replace = match infos.get(neighbour_id) {
                    None => true,
                    Some(existing) => existing.f > node_info.f,
                };
                if replace {
                    let ghost infos0 = infos@;
                    let ghost open0 = open@;
                    open.push(OpenListElement::new(node_info.f, neighbour_id));
                    infos.put(neighbour_id, node_info);
                    proof {
                        assert(neighbour_id != start);
                        if infos0.dom().contains(neighbour_id) {
                            lemma_measure_update(infos0, open0.len(), neighbour_id, node_info);
                        } else {
                            lemma_measure_fresh(infos0, open0.len(), neighbour_id, node_info);
                        }
                        assert(loop_measure(infos@, open@.len()) <= loop_measure(
                            infos0,
                            open0.len(),
                        ));
                        assert((open@[open@.len() - 1]).id == neighbour_id);
                        assert forall|m: usize| #[trigger] infos@.contains_key(m) implies closed@
                            .contains(m) || (exists|jj: int|
                            0 <= jj < open@.len() && (#[trigger] open@[jj]).id == m) by {
                            if m != neighbour_id && !closed@.contains(m) {
                                let jj = choose|jj: int|
                                    0 <= jj < open0.len() && (#[trigger] open0[jj]).id == m;
                                assert(open@[jj] == open0[jj]);
                            }
                        }
                        assert forall|n: usize| #[trigger]
                            closed@.contains(n) && n != parent_id implies expanded(
                            reachable,
                            is_goal,
                            closed@,
                            open@,
                            n,
                        ) by {
                            assert(expanded(reachable, is_goal, closed@, open0, n));
                            assert forall|b: usize| #[trigger]
                                is_edge(reachable, n, b) implies call_ensures(is_goal, (b,), false)
                                && (closed@.contains(b) || exists|jj: int|
                                0 <= jj < open@.len() && (#[trigger] open@[jj]).id == b) by {
                                if !closed@.contains(b) {
                                    let jj = choose|jj: int|
                                        0 <= jj < open0.len() && (#[trigger] open0[jj]).id == b;
                                    assert(open@[jj] == open0[jj]);
                                }
                            }
                        }
                        assert forall|j: int| 0 <= j < i implies call_ensures(
                            is_goal,
                            (#[trigger] neighbours@[j],),
                            false,
                        ) && (closed@.contains(neighbours@[j]) || (exists|jj: int|
                            0 <= jj < open@.len() && (#[trigger] open@[jj]).id == neighbours@[j]))
                            by {
                            if !closed@.contains(neighbours@[j]) {
                                let jj = choose|jj: int|
                                    0 <= jj < open0.len() && (#[trigger] open0[jj]).id
                                        == neighbours@[j];
                                assert(open@[jj] == open0[jj]);
                            }
                        }
                    }
                }
                proof {
                    assert(infos@.contains_key(neighbour_id));
                }
            }
            i = i + 1;
        }
        proof {
            lemma_measure_nonneg(infos@, open@.len());
            assert forall|n: usize| #[trigger] closed@.contains(n) implies expanded(
                reachable,
                is_goal,
                closed@,
                open@,
                n,
            ) by {
                if n == parent_id {
                    assert forall|b: usize| #[trigger]
                        is_edge(reachable, parent_id, b) implies call_ensures(is_goal, (b,), false)
                        && (closed@.contains(b) || exists|jj: int|
                        0 <= jj < open@.len() && (#[trigger] open@[jj]).id == b) by {
                        let v = choose|v: Vec<usize>| #[trigger]
                            call_ensures(reachable, (parent_id,), v) && v@.contains(b);
                        assert(v@ == neighbours@);
                        let j = choose|j: int| 0 <= j < v@.len() && v@[j] == b;
                        assert(neighbours@[j] == b);
                    }
                }
            }
        }
    }
    proof {
        assert forall|m: usize, k: nat| #[trigger]
            reach_in(reachable, start, m, k) implies call_ensures(is_goal, (m,), false) by {
            if m != start {
                lemma_closed_under_expansion(reachable, is_goal, closed@, open@, start, m, k);
            }
        }
    }
    None
}

} // verus!
