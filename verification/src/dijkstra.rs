//! The pathfinding engine: single-source shortest distances over the
//! graph, edges taken in both directions, an absent weight counting as
//! weight one. The result maps every live node to its least path cost from
//! the source, `None` standing for an unreachable node.
use vstd::prelude::*;
use crate::graph::GEdge;
use crate::graph::Graph;
use crate::graph::lemma_index_of_distinct;

verus! {

/// The weight an edge contributes to a path: its stored weight, or one if
/// none is stored.
pub open spec fn eff_w(e: GEdge) -> nat {
    match e.weight {
        Some(w) => w as nat,
        None => 1nat,
    }
}

/// Whether `a` is an endpoint of `e`.
pub open spec fn incident(e: GEdge, a: u64) -> bool {
    e.from == a || e.to == a
}

/// The endpoint of `e` reached by entering it from `a`.
pub open spec fn other_end(e: GEdge, a: u64) -> u64 {
    if e.from == a {
        e.to
    } else {
        e.from
    }
}

/// Where a walk from `src` along the edges indexed by `p` ends.
pub open spec fn path_end(g: Graph, src: u64, p: Seq<int>) -> u64
    decreases p.len(),
{
    if p.len() == 0 {
        src
    } else {
        other_end(g.edges@[p.last()], path_end(g, src, p.drop_last()))
    }
}

/// Whether `p` indexes a walk from `src`: each step names a live edge that
/// touches the node reached so far.
pub open spec fn path_ok(g: Graph, src: u64, p: Seq<int>) -> bool
    decreases p.len(),
{
    if p.len() == 0 {
        true
    } else {
        path_ok(g, src, p.drop_last()) && 0 <= p.last() < g.edges@.len() && incident(
            g.edges@[p.last()],
            path_end(g, src, p.drop_last()),
        )
    }
}

/// The cost of a walk: the sum of its edges' effective weights.
pub open spec fn path_cost(g: Graph, p: Seq<int>) -> nat
    decreases p.len(),
{
    if p.len() == 0 {
        0
    } else {
        path_cost(g, p.drop_last()) + eff_w(g.edges@[p.last()])
    }
}

pub broadcast proof fn lemma_path_push(g: Graph, src: u64, p: Seq<int>, k: int)
    ensures
        #[trigger] path_end(g, src, p.push(k)) == other_end(g.edges@[k], path_end(g, src, p)),
        #[trigger] path_ok(g, src, p.push(k)) <==> (path_ok(g, src, p) && 0 <= k
            < g.edges@.len() && incident(g.edges@[k], path_end(g, src, p))),
        #[trigger] path_cost(g, p.push(k)) == path_cost(g, p) + eff_w(g.edges@[k]),
{
    assert(p.push(k).drop_last() =~= p);
}

/// The node a valid walk ends at is live.
pub proof fn lemma_path_end_live(g: Graph, src: u64, p: Seq<int>)
    requires
        g.wf(),
        g.spec_contains(src),
        path_ok(g, src, p),
    ensures
        g.spec_contains(path_end(g, src, p)),
    decreases p.len(),
{
    if p.len() > 0 {
        let e = g.edges@[p.last()];
        assert(g.spec_contains(e.from) && g.spec_contains(e.to));
    }
}

/// An entry waiting in the pending queue: a live node index whose recorded
/// distance is set and no larger than the entry's key.
pub open spec fn entry_ok(dist: Seq<Option<u64>>, e: (usize, u64)) -> bool {
    0 <= e.0 < dist.len() && match dist[e.0 as int] {
        Some(d) => d <= e.1,
        None => false,
    }
}

/// Whether the queue holds an entry for node `v` with key `dv`.
pub open spec fn in_queue(queue: Seq<(usize, u64)>, v: int, dv: u64) -> bool {
    exists|q: int| 0 <= q < queue.len() && (#[trigger] queue[q]).0 == v && queue[q].1 == dv
}

/// A recorded distance is witnessed by an actual walk of exactly that cost.
pub open spec fn dist_sound_at(g: Graph, src: u64, dist: Seq<Option<u64>>, v: int) -> bool {
    match dist[v] {
        Some(d) => exists|p: Seq<int>|
            path_ok(g, src, p) && #[trigger] path_end(g, src, p) == g.nodes@[v] && path_cost(
                g,
                p,
            ) == d,
        None => true,
    }
}

/// Relaxing edge `k` out of node `a` (whose recorded distance is `du`) has
/// nothing left to improve, as far as the arithmetic can represent.
pub open spec fn edge_target_bounded(
    g: Graph,
    dist: Seq<Option<u64>>,
    a: u64,
    du: u64,
    k: int,
) -> bool {
    let e = g.edges@[k];
    du + eff_w(e) <= u64::MAX ==> match dist[g.idx_of(other_end(e, a))] {
        Some(db) => db <= du + eff_w(e),
        None => false,
    }
}

/// Every edge out of node `v` is fully relaxed.
pub open spec fn node_relaxed(g: Graph, dist: Seq<Option<u64>>, v: int, dv: u64) -> bool {
    forall|k: int|
        0 <= k < g.edges@.len() && incident(g.edges@[k], g.nodes@[v])
            ==> #[trigger] edge_target_bounded(g, dist, g.nodes@[v], dv, k)
}

/// A settled node (one with a recorded distance) has every edge relaxed.
pub open spec fn settled_relaxed(g: Graph, dist: Seq<Option<u64>>, v: int) -> bool {
    match dist[v] {
        Some(dv) => node_relaxed(g, dist, v, dv),
        None => true,
    }
}

/// Each settled node either still waits in the queue under its recorded
/// distance or already has all its edges relaxed.
pub open spec fn covered(
    g: Graph,
    dist: Seq<Option<u64>>,
    queue: Seq<(usize, u64)>,
    v: int,
) -> bool {
    match dist[v] {
        Some(dv) => in_queue(queue, v, dv) || node_relaxed(g, dist, v, dv),
        None => true,
    }
}

/// The termination measure's weight of one distance cell: unreached nodes
/// weigh one more than any representable distance.
pub open spec fn cell(o: Option<u64>) -> nat {
    match o {
        Some(d) => d as nat,
        None => 0x1_0000_0000_0000_0000nat,
    }
}

/// The termination measure over all distance cells.
pub open spec fn dsum(s: Seq<Option<u64>>) -> nat
    decreases s.len(),
{
    if s.len() == 0 {
        0
    } else {
        dsum(s.drop_last()) + cell(s.last())
    }
}

pub proof fn lemma_dsum_concat(s1: Seq<Option<u64>>, s2: Seq<Option<u64>>)
    ensures
        dsum(s1 + s2) == dsum(s1) + dsum(s2),
    decreases s2.len(),
{
    if s2.len() == 0 {
        assert(s1 + s2 =~= s1);
    } else {
        lemma_dsum_concat(s1, s2.drop_last());
        assert((s1 + s2).drop_last() =~= s1 + s2.drop_last());
        assert((s1 + s2).last() == s2.last());
    }
}

/// Updating one cell moves the measure by exactly the cell difference.
pub proof fn lemma_dsum_update(s: Seq<Option<u64>>, v: int, x: Option<u64>)
    requires
        0 <= v < s.len(),
    ensures
        dsum(s.update(v, x)) + cell(s[v]) == dsum(s) + cell(x),
{
    let pre = s.subrange(0, v);
    let mid = s.subrange(v, v + 1);
    let post = s.subrange(v + 1, s.len() as int);
    assert(s =~= pre + mid + post);
    assert(s.update(v, x) =~= pre + Seq::empty().push(x) + post);
    lemma_dsum_concat(pre + mid, post);
    lemma_dsum_concat(pre, mid);
    lemma_dsum_concat(pre + Seq::empty().push(x), post);
    lemma_dsum_concat(pre, Seq::empty().push(x));
    assert(dsum(mid) == cell(s[v])) by {
        assert(mid.len() == 1 && mid.last() == s[v]);
        assert(mid.drop_last() =~= Seq::<Option<u64>>::empty());
        assert(dsum(mid.drop_last()) == 0);
    }
    assert(dsum(Seq::empty().push(x)) == cell(x)) by {
        assert(Seq::empty().push(x).drop_last() =~= Seq::<Option<u64>>::empty());
        assert(dsum(Seq::empty().push(x).drop_last()) == 0);
    }
}

/// With the source settled at zero and every settled node fully relaxed,
/// no walk can beat a recorded distance: the node a representable-cost walk
/// reaches is settled, at no more than that walk's cost.
pub proof fn lemma_closure_implies_optimal(
    g: Graph,
    src: u64,
    dist: Seq<Option<u64>>,
    p: Seq<int>,
)
    requires
        g.wf(),
        g.spec_contains(src),
        dist.len() == g.nodes@.len(),
        dist[g.idx_of(src)] == Some(0u64),
        forall|v: int| 0 <= v < dist.len() ==> #[trigger] settled_relaxed(g, dist, v),
        path_ok(g, src, p),
        path_cost(g, p) <= u64::MAX,
    ensures
        ({
            let vi = g.idx_of(path_end(g, src, p));
            &&& 0 <= vi < dist.len()
            &&& dist[vi] matches Some(d) && d <= path_cost(g, p)
        }),
    decreases p.len(),
{
    lemma_path_end_live(g, src, p);
    let endv = path_end(g, src, p);
    let vi = g.idx_of(endv);
    assert(0 <= vi < g.nodes@.len() && g.nodes@[vi] == endv);
    lemma_index_of_distinct(g.nodes@, vi);
    if p.len() == 0 {
    } else {
        let p2 = p.drop_last();
        let k = p.last();
        let e = g.edges@[k];
        lemma_closure_implies_optimal(g, src, dist, p2);
        let mid = path_end(g, src, p2);
        let ui = g.idx_of(mid);
        assert(0 <= ui < dist.len() && (dist[ui] matches Some(d2) && d2 <= path_cost(g, p2)));
        let du = dist[ui]->Some_0;
        assert(g.nodes@[ui] == mid) by {
            lemma_path_end_live(g, src, p2);
        }
        assert(settled_relaxed(g, dist, ui));
        assert(node_relaxed(g, dist, ui, du));
        assert(incident(e, g.nodes@[ui]));
        assert(edge_target_bounded(g, dist, mid, du, k));
        assert(du + eff_w(e) <= path_cost(g, p2) + eff_w(e));
        assert(path_cost(g, p) == path_cost(g, p2) + eff_w(e));
        assert(other_end(e, mid) == endv);
    }
}

/// Classic single-source shortest paths over the graph. Distances start
/// unset except the source at zero; a pending queue of (node index, key)
/// entries is drained by extracting a minimum-key entry, skipping it when
/// its key is stale (larger than the recorded distance), and otherwise
/// relaxing every edge at that node: each strictly shorter distance found
/// is recorded and the improved node queued again.
///
/// The contract pins the result to the shortest-path distances, up to what
/// `u64` arithmetic represents: every recorded distance is the cost of an
/// actual walk from the source, and no walk of representable cost beats a
/// recorded distance. So `dist[i]` is the least walk cost to `nodes[i]`,
/// and a node is `None` exactly when no representable-cost walk reaches it.
pub fn shortest_paths(graph: &Graph, source: u64) -> (dist: Vec<Option<u64>>)
    requires
        graph.wf(),
        graph.spec_contains(source),
    ensures
        dist@.len() == graph.nodes@.len(),
        forall|v: int| 0 <= v < dist@.len() ==> #[trigger] dist_sound_at(*graph, source, dist@, v),
        forall|p: Seq<int>|
            #[trigger] path_ok(*graph, source, p) && path_cost(*graph, p) <= u64::MAX ==> {
                let vi = graph.idx_of(path_end(*graph, source, p));
                &&& 0 <= vi < dist@.len()
                &&& dist@[vi] matches Some(d) && d <= path_cost(*graph, p)
            },
{
    let n = graph.nodes.len();
    let mut dist: Vec<Option<u64>> = vec![None; n];
    let si = match graph.find_index(source) {
        Some(i) => i,
        None => {
            proof {
                assert(false);
            }
            0
        },
    };
    dist[si] = Some(0);
    proof {
        let empty = Seq::<int>::empty();
        assert(path_ok(*graph, source, empty) && path_end(*graph, source, empty) == source
            && path_cost(*graph, empty) == 0);
        assert(dist_sound_at(*graph, source, dist@, si as int));
    }
    let mut queue: Vec<(usize, u64)> = Vec::new();
    queue.push((si, 0));
    proof {
        assert forall|v: int| 0 <= v < n implies #[trigger] covered(*graph, dist@, queue@, v) by {
            if v == si as int {
                assert(queue@[0] == (si, 0u64));
                assert(in_queue(queue@, v, 0u64));
            } else {
                assert(dist@[v] is None);
            }
        }
        assert forall|v: int| 0 <= v < n implies #[trigger] dist_sound_at(
            *graph,
            source,
            dist@,
            v,
        ) by {
            if v != si as int {
                assert(dist@[v] is None);
            }
        }
    }
    while queue.len() > 0
        invariant
            graph.wf(),
            graph.spec_contains(source),
            n == graph.nodes@.len(),
            dist@.len() == n,
            si < n,
            graph.nodes@[si as int] == source,
            si as int == graph.idx_of(source),
            dist@[si as int] == Some(0u64),
            forall|v: int|
                0 <= v < n ==> #[trigger] dist_sound_at(*graph, source, dist@, v),
            forall|q: int| 0 <= q < queue@.len() ==> entry_ok(dist@, #[trigger] queue@[q]),
            forall|v: int| 0 <= v < n ==> #[trigger] covered(*graph, dist@, queue@, v),
        decreases queue@.len() + dsum(dist@),
    {
        let mut best: usize = 0;
        let mut q: usize = 1;
        while q < queue.len()
            invariant
                queue@.len() > 0,
                best < queue@.len(),
                q <= queue@.len(),
                forall|r: int| 0 <= r < q ==> queue@[best as int].1 <= (#[trigger] queue@[r]).1,
            decreases queue@.len() - q,
        {
            if queue[q].1 < queue[best].1 {
                best = q;
            }
            q += 1;
        }
        let (u, du) = queue[best];
        let ghost queue0 = queue@;
        let ghost dist0 = dist@;
        let ghost m0 = queue@.len() + dsum(dist@);
        queue.remove(best);
        proof {
            assert(entry_ok(dist0, queue0[best as int]));
            assert forall|qq: int| 0 <= qq < queue@.len() implies entry_ok(
                dist@,
                #[trigger] queue@[qq],
            ) by {
                if qq < best as int {
                    assert(queue@[qq] == queue0[qq]);
                } else {
                    assert(queue@[qq] == queue0[qq + 1]);
                }
            }
        }
        let du_rec = match dist[u] {
            Some(d) => d,
            None => {
                proof {
                    assert(false);
                }
                0
            },
        };
        if du_rec == du {
            // Not stale: relax every edge at this node.
            let a = graph.nodes[u];
            proof {
                lemma_index_of_distinct(graph.nodes@, u as int);
                assert forall|v: int| 0 <= v < n && v != u as int implies #[trigger] covered(
                    *graph,
                    dist@,
                    queue@,
                    v,
                ) by {
                    assert(covered(*graph, dist0, queue0, v));
                    match dist0[v] {
                        Some(dv) => {
                            if in_queue(queue0, v, dv) {
                                let qq = choose|qq: int|
                                    0 <= qq < queue0.len() && (#[trigger] queue0[qq]).0 == v
                                        && queue0[qq].1 == dv;
                                assert(qq != best as int);
                                if qq < best as int {
                                    assert(queue@[qq] == queue0[qq]);
                                } else {
                                    assert(queue@[qq - 1] == queue0[qq]);
                                }
                                assert(in_queue(queue@, v, dv));
                            }
                        },
                        None => {},
                    }
                }
            }
            let ne = graph.edges.len();
            let mut k: usize = 0;
            while k < ne
                invariant
                    graph.wf(),
                    graph.spec_contains(source),
                    n == graph.nodes@.len(),
                    dist@.len() == n,
                    ne == graph.edges@.len(),
                    u < n,
                    graph.nodes@[u as int] == a,
                    u as int == graph.idx_of(a),
                    dist@[u as int] == Some(du),
                    si < n,
                    graph.nodes@[si as int] == source,
                    si as int == graph.idx_of(source),
                    dist@[si as int] == Some(0u64),
                    forall|v: int|
                        0 <= v < n ==> #[trigger] dist_sound_at(*graph, source, dist@, v),
                    forall|qq: int|
                        0 <= qq < queue@.len() ==> entry_ok(dist@, #[trigger] queue@[qq]),
                    forall|v: int|
                        0 <= v < n && v != u as int ==> #[trigger] covered(
                            *graph,
                            dist@,
                            queue@,
                            v,
                        ),
                    forall|kk: int|
                        0 <= kk < k && incident(graph.edges@[kk], a)
                            ==> #[trigger] edge_target_bounded(*graph, dist@, a, du, kk),
                    queue@.len() + dsum(dist@) <= m0 - 1,
                decreases ne - k,
            {
                let e = graph.edges[k];
                if e.from == a || e.to == a {
                    let vid = if e.from == a {
                        e.to
                    } else {
                        e.from
                    };
                    proof {
                        assert(vid == other_end(graph.edges@[k as int], a));
                        assert(graph.spec_contains(vid));
                    }
                    let w: u64 = match e.weight {
                        Some(wt) => wt,
                        None => 1,
                    };
                    proof {
                        assert(w as nat == eff_w(graph.edges@[k as int]));
                    }
                    if du <= u64::MAX - w {
                        let nd = du + w;
                        let vi = match graph.find_index(vid) {
                            Some(i) => i,
                            None => {
                                proof {
                                    assert(false);
                                }
                                0
                            },
                        };
                        let improve = match dist[vi] {
                            None => true,
                            Some(dv) => nd < dv,
                        };
                        if improve {
                            let ghost dist_b = dist@;
                            let ghost queue_b = queue@;
                            dist[vi] = Some(nd);
                            queue.push((vi, nd));
                            proof {
                                lemma_dsum_update(dist_b, vi as int, Some(nd));
                                assert(vi as int != u as int);
                                self_relax_step_proof(
                                    *graph,
                                    source,
                                    dist_b,
                                    dist@,
                                    queue_b,
                                    queue@,
                                    u as int,
                                    du,
                                    a,
                                    k as int,
                                    vi as int,
                                    nd,
                                );
                            }
                        }
                        proof {
                            assert(edge_target_bounded(*graph, dist@, a, du, k as int));
                        }
                    } else {
                        proof {
                            assert(edge_target_bounded(*graph, dist@, a, du, k as int));
                        }
                    }
                }
                proof {
                    assert forall|kk: int|
                        0 <= kk < k + 1 && incident(graph.edges@[kk], a) implies
                        #[trigger] edge_target_bounded(*graph, dist@, a, du, kk) by {}
                }
                k += 1;
            }
            proof {
                assert(node_relaxed(*graph, dist@, u as int, du));
                assert(covered(*graph, dist@, queue@, u as int));
            }
        } else {
            // Stale entry: the recorded distance is already smaller; skip.
            proof {
                assert(du_rec < du);
                assert forall|v: int| 0 <= v < n implies #[trigger] covered(
                    *graph,
                    dist@,
                    queue@,
                    v,
                ) by {
                    assert(covered(*graph, dist0, queue0, v));
                    match dist0[v] {
                        Some(dv) => {
                            if in_queue(queue0, v, dv) {
                                let qq = choose|qq: int|
                                    0 <= qq < queue0.len() && (#[trigger] queue0[qq]).0 == v
                                        && queue0[qq].1 == dv;
                                assert(qq != best as int);
                                if qq < best as int {
                                    assert(queue@[qq] == queue0[qq]);
                                } else {
                                    assert(queue@[qq - 1] == queue0[qq]);
                                }
                                assert(in_queue(queue@, v, dv));
                            }
                        },
                        None => {},
                    }
                }
            }
        }
    }
    proof {
        assert forall|v: int| 0 <= v < dist@.len() implies #[trigger] settled_relaxed(
            *graph,
            dist@,
            v,
        ) by {
            assert(covered(*graph, dist@, queue@, v));
            match dist@[v] {
                Some(dv) => {
                    if in_queue(queue@, v, dv) {
                        let qq = choose|qq: int|
                            0 <= qq < queue@.len() && (#[trigger] queue@[qq]).0 == v
                                && queue@[qq].1 == dv;
                        assert(false);
                    }
                },
                None => {},
            }
        }
        assert forall|p: Seq<int>|
            #[trigger] path_ok(*graph, source, p) && path_cost(*graph, p) <= u64::MAX implies ({
            let vi = graph.idx_of(path_end(*graph, source, p));
            &&& 0 <= vi < dist@.len()
            &&& dist@[vi] matches Some(d) && d <= path_cost(*graph, p)
        }) by {
            lemma_closure_implies_optimal(*graph, source, dist@, p);
        }
    }
    dist
}

/// One successful relaxation: recording the strictly shorter distance `nd`
/// for node `vi` (reached over edge `k` from node `u`, whose recorded
/// distance `du` is being processed) and queueing `vi` again keeps every
/// loop invariant of the search.
#[verifier::spinoff_prover]
proof fn self_relax_step_proof(
    g: Graph,
    src: u64,
    dist_b: Seq<Option<u64>>,
    dist_n: Seq<Option<u64>>,
    queue_b: Seq<(usize, u64)>,
    queue_n: Seq<(usize, u64)>,
    u: int,
    du: u64,
    a: u64,
    k: int,
    vi: int,
    nd: u64,
)
    requires
        g.wf(),
        g.spec_contains(src),
        dist_b.len() == g.nodes@.len(),
        0 <= u < g.nodes@.len(),
        g.nodes@[u] == a,
        dist_b[u] == Some(du),
        dist_b[g.idx_of(src)] == Some(0u64),
        0 <= g.idx_of(src) < g.nodes@.len(),
        0 <= k < g.edges@.len(),
        incident(g.edges@[k], a),
        0 <= vi < g.nodes@.len(),
        g.nodes@[vi] == other_end(g.edges@[k], a),
        vi == g.idx_of(other_end(g.edges@[k], a)),
        nd as nat == du + eff_w(g.edges@[k]),
        match dist_b[vi] {
            None => true,
            Some(dv) => nd < dv,
        },
        vi != u,
        dist_n == dist_b.update(vi, Some(nd)),
        queue_n == queue_b.push((vi as usize, nd)),
        vi as usize as int == vi,
        forall|v: int|
            0 <= v < dist_b.len() ==> #[trigger] dist_sound_at(g, src, dist_b, v),
        forall|qq: int| 0 <= qq < queue_b.len() ==> entry_ok(dist_b, #[trigger] queue_b[qq]),
        forall|v: int|
            0 <= v < dist_b.len() && v != u ==> #[trigger] covered(g, dist_b, queue_b, v),
        forall|kk: int|
            0 <= kk < k && incident(g.edges@[kk], a) ==> #[trigger] edge_target_bounded(
                g,
                dist_b,
                a,
                du,
                kk,
            ),
    ensures
        dist_n.len() == dist_b.len(),
        dist_n[u] == Some(du),
        dist_n[g.idx_of(src)] == Some(0u64),
        forall|v: int|
            0 <= v < dist_n.len() ==> #[trigger] dist_sound_at(g, src, dist_n, v),
        forall|qq: int| 0 <= qq < queue_n.len() ==> entry_ok(dist_n, #[trigger] queue_n[qq]),
        forall|v: int|
            0 <= v < dist_n.len() && v != u ==> #[trigger] covered(g, dist_n, queue_n, v),
        forall|kk: int|
            0 <= kk < k && incident(g.edges@[kk], a) ==> #[trigger] edge_target_bounded(
                g,
                dist_n,
                a,
                du,
                kk,
            ),
        edge_target_bounded(g, dist_n, a, du, k),
        cell(Some(nd)) < cell(dist_b[vi]),
{
    let e = g.edges@[k];
    let n = dist_b.len();
    // The improved node is witnessed by the walk to `u` extended by `k`.
    assert(dist_sound_at(g, src, dist_b, u));
    let p0 = choose|p: Seq<int>|
        path_ok(g, src, p) && #[trigger] path_end(g, src, p) == g.nodes@[u] && path_cost(g, p)
            == du;
    let p1 = p0.push(k);
    lemma_path_push(g, src, p0, k);
    assert(path_ok(g, src, p1) && path_end(g, src, p1) == g.nodes@[vi] && path_cost(g, p1)
        == nd as nat);
    assert forall|v: int| 0 <= v < n implies #[trigger] dist_sound_at(g, src, dist_n, v) by {
        if v == vi {
            assert(path_end(g, src, p1) == g.nodes@[vi] && path_ok(g, src, p1) && path_cost(
                g,
                p1,
            ) == nd);
        } else {
            assert(dist_sound_at(g, src, dist_b, v));
            assert(dist_n[v] == dist_b[v]);
        }
    }
    assert forall|qq: int| 0 <= qq < queue_n.len() implies entry_ok(
        dist_n,
        #[trigger] queue_n[qq],
    ) by {
        if qq < queue_b.len() {
            assert(queue_n[qq] == queue_b[qq]);
            assert(entry_ok(dist_b, queue_b[qq]));
        } else {
            assert(queue_n[qq] == (vi as usize, nd));
        }
    }
    assert forall|v: int| 0 <= v < n && v != u implies #[trigger] covered(
        g,
        dist_n,
        queue_n,
        v,
    ) by {
        if v == vi {
            assert(queue_n[queue_b.len() as int] == (vi as usize, nd));
            assert(in_queue(queue_n, vi, nd));
        } else {
            assert(covered(g, dist_b, queue_b, v));
            assert(dist_n[v] == dist_b[v]);
            match dist_b[v] {
                Some(dv) => {
                    if in_queue(queue_b, v, dv) {
                        let qq = choose|qq: int|
                            0 <= qq < queue_b.len() && (#[trigger] queue_b[qq]).0 == v
                                && queue_b[qq].1 == dv;
                        assert(queue_n[qq] == queue_b[qq]);
                        assert(in_queue(queue_n, v, dv));
                    } else {
                        assert(node_relaxed(g, dist_b, v, dv));
                        assert forall|kk: int|
                            0 <= kk < g.edges@.len() && incident(g.edges@[kk], g.nodes@[v])
                                implies #[trigger] edge_target_bounded(
                                g,
                                dist_n,
                                g.nodes@[v],
                                dv,
                                kk,
                            ) by {
                            assert(edge_target_bounded(g, dist_b, g.nodes@[v], dv, kk));
                        }
                    }
                },
                None => {},
            }
        }
    }
    assert forall|kk: int|
        0 <= kk < k && incident(g.edges@[kk], a) implies #[trigger] edge_target_bounded(
        g,
        dist_n,
        a,
        du,
        kk,
    ) by {
        assert(edge_target_bounded(g, dist_b, a, du, kk));
    }
}

} // verus!
