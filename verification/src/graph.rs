//! The shared weighted-graph data model: nodes with stable integer
//! identifiers, undirected (optionally weighted) multigraph edges, and an
//! adjacency index kept consistent with the edge set.
use vstd::prelude::*;

verus! {

/// An undirected edge between two nodes, with an optional positive weight.
/// An absent weight is treated as weight 1 by the pathfinding engine.
#[derive(Clone, Copy, PartialEq, Eq, Structural, Debug)]
pub struct GEdge {
    pub from: u64,
    pub to: u64,
    pub weight: Option<u64>,
}

/// The graph model. `nodes` lists the live node identifiers in insertion
/// order; `adj[i]` is the ordered neighbor list of `nodes[i]`; `edges` is
/// the edge set; `curr_id` is the highest identifier handed out so far.
#[derive(Clone, Debug)]
pub struct Graph {
    pub nodes: Vec<u64>,
    pub adj: Vec<Vec<u64>>,
    pub edges: Vec<GEdge>,
    pub curr_id: u64,
}

/// How many times `x` occurs in `s`.
pub open spec fn count_of(s: Seq<u64>, x: u64) -> nat
    decreases s.len(),
{
    if s.len() == 0 {
        0
    } else {
        count_of(s.drop_last(), x) + if s.last() == x {
            1nat
        } else {
            0nat
        }
    }
}

/// How many adjacency entries a single edge owes the ordered pair `(a, b)`:
/// one for each direction in which the edge joins `a` to `b` (so a
/// self-loop at `a` owes `(a, a)` two entries).
pub open spec fn edge_pair_contrib(e: GEdge, a: u64, b: u64) -> nat {
    (if e.from == a && e.to == b {
        1nat
    } else {
        0nat
    }) + (if e.from == b && e.to == a {
        1nat
    } else {
        0nat
    })
}

/// How many adjacency entries the whole edge set owes the pair `(a, b)`.
pub open spec fn pair_count(es: Seq<GEdge>, a: u64, b: u64) -> nat
    decreases es.len(),
{
    if es.len() == 0 {
        0
    } else {
        pair_count(es.drop_last(), a, b) + edge_pair_contrib(es.last(), a, b)
    }
}

/// The degree of node `n`: the number of edge endpoints equal to `n`
/// (a self-loop counts twice).
pub open spec fn degree_in(es: Seq<GEdge>, n: u64) -> nat
    decreases es.len(),
{
    if es.len() == 0 {
        0
    } else {
        degree_in(es.drop_last(), n) + (if es.last().from == n {
            1nat
        } else {
            0nat
        }) + (if es.last().to == n {
            1nat
        } else {
            0nat
        })
    }
}

pub broadcast proof fn lemma_count_push(s: Seq<u64>, e: u64, x: u64)
    ensures
        #[trigger] count_of(s.push(e), x) == count_of(s, x) + if e == x {
            1nat
        } else {
            0nat
        },
{
    assert(s.push(e).drop_last() =~= s);
}

pub broadcast proof fn lemma_pair_count_push(es: Seq<GEdge>, e: GEdge, a: u64, b: u64)
    ensures
        #[trigger] pair_count(es.push(e), a, b) == pair_count(es, a, b) + edge_pair_contrib(e, a, b),
{
    assert(es.push(e).drop_last() =~= es);
}

pub broadcast proof fn lemma_degree_push(es: Seq<GEdge>, e: GEdge, n: u64)
    ensures
        #[trigger] degree_in(es.push(e), n) == degree_in(es, n) + (if e.from == n {
            1nat
        } else {
            0nat
        }) + (if e.to == n {
            1nat
        } else {
            0nat
        }),
{
    assert(es.push(e).drop_last() =~= es);
}

pub proof fn lemma_count_concat(s1: Seq<u64>, s2: Seq<u64>, x: u64)
    ensures
        count_of(s1 + s2, x) == count_of(s1, x) + count_of(s2, x),
    decreases s2.len(),
{
    if s2.len() == 0 {
        assert(s1 + s2 =~= s1);
    } else {
        lemma_count_concat(s1, s2.drop_last(), x);
        assert((s1 + s2).drop_last() =~= s1 + s2.drop_last());
        assert((s1 + s2).last() == s2.last());
    }
}

pub proof fn lemma_pair_count_concat(es1: Seq<GEdge>, es2: Seq<GEdge>, a: u64, b: u64)
    ensures
        pair_count(es1 + es2, a, b) == pair_count(es1, a, b) + pair_count(es2, a, b),
    decreases es2.len(),
{
    if es2.len() == 0 {
        assert(es1 + es2 =~= es1);
    } else {
        lemma_pair_count_concat(es1, es2.drop_last(), a, b);
        assert((es1 + es2).drop_last() =~= es1 + es2.drop_last());
        assert((es1 + es2).last() == es2.last());
    }
}

/// Removing the element at position `j` lowers the occurrence count of
/// exactly that element by one.
pub proof fn lemma_count_remove(s: Seq<u64>, j: int, x: u64)
    requires
        0 <= j < s.len(),
    ensures
        count_of(s.remove(j), x) == count_of(s, x) - (if s[j] == x {
            1int
        } else {
            0int
        }),
{
    let pre = s.subrange(0, j);
    let mid = s.subrange(j, j + 1);
    let post = s.subrange(j + 1, s.len() as int);
    assert(s =~= pre + mid + post);
    assert(s.remove(j) =~= pre + post);
    lemma_count_concat(pre + mid, post, x);
    lemma_count_concat(pre, mid, x);
    lemma_count_concat(pre, post, x);
    assert(mid =~= Seq::empty().push(s[j]));
    assert(count_of(mid, x) == if s[j] == x {
        1nat
    } else {
        0nat
    }) by {
        assert(mid.len() == 1);
        assert(mid.last() == s[j]);
        assert(mid.drop_last() =~= Seq::<u64>::empty());
        assert(count_of(mid.drop_last(), x) == 0);
    }
}

/// Removing the edge at position `j` lowers each pair count by exactly the
/// removed edge's contribution.
pub proof fn lemma_pair_count_remove(es: Seq<GEdge>, j: int, a: u64, b: u64)
    requires
        0 <= j < es.len(),
    ensures
        pair_count(es.remove(j), a, b) == pair_count(es, a, b) - edge_pair_contrib(es[j], a, b),
{
    let pre = es.subrange(0, j);
    let mid = es.subrange(j, j + 1);
    let post = es.subrange(j + 1, es.len() as int);
    assert(es =~= pre + mid + post);
    assert(es.remove(j) =~= pre + post);
    lemma_pair_count_concat(pre + mid, post, a, b);
    lemma_pair_count_concat(pre, mid, a, b);
    lemma_pair_count_concat(pre, post, a, b);
    assert(pair_count(mid, a, b) == edge_pair_contrib(es[j], a, b)) by {
        assert(mid.len() == 1);
        assert(mid.last() == es[j]);
        assert(mid.drop_last() =~= Seq::<GEdge>::empty());
        assert(pair_count(mid.drop_last(), a, b) == 0);
    }
}

/// A node that no edge touches owes no adjacency entries at all.
pub proof fn lemma_pair_count_zero(es: Seq<GEdge>, a: u64, b: u64)
    requires
        forall|k: int| 0 <= k < es.len() ==> (#[trigger] es[k]).from != a && es[k].to != a,
    ensures
        pair_count(es, a, b) == 0,
    decreases es.len(),
{
    if es.len() > 0 {
        assert(forall|k: int|
            0 <= k < es.drop_last().len() ==> (#[trigger] es.drop_last()[k]).from != a
                && es.drop_last()[k].to != a) by {
            assert(forall|k: int|
                0 <= k < es.drop_last().len() ==> es.drop_last()[k] == es[k]);
        }
        lemma_pair_count_zero(es.drop_last(), a, b);
    }
}

/// Each single edge contributes no more than the whole pair count.
pub proof fn lemma_pair_count_at_least(es: Seq<GEdge>, j: int, a: u64, b: u64)
    requires
        0 <= j < es.len(),
    ensures
        pair_count(es, a, b) >= edge_pair_contrib(es[j], a, b),
{
    lemma_pair_count_remove(es, j, a, b);
}

/// `s` with every occurrence of `x` removed, order kept.
pub open spec fn remove_all(s: Seq<u64>, x: u64) -> Seq<u64>
    decreases s.len(),
{
    if s.len() == 0 {
        s
    } else if s.last() == x {
        remove_all(s.drop_last(), x)
    } else {
        remove_all(s.drop_last(), x).push(s.last())
    }
}

/// The edge set with every edge touching `id` removed, order kept.
pub open spec fn remove_incident(es: Seq<GEdge>, id: u64) -> Seq<GEdge>
    decreases es.len(),
{
    if es.len() == 0 {
        es
    } else if es.last().from == id || es.last().to == id {
        remove_incident(es.drop_last(), id)
    } else {
        remove_incident(es.drop_last(), id).push(es.last())
    }
}

pub broadcast proof fn lemma_remove_all_push(s: Seq<u64>, e: u64, x: u64)
    ensures
        #[trigger] remove_all(s.push(e), x) == if e == x {
            remove_all(s, x)
        } else {
            remove_all(s, x).push(e)
        },
{
    assert(s.push(e).drop_last() =~= s);
}

pub broadcast proof fn lemma_remove_incident_push(es: Seq<GEdge>, e: GEdge, id: u64)
    ensures
        #[trigger] remove_incident(es.push(e), id) == if e.from == id || e.to == id {
            remove_incident(es, id)
        } else {
            remove_incident(es, id).push(e)
        },
{
    assert(es.push(e).drop_last() =~= es);
}

/// Removing every occurrence of `x` zeroes its count and keeps every other
/// count unchanged.
pub proof fn lemma_remove_all_count(s: Seq<u64>, x: u64, b: u64)
    ensures
        count_of(remove_all(s, x), b) == if b == x {
            0nat
        } else {
            count_of(s, b)
        },
    decreases s.len(),
{
    if s.len() > 0 {
        lemma_remove_all_count(s.drop_last(), x, b);
        if s.last() != x {
            lemma_count_push(remove_all(s.drop_last(), x), s.last(), b);
        }
    }
}

/// Dropping the edges that touch `id` leaves every pair count between two
/// other nodes unchanged.
pub proof fn lemma_remove_incident_pair(es: Seq<GEdge>, id: u64, a: u64, b: u64)
    requires
        a != id,
        b != id,
    ensures
        pair_count(remove_incident(es, id), a, b) == pair_count(es, a, b),
    decreases es.len(),
{
    if es.len() > 0 {
        lemma_remove_incident_pair(es.drop_last(), id, a, b);
        let e = es.last();
        if !(e.from == id || e.to == id) {
            lemma_pair_count_push(remove_incident(es.drop_last(), id), e, a, b);
        }
    }
}

/// No edge of `es` touches the removed node after the filter.
pub proof fn lemma_remove_incident_clean(es: Seq<GEdge>, id: u64)
    ensures
        forall|k: int|
            0 <= k < remove_incident(es, id).len() ==> (#[trigger] remove_incident(es, id)[k]).from
                != id && remove_incident(es, id)[k].to != id,
        forall|k: int|
            0 <= k < remove_incident(es, id).len() ==> exists|m: int|
                0 <= m < es.len() && es[m] == #[trigger] remove_incident(es, id)[k],
    decreases es.len(),
{
    if es.len() > 0 {
        lemma_remove_incident_clean(es.drop_last(), id);
        let rest = remove_incident(es.drop_last(), id);
        let e = es.last();
        assert forall|m: int| 0 <= m < es.drop_last().len() implies es.drop_last()[m] == es[m] by {}
        if !(e.from == id || e.to == id) {
            assert forall|k: int| 0 <= k < rest.push(e).len() implies exists|m: int|
                0 <= m < es.len() && es[m] == #[trigger] rest.push(e)[k] by {
                if k < rest.len() {
                    let m = choose|m: int| 0 <= m < es.drop_last().len() && es.drop_last()[m]
                        == rest[k];
                    assert(es[m] == rest.push(e)[k]);
                } else {
                    assert(es[es.len() - 1] == rest.push(e)[k]);
                }
            }
        }
    }
}

/// A pair count with a node that no edge touches as second component is zero.
pub proof fn lemma_pair_count_zero_snd(es: Seq<GEdge>, a: u64, b: u64)
    requires
        forall|k: int| 0 <= k < es.len() ==> (#[trigger] es[k]).from != b && es[k].to != b,
    ensures
        pair_count(es, a, b) == 0,
    decreases es.len(),
{
    if es.len() > 0 {
        assert(forall|k: int|
            0 <= k < es.drop_last().len() ==> (#[trigger] es.drop_last()[k]).from != b
                && es.drop_last()[k].to != b) by {
            assert(forall|k: int|
                0 <= k < es.drop_last().len() ==> es.drop_last()[k] == es[k]);
        }
        lemma_pair_count_zero_snd(es.drop_last(), a, b);
    }
}

/// `post` is `pre` with the first occurrence of `x` removed (and unchanged
/// if there is none).
pub open spec fn first_occurrence_removed(pre: Seq<u64>, post: Seq<u64>, x: u64) -> bool {
    if pre.contains(x) {
        exists|j: int|
            0 <= j < pre.len() && pre[j] == x && (forall|k: int| 0 <= k < j ==> pre[k] != x)
                && post == #[trigger] pre.remove(j)
    } else {
        post == pre
    }
}

/// In a duplicate-free sequence, `index_of` of the element at `i` is `i`.
pub proof fn lemma_index_of_distinct(s: Seq<u64>, i: int)
    requires
        forall|p: int, q: int| 0 <= p < q < s.len() ==> s[p] != s[q],
        0 <= i < s.len(),
    ensures
        s.index_of(s[i]) == i,
{
    assert(s.contains(s[i])) by {
        assert(0 <= i < s.len() && s[i] == s[i]);
    }
    let j = s.index_of(s[i]);
    assert(0 <= j < s.len() && s[j] == s[i]);
}

/// A nonzero occurrence count is the same as membership.
pub proof fn lemma_count_contains(s: Seq<u64>, x: u64)
    ensures
        count_of(s, x) > 0 <==> s.contains(x),
    decreases s.len(),
{
    if s.len() > 0 {
        lemma_count_contains(s.drop_last(), x);
        if s.contains(x) {
            let i = choose|i: int| 0 <= i < s.len() && s[i] == x;
            if i < s.len() - 1 {
                assert(s.drop_last().contains(x)) by {
                    assert(s.drop_last()[i] == x);
                }
            }
        } else {
            assert(!s.drop_last().contains(x)) by {
                if s.drop_last().contains(x) {
                    let i = choose|i: int| 0 <= i < s.drop_last().len() && s.drop_last()[i] == x;
                    assert(s[i] == x);
                }
            }
        }
    }
}

impl Graph {
    /// Whether `id` names a live node.
    pub open spec fn spec_contains(self, id: u64) -> bool {
        self.nodes@.contains(id)
    }

    /// The index of a live node in the node list.
    pub open spec fn idx_of(self, id: u64) -> int {
        self.nodes@.index_of(id)
    }

    /// The ordered neighbor list of a live node.
    pub open spec fn adj_of(self, id: u64) -> Seq<u64> {
        self.adj@[self.idx_of(id)]@
    }

    /// The adjacency index as a sequence of neighbor sequences, parallel to
    /// the node list.
    pub open spec fn adj_seqs(self) -> Seq<Seq<u64>> {
        self.adj@.map_values(|v: Vec<u64>| v@)
    }

    pub open spec fn nodes_distinct(self) -> bool {
        forall|i: int, j: int|
            0 <= i < j < self.nodes@.len() ==> self.nodes@[i] != self.nodes@[j]
    }

    /// Well-formedness: the node list has no duplicates, every edge endpoint
    /// and every adjacency entry is live, identifiers never exceed the
    /// allocation counter, and the adjacency index agrees with the edge set
    /// as a multiset: node `b` occurs in the list of node `a` exactly as
    /// often as the edges join `a` to `b`.
    pub open spec fn wf(self) -> bool {
        &&& self.adj@.len() == self.nodes@.len()
        &&& self.nodes_distinct()
        &&& forall|k: int|
            0 <= k < self.edges@.len() ==> self.spec_contains(#[trigger] self.edges@[k].from)
                && self.spec_contains(self.edges@[k].to)
        &&& forall|i: int, j: int|
            0 <= i < self.adj@.len() && 0 <= j < self.adj@[i]@.len() ==> self.spec_contains(
                #[trigger] self.adj@[i]@[j],
            )
        &&& forall|i: int| 0 <= i < self.nodes@.len() ==> #[trigger] self.nodes@[i] <= self.curr_id
        &&& forall|i: int, b: u64|
            0 <= i < self.nodes@.len() ==> #[trigger] count_of(self.adj@[i]@, b) == pair_count(
                self.edges@,
                self.nodes@[i],
                b,
            )
    }

    /// An empty graph.
    pub fn new() -> (g: Graph)
        ensures
            g.wf(),
            g.nodes@ =~= Seq::<u64>::empty(),
            g.edges@ =~= Seq::<GEdge>::empty(),
            g.curr_id == 0,
    {
        Graph { nodes: Vec::new(), adj: Vec::new(), edges: Vec::new(), curr_id: 0 }
    }

    /// The position of `id` in the node list, if it is live.
    pub fn find_index(&self, id: u64) -> (r: Option<usize>)
        ensures
            match r {
                Some(i) => self.spec_contains(id) && i < self.nodes@.len()
                    && self.nodes@[i as int] == id && (self.nodes_distinct() ==> i == self.idx_of(
                    id,
                )),
                None => !self.spec_contains(id),
            },
    {
        let n = self.nodes.len();
        let mut i: usize = 0;
        while i < n
            invariant
                i <= n,
                n == self.nodes@.len(),
                forall|j: int| 0 <= j < i ==> self.nodes@[j] != id,
            decreases n - i,
        {
            if self.nodes[i] == id {
                proof {
                    if self.nodes_distinct() {
                        assert(self.nodes@.contains(id)) by {
                            assert(self.nodes@[i as int] == id);
                        }
                        let j = self.idx_of(id);
                        assert(0 <= j < self.nodes@.len() && self.nodes@[j] == id);
                        assert(j == i);
                    }
                }
                return Some(i);
            }
            i += 1;
        }
        proof {
            assert(!self.nodes@.contains(id)) by {
                if self.nodes@.contains(id) {
                    let j = choose|j: int| 0 <= j < self.nodes@.len() && self.nodes@[j] == id;
                }
            }
        }
        None
    }

    /// Whether `id` names a live node.
    pub fn contains_node(&self, id: u64) -> (r: bool)
        ensures
            r == self.spec_contains(id),
    {
        self.find_index(id).is_some()
    }

    /// The number of live nodes.
    pub fn node_count(&self) -> (r: usize)
        ensures
            r == self.nodes@.len(),
    {
        self.nodes.len()
    }

    /// Create a fresh node with the next unused identifier and an empty
    /// neighbor list, and return its identifier.
    pub fn insert_node(&mut self) -> (id: u64)
        requires
            old(self).wf(),
            old(self).curr_id < u64::MAX,
        ensures
            final(self).wf(),
            id == old(self).curr_id + 1,
            !old(self).spec_contains(id),
            final(self).spec_contains(id),
            forall|y: u64|
                #[trigger] final(self).spec_contains(y) <==> (old(self).spec_contains(y) || y
                    == id),
            final(self).nodes@ == old(self).nodes@.push(id),
            final(self).adj_seqs() == old(self).adj_seqs().push(Seq::<u64>::empty()),
            final(self).edges@ == old(self).edges@,
            final(self).curr_id == id,
    {
        let id = self.curr_id + 1;
        self.curr_id = id;
        self.nodes.push(id);
        self.adj.push(Vec::new());
        proof {
            self.lemma_wf_after_node_push(*old(self), id);
            assert(self.adj_seqs() =~= old(self).adj_seqs().push(Seq::<u64>::empty()));
            assert forall|y: u64| #[trigger] self.spec_contains(y) <==> (old(self).spec_contains(
                y,
            ) || y == id) by {
                lemma_contains_push(old(self).nodes@, id, y);
            }
        }
        id
    }

    /// Add the node `id` if it is not live yet (an identifier seen twice
    /// names the same node), and keep the allocation counter at or above
    /// every live identifier.
    pub fn ensure_node(&mut self, id: u64)
        requires
            old(self).wf(),
        ensures
            final(self).wf(),
            final(self).spec_contains(id),
            forall|y: u64|
                #[trigger] final(self).spec_contains(y) <==> (old(self).spec_contains(y) || y
                    == id),
            old(self).spec_contains(id) ==> final(self).nodes@ == old(self).nodes@
                && final(self).adj@ == old(self).adj@,
            !old(self).spec_contains(id) ==> final(self).nodes@ == old(self).nodes@.push(id)
                && final(self).adj_seqs() == old(self).adj_seqs().push(Seq::<u64>::empty()),
            final(self).edges@ == old(self).edges@,
            final(self).curr_id == (if old(self).curr_id >= id {
                old(self).curr_id
            } else {
                id
            }),
    {
        if self.curr_id < id {
            self.curr_id = id;
        }
        if self.find_index(id).is_none() {
            self.nodes.push(id);
            self.adj.push(Vec::new());
            proof {
                let mid = Graph {
                    nodes: old(self).nodes,
                    adj: old(self).adj,
                    edges: old(self).edges,
                    curr_id: self.curr_id,
                };
                assert(mid.wf()) by {
                    assert forall|i: int| 0 <= i < mid.nodes@.len() implies
                        #[trigger] mid.nodes@[i] <= mid.curr_id by {
                        assert(old(self).nodes@[i] <= old(self).curr_id);
                    }
                }
                self.lemma_wf_after_node_push(mid, id);
                assert(self.adj_seqs() =~= old(self).adj_seqs().push(Seq::<u64>::empty()));
                assert forall|y: u64| #[trigger] self.spec_contains(y) <==> (old(
                    self,
                ).spec_contains(y) || y == id) by {
                    lemma_contains_push(old(self).nodes@, id, y);
                }
            }
        }
    }

    /// Helper for the two node-creating operations: pushing a fresh,
    /// in-range identifier with an empty neighbor list preserves
    /// well-formedness. `pre` is the state before the push.
    proof fn lemma_wf_after_node_push(self, pre: Graph, id: u64)
        requires
            pre.wf(),
            !pre.spec_contains(id),
            id <= self.curr_id,
            pre.curr_id <= self.curr_id,
            self.nodes@ == pre.nodes@.push(id),
            self.adj@.len() == pre.adj@.len() + 1,
            forall|i: int| 0 <= i < pre.adj@.len() ==> #[trigger] self.adj@[i] == pre.adj@[i],
            self.adj@.last()@.len() == 0,
            self.edges@ == pre.edges@,
        ensures
            self.wf(),
            self.spec_contains(id),
    {
        let n = pre.nodes@.len() as int;
        assert(self.spec_contains(id)) by {
            assert(self.nodes@[n] == id);
        }
        assert forall|y: u64| pre.spec_contains(y) implies self.spec_contains(y) by {
            let j = choose|j: int| 0 <= j < pre.nodes@.len() && pre.nodes@[j] == y;
            assert(self.nodes@[j] == y);
        }
        assert forall|i: int, b: u64| 0 <= i < self.nodes@.len() implies #[trigger] count_of(
            self.adj@[i]@,
            b,
        ) == pair_count(self.edges@, self.nodes@[i], b) by {
            if i < n {
                assert(self.adj@[i] == pre.adj@[i]);
                assert(self.nodes@[i] == pre.nodes@[i]);
            } else {
                assert(self.adj@[i]@ =~= Seq::<u64>::empty());
                assert(forall|k: int|
                    0 <= k < self.edges@.len() ==> (#[trigger] self.edges@[k]).from != id
                        && self.edges@[k].to != id) by {
                    assert(forall|k: int|
                        0 <= k < pre.edges@.len() ==> pre.spec_contains(
                            (#[trigger] pre.edges@[k]).from,
                        ) && pre.spec_contains(pre.edges@[k].to));
                }
                lemma_pair_count_zero(self.edges@, id, b);
            }
        }
    }

    /// Insert an undirected edge between two live nodes, recording `to` as
    /// a neighbor of `from` and `from` as a neighbor of `to`. If either
    /// endpoint is not live the graph is unchanged and `false` is returned.
    pub fn insert_edge(&mut self, from: u64, to: u64, weight: Option<u64>) -> (ok: bool)
        requires
            old(self).wf(),
        ensures
            final(self).wf(),
            ok == (old(self).spec_contains(from) && old(self).spec_contains(to)),
            final(self).nodes@ == old(self).nodes@,
            final(self).curr_id == old(self).curr_id,
            !ok ==> *final(self) == *old(self),
            ok ==> final(self).edges@ == old(self).edges@.push(
                GEdge { from, to, weight },
            ),
            ok ==> final(self).adj_of(from) == (if from == to {
                old(self).adj_of(from).push(to).push(from)
            } else {
                old(self).adj_of(from).push(to)
            }),
            ok && from != to ==> final(self).adj_of(to) == old(self).adj_of(to).push(from),
            ok ==> forall|y: u64|
                old(self).spec_contains(y) && y != from && y != to ==> final(self).adj_of(y)
                    == old(self).adj_of(y),
    {
        let fi_opt = self.find_index(from);
        let ti_opt = self.find_index(to);
        match (fi_opt, ti_opt) {
            (Some(fi), Some(ti)) => {
                let e = GEdge { from, to, weight };
                self.edges.push(e);
                self.adj[fi].push(to);
                self.adj[ti].push(from);
                proof {
                    let pre = *old(self);
                    assert forall|i: int, b: u64| 0 <= i < self.nodes@.len() implies
                        #[trigger] count_of(self.adj@[i]@, b) == pair_count(
                        self.edges@,
                        self.nodes@[i],
                        b,
                    ) by {
                        let a = self.nodes@[i];
                        lemma_pair_count_push(pre.edges@, e, a, b);
                        if i == fi && i == ti {
                            lemma_count_push(pre.adj@[i]@, to, b);
                            lemma_count_push(pre.adj@[i]@.push(to), from, b);
                        } else if i == fi {
                            lemma_count_push(pre.adj@[i]@, to, b);
                        } else if i == ti {
                            lemma_count_push(pre.adj@[i]@, from, b);
                        } else {
                            assert(self.adj@[i] == pre.adj@[i]);
                        }
                    }
                    assert(self.wf());
                    assert(final(self).adj_of(from) == (if from == to {
                        pre.adj_of(from).push(to).push(from)
                    } else {
                        pre.adj_of(from).push(to)
                    }));
                }
                true
            },
            _ => false,
        }
    }

    /// Remove the edge stored at position `i` in the edge list, together
    /// with the two adjacency entries it owes: the first occurrence of `to`
    /// leaves `from`'s neighbor list and the first occurrence of `from`
    /// leaves `to`'s list (the remaining one, for a self-loop).
    pub fn delete_edge(&mut self, i: usize)
        requires
            old(self).wf(),
            i < old(self).edges@.len(),
        ensures
            final(self).wf(),
            final(self).nodes@ == old(self).nodes@,
            final(self).curr_id == old(self).curr_id,
            final(self).edges@ == old(self).edges@.remove(i as int),
            ({
                let e = old(self).edges@[i as int];
                &&& (e.from != e.to ==> first_occurrence_removed(
                    old(self).adj_of(e.from),
                    final(self).adj_of(e.from),
                    e.to,
                ) && first_occurrence_removed(
                    old(self).adj_of(e.to),
                    final(self).adj_of(e.to),
                    e.from,
                ))
                &&& (e.from == e.to ==> exists|m: Seq<u64>|
                    first_occurrence_removed(old(self).adj_of(e.from), m, e.to)
                        && first_occurrence_removed(m, final(self).adj_of(e.from), e.from))
                &&& forall|y: u64|
                    old(self).spec_contains(y) && y != e.from && y != e.to
                        ==> final(self).adj_of(y) == old(self).adj_of(y)
            }),
    {
        let e = self.edges[i];
        self.edges.remove(i);
        let fi = match self.find_index(e.from) {
            Some(fi) => fi,
            None => {
                proof {
                    assert(false);
                }
                0
            },
        };
        let ti = match self.find_index(e.to) {
            Some(ti) => ti,
            None => {
                proof {
                    assert(false);
                }
                0
            },
        };
        proof {
            lemma_pair_count_at_least(old(self).edges@, i as int, e.from, e.to);
            lemma_count_contains(old(self).adj@[fi as int]@, e.to);
        }
        let found1 = remove_first_occurrence(&mut self.adj[fi], e.to);
        let ghost m = self.adj@[fi as int]@;
        proof {
            let pre = *old(self);
            let row1 = pre.adj@[fi as int]@;
            assert(found1);
            let j1 = choose|j: int|
                0 <= j < row1.len() && row1[j] == e.to && (forall|k: int|
                    0 <= k < j ==> row1[k] != e.to) && m == row1.remove(j);
            if fi != ti {
                assert(count_of(self.adj@[ti as int]@, e.from) > 0) by {
                    lemma_pair_count_at_least(pre.edges@, i as int, e.to, e.from);
                }
            } else {
                lemma_count_remove(row1, j1, e.from);
                lemma_pair_count_at_least(pre.edges@, i as int, e.from, e.from);
            }
            lemma_count_contains(self.adj@[ti as int]@, e.from);
        }
        let found2 = remove_first_occurrence(&mut self.adj[ti], e.from);
        proof {
            let pre = *old(self);
            assert(found2);
            self.lemma_wf_after_edge_delete(pre, i as int, fi as int, ti as int, e, m);
            lemma_index_of_distinct(pre.nodes@, fi as int);
            lemma_index_of_distinct(pre.nodes@, ti as int);
            assert(self.idx_of(e.from) == fi as int && self.idx_of(e.to) == ti as int);
            assert(pre.idx_of(e.from) == fi as int && pre.idx_of(e.to) == ti as int);
            if e.from != e.to {
                assert(self.adj@[fi as int]@ == m);
                assert(first_occurrence_removed(pre.adj_of(e.from), self.adj_of(e.from), e.to));
                assert(first_occurrence_removed(pre.adj_of(e.to), self.adj_of(e.to), e.from));
            } else {
                assert(first_occurrence_removed(pre.adj_of(e.from), m, e.to)
                    && first_occurrence_removed(m, self.adj_of(e.from), e.from));
            }
            assert forall|y: u64|
                pre.spec_contains(y) && y != e.from && y != e.to implies self.adj_of(y)
                == pre.adj_of(y) by {
                let p = pre.nodes@.index_of(y);
                assert(0 <= p < pre.nodes@.len() && pre.nodes@[p] == y);
                assert(p != fi && p != ti);
            }
        }
    }

    /// The live node identifiers, in insertion order (the read-only view a
    /// script gets of the graph).
    pub fn node_ids(&self) -> (r: Vec<u64>)
        ensures
            r@ == self.nodes@,
    {
        self.nodes.clone()
    }

    /// The ordered neighbor list of `id`, or `None` for a dead identifier.
    pub fn neighbors(&self, id: u64) -> (r: Option<Vec<u64>>)
        requires
            self.wf(),
        ensures
            r is Some <==> self.spec_contains(id),
            r matches Some(v) ==> v@ == self.adj_of(id),
    {
        match self.find_index(id) {
            Some(i) => Some(self.adj[i].clone()),
            None => None,
        }
    }

    /// Delete the node `id`: the node leaves the node list, every edge
    /// touching it is removed, and every occurrence of `id` disappears from
    /// the remaining neighbor lists. A dead identifier is a no-op.
    pub fn delete_node(&mut self, id: u64) -> (existed: bool)
        requires
            old(self).wf(),
        ensures
            final(self).wf(),
            existed == old(self).spec_contains(id),
            !existed ==> *final(self) == *old(self),
            existed ==> final(self).nodes@ == old(self).nodes@.remove(old(self).idx_of(id)),
            existed ==> final(self).edges@ == remove_incident(old(self).edges@, id),
            forall|k: int|
                0 <= k < final(self).edges@.len() ==> (#[trigger] final(self).edges@[k]).from
                    != id || !existed,
            forall|k: int|
                0 <= k < final(self).edges@.len() ==> (#[trigger] final(self).edges@[k]).to != id
                    || !existed,
            forall|y: u64|
                #[trigger] final(self).spec_contains(y) <==> (old(self).spec_contains(y) && (y
                    != id || !existed)),
            existed ==> forall|y: u64|
                #[trigger] final(self).spec_contains(y) ==> final(self).adj_of(y) == remove_all(
                    old(self).adj_of(y),
                    id,
                ),
            final(self).curr_id == old(self).curr_id,
    {
        let idx = match self.find_index(id) {
            None => {
                return false;
            },
            Some(i) => i,
        };
        let ghost pre = *old(self);
        let ghost r = idx as int;
        // Drop every edge that touches the node.
        let mut kept: Vec<GEdge> = Vec::new();
        let n = self.edges.len();
        let mut k: usize = 0;
        while k < n
            invariant
                k <= n,
                n == self.edges@.len(),
                *self == pre,
                kept@ == remove_incident(self.edges@.subrange(0, k as int), id),
            decreases n - k,
        {
            let e = self.edges[k];
            proof {
                assert(self.edges@.subrange(0, k + 1 as int) =~= self.edges@.subrange(
                    0,
                    k as int,
                ).push(e));
                lemma_remove_incident_push(self.edges@.subrange(0, k as int), e, id);
            }
            if e.from != id && e.to != id {
                kept.push(e);
            }
            k += 1;
        }
        proof {
            assert(self.edges@.subrange(0, n as int) =~= self.edges@);
        }
        self.edges = kept;
        self.nodes.remove(idx);
        self.adj.remove(idx);
        // Scrub the deleted node out of the remaining neighbor lists.
        let ghost mid_adj = self.adj@;
        let m = self.adj.len();
        let mut p: usize = 0;
        while p < m
            invariant
                p <= m,
                m == self.adj@.len(),
                self.adj@.len() == mid_adj.len(),
                self.nodes@ == pre.nodes@.remove(r),
                self.edges@ == remove_incident(pre.edges@, id),
                self.curr_id == pre.curr_id,
                forall|q: int|
                    0 <= q < p ==> #[trigger] self.adj@[q]@ == remove_all(mid_adj[q]@, id),
                forall|q: int| p <= q < m ==> #[trigger] self.adj@[q] == mid_adj[q],
            decreases m - p,
        {
            let row = filter_ne(&self.adj[p], id);
            self.adj[p] = row;
            p += 1;
        }
        proof {
            self.lemma_wf_after_node_delete(pre, id, r, mid_adj);
            lemma_index_of_distinct(pre.nodes@, r);
            lemma_remove_incident_clean(pre.edges@, id);
            assert forall|y: u64| #[trigger] self.spec_contains(y) implies (pre.spec_contains(y)
                && y != id) by {
                let q = choose|q: int| 0 <= q < self.nodes@.len() && self.nodes@[q] == y;
                if q < r {
                    assert(pre.nodes@[q] == y);
                } else {
                    assert(pre.nodes@[q + 1] == y);
                }
            }
            assert forall|y: u64| pre.spec_contains(y) && y != id implies self.spec_contains(
                y,
            ) by {
                let q = pre.nodes@.index_of(y);
                assert(0 <= q < pre.nodes@.len() && pre.nodes@[q] == y);
                if q < r {
                    assert(self.nodes@[q] == y);
                } else {
                    assert(self.nodes@[q - 1] == y);
                }
            }
            assert forall|y: u64| #[trigger] self.spec_contains(y) implies self.adj_of(y)
                == remove_all(pre.adj_of(y), id) by {
                let q = self.nodes@.index_of(y);
                lemma_index_of_distinct(self.nodes@, q);
                assert(0 <= q < self.nodes@.len() && self.nodes@[q] == y);
                let q0 = if q < r {
                    q
                } else {
                    q + 1
                };
                assert(pre.nodes@[q0] == y);
                lemma_index_of_distinct(pre.nodes@, q0);
                assert(mid_adj[q] == pre.adj@[q0]);
            }
        }
        true
    }

    /// Helper for `delete_node`: the state after dropping the node at
    /// position `r`, the edges that touch `id`, and the stale adjacency
    /// entries is well-formed. `mid_adj` is the adjacency index after the
    /// node's own row left but before the other rows were scrubbed.
    proof fn lemma_wf_after_node_delete(self, pre: Graph, id: u64, r: int, mid_adj: Seq<Vec<u64>>)
        requires
            pre.wf(),
            0 <= r < pre.nodes@.len(),
            pre.nodes@[r] == id,
            self.nodes@ == pre.nodes@.remove(r),
            mid_adj == pre.adj@.remove(r),
            self.edges@ == remove_incident(pre.edges@, id),
            self.curr_id == pre.curr_id,
            self.adj@.len() == mid_adj.len(),
            forall|q: int| 0 <= q < mid_adj.len() ==> #[trigger] self.adj@[q]@ == remove_all(
                mid_adj[q]@,
                id,
            ),
        ensures
            self.wf(),
    {
        lemma_remove_incident_clean(pre.edges@, id);
        assert forall|y: u64| pre.spec_contains(y) && y != id implies self.spec_contains(y) by {
            let q = pre.nodes@.index_of(y);
            assert(0 <= q < pre.nodes@.len() && pre.nodes@[q] == y);
            if q < r {
                assert(self.nodes@[q] == y);
            } else {
                assert(self.nodes@[q - 1] == y);
            }
        }
        assert forall|k: int| 0 <= k < self.edges@.len() implies self.spec_contains(
            (#[trigger] self.edges@[k]).from,
        ) && self.spec_contains(self.edges@[k].to) by {
            let e = self.edges@[k];
            let w = choose|w: int| 0 <= w < pre.edges@.len() && pre.edges@[w] == e;
            assert(pre.spec_contains(e.from) && pre.spec_contains(e.to));
        }
        assert forall|i: int, j: int|
            0 <= i < self.adj@.len() && 0 <= j < self.adj@[i]@.len() implies self.spec_contains(
            #[trigger] self.adj@[i]@[j],
        ) by {
            let b = self.adj@[i]@[j];
            let i0 = if i < r {
                i
            } else {
                i + 1
            };
            assert(mid_adj[i] == pre.adj@[i0]);
            assert(count_of(self.adj@[i]@, b) > 0) by {
                lemma_count_contains(self.adj@[i]@, b);
                assert(self.adj@[i]@[j] == b);
            }
            lemma_remove_all_count(pre.adj@[i0]@, id, b);
            assert(b != id);
            assert(count_of(pre.adj@[i0]@, b) > 0);
            lemma_count_contains(pre.adj@[i0]@, b);
            assert(pre.spec_contains(b));
        }
        assert forall|i: int, b: u64| 0 <= i < self.nodes@.len() implies #[trigger] count_of(
            self.adj@[i]@,
            b,
        ) == pair_count(self.edges@, self.nodes@[i], b) by {
            let a = self.nodes@[i];
            let i0 = if i < r {
                i
            } else {
                i + 1
            };
            assert(mid_adj[i] == pre.adj@[i0]);
            assert(a == pre.nodes@[i0]);
            assert(a != id);
            lemma_remove_all_count(pre.adj@[i0]@, id, b);
            if b == id {
                lemma_pair_count_zero_snd(self.edges@, a, id);
            } else {
                lemma_remove_incident_pair(pre.edges@, id, a, b);
                assert(count_of(pre.adj@[i0]@, b) == pair_count(pre.edges@, pre.nodes@[i0], b));
            }
        }
    }

    /// Helper for `delete_edge`: the state after removing edge `i` and one
    /// matching occurrence from each endpoint's list is well-formed. `m` is
    /// the list of node `fi` after the first removal.
    proof fn lemma_wf_after_edge_delete(
        self,
        pre: Graph,
        i: int,
        fi: int,
        ti: int,
        e: GEdge,
        m: Seq<u64>,
    )
        requires
            pre.wf(),
            0 <= i < pre.edges@.len(),
            pre.edges@[i] == e,
            0 <= fi < pre.nodes@.len(),
            0 <= ti < pre.nodes@.len(),
            pre.nodes@[fi] == e.from,
            pre.nodes@[ti] == e.to,
            self.nodes@ == pre.nodes@,
            self.curr_id == pre.curr_id,
            self.edges@ == pre.edges@.remove(i),
            self.adj@.len() == pre.adj@.len(),
            first_occurrence_removed(pre.adj@[fi]@, m, e.to),
            fi != ti ==> self.adj@[fi]@ == m && first_occurrence_removed(
                pre.adj@[ti]@,
                self.adj@[ti]@,
                e.from,
            ),
            fi == ti ==> first_occurrence_removed(m, self.adj@[ti]@, e.from),
            forall|q: int|
                0 <= q < pre.adj@.len() && q != fi && q != ti ==> #[trigger] self.adj@[q]
                    == pre.adj@[q],
        ensures
            self.wf(),
    {
        let row0 = pre.adj@[fi]@;
        assert(row0.contains(e.to)) by {
            lemma_pair_count_at_least(pre.edges@, i, e.from, e.to);
            lemma_count_contains(row0, e.to);
        }
        let j1 = choose|j: int|
            0 <= j < row0.len() && row0[j] == e.to && (forall|k: int|
                0 <= k < j ==> row0[k] != e.to) && m == row0.remove(j);
        assert forall|p: int, b: u64| 0 <= p < self.nodes@.len() implies #[trigger] count_of(
            self.adj@[p]@,
            b,
        ) == pair_count(self.edges@, self.nodes@[p], b) by {
            let a = self.nodes@[p];
            lemma_pair_count_remove(pre.edges@, i, a, b);
            if fi == ti {
                assert(m.contains(e.from)) by {
                    lemma_count_remove(row0, j1, e.from);
                    lemma_pair_count_at_least(pre.edges@, i, e.from, e.from);
                    lemma_count_contains(m, e.from);
                }
                if p == fi {
                    let j2 = choose|j: int|
                        0 <= j < m.len() && m[j] == e.from && (forall|k: int|
                            0 <= k < j ==> m[k] != e.from) && self.adj@[ti]@ == m.remove(j);
                    lemma_count_remove(row0, j1, b);
                    lemma_count_remove(m, j2, b);
                } else {
                    assert(self.adj@[p] == pre.adj@[p]);
                }
            } else {
                assert(pre.adj@[ti]@.contains(e.from)) by {
                    lemma_pair_count_at_least(pre.edges@, i, e.to, e.from);
                    lemma_count_contains(pre.adj@[ti]@, e.from);
                }
                if p == fi {
                    lemma_count_remove(row0, j1, b);
                } else if p == ti {
                    let row2 = pre.adj@[ti]@;
                    let j2 = choose|j: int|
                        0 <= j < row2.len() && row2[j] == e.from && (forall|k: int|
                            0 <= k < j ==> row2[k] != e.from) && self.adj@[ti]@ == row2.remove(j);
                    lemma_count_remove(row2, j2, b);
                } else {
                    assert(self.adj@[p] == pre.adj@[p]);
                }
            }
        }
        assert forall|p: int, j: int|
            0 <= p < self.adj@.len() && 0 <= j < self.adj@[p]@.len() implies self.spec_contains(
            #[trigger] self.adj@[p]@[j],
        ) by {
            if p == fi || p == ti {
                assert(forall|k: int| 0 <= k < m.len() ==> row0.contains(#[trigger] m[k]));
                assert(forall|k: int|
                    0 <= k < self.adj@[ti]@.len() ==> m.contains(#[trigger] self.adj@[ti]@[k])
                        || pre.adj@[ti]@.contains(self.adj@[ti]@[k]));
            } else {
                assert(self.adj@[p] == pre.adj@[p]);
            }
        }
        assert forall|k: int| 0 <= k < self.edges@.len() implies self.spec_contains(
            (#[trigger] self.edges@[k]).from,
        ) && self.spec_contains(self.edges@[k].to) by {
            assert(self.edges@[k] == if k < i {
                pre.edges@[k]
            } else {
                pre.edges@[k + 1]
            });
        }
    }
}

/// Whether some triple of `ts` names `y` as an endpoint.
pub open spec fn mentions(ts: Seq<(u64, u64, Option<u64>)>, y: u64) -> bool {
    exists|i: int| 0 <= i < ts.len() && ((#[trigger] ts[i]).0 == y || ts[i].1 == y)
}

/// The node list that loading `ts` produces: every endpoint identifier, in
/// first-appearance order.
pub open spec fn load_nodes(ts: Seq<(u64, u64, Option<u64>)>) -> Seq<u64>
    decreases ts.len(),
{
    if ts.len() == 0 {
        Seq::empty()
    } else {
        let rest = load_nodes(ts.drop_last());
        let t = ts.last();
        let with_f = if rest.contains(t.0) {
            rest
        } else {
            rest.push(t.0)
        };
        if with_f.contains(t.1) {
            with_f
        } else {
            with_f.push(t.1)
        }
    }
}

pub broadcast proof fn lemma_contains_push(s: Seq<u64>, e: u64, y: u64)
    ensures
        #[trigger] s.push(e).contains(y) <==> (s.contains(y) || y == e),
{
    if s.contains(y) {
        let j = choose|j: int| 0 <= j < s.len() && s[j] == y;
        assert(s.push(e)[j] == y);
    }
    assert(s.push(e)[s.len() as int] == e);
    if s.push(e).contains(y) {
        let j = choose|j: int| 0 <= j < s.push(e).len() && s.push(e)[j] == y;
        if j < s.len() {
            assert(s[j] == y);
        }
    }
}

/// The neighbor list of `y` that loading `ts` produces: for each triple,
/// in order, the other endpoint wherever `y` is one (both, for a
/// self-loop).
pub open spec fn load_adj(ts: Seq<(u64, u64, Option<u64>)>, y: u64) -> Seq<u64>
    decreases ts.len(),
{
    if ts.len() == 0 {
        Seq::empty()
    } else {
        let rest = load_adj(ts.drop_last(), y);
        let t = ts.last();
        let with_f = if t.0 == y {
            rest.push(t.1)
        } else {
            rest
        };
        if t.1 == y {
            with_f.push(t.0)
        } else {
            with_f
        }
    }
}

pub broadcast proof fn lemma_load_adj_push(
    ts: Seq<(u64, u64, Option<u64>)>,
    t: (u64, u64, Option<u64>),
    y: u64,
)
    ensures
        #[trigger] load_adj(ts.push(t), y) == {
            let with_f = if t.0 == y {
                load_adj(ts, y).push(t.1)
            } else {
                load_adj(ts, y)
            };
            if t.1 == y {
                with_f.push(t.0)
            } else {
                with_f
            }
        },
{
    assert(ts.push(t).drop_last() =~= ts);
}

/// A node no triple mentions gets an empty neighbor list.
pub proof fn lemma_load_adj_unmentioned(ts: Seq<(u64, u64, Option<u64>)>, y: u64)
    requires
        !mentions(ts, y),
    ensures
        load_adj(ts, y) == Seq::<u64>::empty(),
    decreases ts.len(),
{
    if ts.len() > 0 {
        assert(!mentions(ts.drop_last(), y)) by {
            if mentions(ts.drop_last(), y) {
                let i = choose|i: int|
                    0 <= i < ts.drop_last().len() && ((#[trigger] ts.drop_last()[i]).0 == y
                        || ts.drop_last()[i].1 == y);
                assert(ts[i].0 == y || ts[i].1 == y);
            }
        }
        assert(!(ts.last().0 == y || ts.last().1 == y)) by {
            assert(ts[ts.len() - 1] == ts.last());
        }
        lemma_load_adj_unmentioned(ts.drop_last(), y);
    }
}

pub broadcast proof fn lemma_mentions_push(ts: Seq<(u64, u64, Option<u64>)>, t: (u64, u64, Option<u64>), y: u64)
    ensures
        #[trigger] mentions(ts.push(t), y) <==> (mentions(ts, y) || t.0 == y || t.1 == y),
{
    if mentions(ts, y) {
        let i = choose|i: int| 0 <= i < ts.len() && ((#[trigger] ts[i]).0 == y || ts[i].1 == y);
        assert(ts.push(t)[i].0 == y || ts.push(t)[i].1 == y);
    }
    if t.0 == y || t.1 == y {
        assert(ts.push(t)[ts.len() as int].0 == y || ts.push(t)[ts.len() as int].1 == y);
    }
    if mentions(ts.push(t), y) {
        let i = choose|i: int|
            0 <= i < ts.push(t).len() && ((#[trigger] ts.push(t)[i]).0 == y || ts.push(t)[i].1
                == y);
        if i < ts.len() {
            assert(ts[i].0 == y || ts[i].1 == y);
        }
    }
}

/// Appending a fresh node leaves every existing neighbor list in place.
proof fn lemma_adj_of_after_node_push(pre: Graph, post: Graph, id: u64, y: u64)
    requires
        pre.wf(),
        post.wf(),
        pre.spec_contains(y),
        post.nodes@ == pre.nodes@ || post.nodes@ == pre.nodes@.push(id),
        post.nodes@ == pre.nodes@ ==> post.adj@ == pre.adj@,
        post.nodes@ == pre.nodes@.push(id) ==> post.adj_seqs() == pre.adj_seqs().push(
            Seq::<u64>::empty(),
        ),
    ensures
        post.adj_of(y) == pre.adj_of(y),
{
    let j = pre.idx_of(y);
    assert(0 <= j < pre.nodes@.len() && pre.nodes@[j] == y);
    lemma_index_of_distinct(pre.nodes@, j);
    if post.nodes@ == pre.nodes@ {
        assert(post.idx_of(y) == j);
        assert(post.adj@[j] == pre.adj@[j]);
    } else {
        assert(post.nodes@[j] == y);
        lemma_index_of_distinct(post.nodes@, j);
        assert(post.idx_of(y) == j);
        assert(post.adj_seqs()[j] == pre.adj_seqs()[j]);
        assert(post.adj@[j]@ == pre.adj@[j]@);
    }
}

/// A node just appended starts with an empty neighbor list.
proof fn lemma_adj_of_fresh(pre: Graph, post: Graph, id: u64)
    requires
        pre.wf(),
        post.wf(),
        !pre.spec_contains(id),
        post.nodes@ == pre.nodes@.push(id),
        post.adj_seqs() == pre.adj_seqs().push(Seq::<u64>::empty()),
    ensures
        post.adj_of(id) == Seq::<u64>::empty(),
{
    let j = pre.nodes@.len() as int;
    assert(post.nodes@[j] == id);
    lemma_index_of_distinct(post.nodes@, j);
    assert(post.idx_of(id) == j);
    assert(post.adj_seqs()[j] == Seq::<u64>::empty());
    assert(post.adj@[j]@ == Seq::<u64>::empty());
}

/// Build a graph from an ordered sequence of `(from, to, weight)` triples,
/// as the graph-loading collaborator hands them over. A repeated identifier
/// names the same node; each triple becomes one edge, in order.
pub fn from_triples(triples: &Vec<(u64, u64, Option<u64>)>) -> (g: Graph)
    ensures
        g.wf(),
        g.nodes@ == load_nodes(triples@),
        g.edges@.len() == triples@.len(),
        forall|i: int|
            0 <= i < triples@.len() ==> {
                let e = #[trigger] g.edges@[i];
                e.from == triples@[i].0 && e.to == triples@[i].1 && e.weight == triples@[i].2
            },
        forall|y: u64| #[trigger] g.spec_contains(y) <==> mentions(triples@, y),
        forall|y: u64| #[trigger] g.spec_contains(y) ==> g.adj_of(y) == load_adj(triples@, y),
{
    broadcast use lemma_mentions_push;

    let mut g = Graph::new();
    let n = triples.len();
    let mut i: usize = 0;
    while i < n
        invariant
            i <= n,
            n == triples@.len(),
            g.wf(),
            g.nodes@ == load_nodes(triples@.subrange(0, i as int)),
            g.edges@.len() == i,
            forall|k: int|
                0 <= k < i ==> {
                    let e = #[trigger] g.edges@[k];
                    e.from == triples@[k].0 && e.to == triples@[k].1 && e.weight == triples@[k].2
                },
            forall|y: u64| #[trigger] g.spec_contains(y) <==> mentions(
                triples@.subrange(0, i as int),
                y,
            ),
            forall|y: u64|
                #[trigger] g.spec_contains(y) ==> g.adj_of(y) == load_adj(
                    triples@.subrange(0, i as int),
                    y,
                ),
        decreases n - i,
    {
        let (f, t, w) = triples[i];
        let ghost g0 = g;
        let ghost prefix = triples@.subrange(0, i as int);
        let ghost tr = triples@[i as int];
        proof {
            assert(triples@.subrange(0, i + 1 as int) =~= prefix.push(tr));
            assert(prefix.push(tr).drop_last() =~= prefix);
        }
        g.ensure_node(f);
        let ghost g1 = g;
        g.ensure_node(t);
        let ghost g2 = g;
        proof {
            assert forall|y: u64| #[trigger] g2.spec_contains(y) <==> (g0.spec_contains(y) || y
                == f || y == t) by {
                if !g0.spec_contains(f) {
                    lemma_contains_push(g0.nodes@, f, y);
                }
                if !g1.spec_contains(t) {
                    lemma_contains_push(g1.nodes@, t, y);
                }
            }
            assert(g.spec_contains(f) && g.spec_contains(t));
        }
        let ok = g.insert_edge(f, t, w);
        proof {
            assert(ok);
            assert(g.nodes@ == load_nodes(triples@.subrange(0, i + 1 as int))) by {
                assert(load_nodes(prefix.push(tr)) == {
                    let rest = load_nodes(prefix);
                    let with_f = if rest.contains(f) {
                        rest
                    } else {
                        rest.push(f)
                    };
                    if with_f.contains(t) {
                        with_f
                    } else {
                        with_f.push(t)
                    }
                });
                assert(g1.nodes@ == if g0.nodes@.contains(f) {
                    g0.nodes@
                } else {
                    g0.nodes@.push(f)
                });
            }
            assert forall|y: u64| #[trigger] g.spec_contains(y) <==> mentions(
                triples@.subrange(0, i + 1 as int),
                y,
            ) by {
                lemma_mentions_push(prefix, tr, y);
                assert(f == tr.0 && t == tr.1);
                assert(g0.spec_contains(y) <==> mentions(prefix, y));
                assert(g2.spec_contains(y) <==> (g0.spec_contains(y) || y == f || y == t));
                assert(g.spec_contains(y) == g2.spec_contains(y));
            }
            // Every neighbor list after this triple is the old list with
            // this triple's contribution appended.
            assert forall|y: u64| g2.spec_contains(y) implies g2.adj_of(y) == load_adj(
                prefix,
                y,
            ) by {
                if g0.spec_contains(y) {
                    lemma_adj_of_after_node_push(g0, g1, f, y);
                    lemma_adj_of_after_node_push(g1, g2, t, y);
                    assert(g0.adj_of(y) == load_adj(prefix, y));
                } else {
                    assert(!mentions(prefix, y));
                    lemma_load_adj_unmentioned(prefix, y);
                    if !g1.spec_contains(y) {
                        lemma_adj_of_fresh(g1, g2, t);
                        assert(y == t);
                    } else {
                        lemma_adj_of_fresh(g0, g1, f);
                        assert(y == f);
                        lemma_adj_of_after_node_push(g1, g2, t, y);
                    }
                }
            }
            assert forall|y: u64| #[trigger] g.spec_contains(y) implies g.adj_of(y) == load_adj(
                triples@.subrange(0, i + 1 as int),
                y,
            ) by {
                lemma_load_adj_push(prefix, tr, y);
                assert(g2.spec_contains(y) ==> g2.adj_of(y) == load_adj(prefix, y));
                assert(g2.spec_contains(y));
                if y != f && y != t {
                    assert(g.adj_of(y) == g2.adj_of(y));
                }
            }
        }
        i += 1;
    }
    proof {
        assert(triples@.subrange(0, n as int) =~= triples@);
    }
    g
}

/// Degrees of all live nodes, parallel to the node list: `degs[i]` is the
/// number of edge endpoints equal to `nodes[i]` (a self-loop counts twice).
pub fn compute_degrees(graph: &Graph) -> (degs: Vec<u64>)
    requires
        graph.wf(),
        2 * graph.edges@.len() <= u64::MAX,
    ensures
        degs@.len() == graph.nodes@.len(),
        forall|i: int|
            0 <= i < degs@.len() ==> #[trigger] degs@[i] == degree_in(
                graph.edges@,
                graph.nodes@[i],
            ),
{
    broadcast use lemma_degree_push;

    let n = graph.nodes.len();
    let mut degs: Vec<u64> = vec![0u64; n];
    let ne = graph.edges.len();
    let mut k: usize = 0;
    while k < ne
        invariant
            k <= ne,
            ne == graph.edges@.len(),
            2 * graph.edges@.len() <= u64::MAX,
            graph.wf(),
            degs@.len() == graph.nodes@.len(),
            forall|i: int|
                0 <= i < degs@.len() ==> #[trigger] degs@[i] == degree_in(
                    graph.edges@.subrange(0, k as int),
                    graph.nodes@[i],
                ),
        decreases ne - k,
    {
        let e = graph.edges[k];
        proof {
            assert(graph.edges@.subrange(0, k + 1 as int) =~= graph.edges@.subrange(
                0,
                k as int,
            ).push(graph.edges@[k as int]));
            lemma_degree_bound(graph.edges@.subrange(0, k as int), e.from);
            lemma_degree_bound(graph.edges@.subrange(0, k as int), e.to);
        }
        let fi = match graph.find_index(e.from) {
            Some(fi) => fi,
            None => {
                proof {
                    assert(false);
                }
                0
            },
        };
        let d = degs[fi];
        degs[fi] = d + 1;
        let ti = match graph.find_index(e.to) {
            Some(ti) => ti,
            None => {
                proof {
                    assert(false);
                }
                0
            },
        };
        let d2 = degs[ti];
        degs[ti] = d2 + 1;
        proof {
            let prefix = graph.edges@.subrange(0, k as int);
            assert forall|i: int| 0 <= i < degs@.len() implies #[trigger] degs@[i] == degree_in(
                graph.edges@.subrange(0, k + 1 as int),
                graph.nodes@[i],
            ) by {
                let a = graph.nodes@[i];
                lemma_degree_push(prefix, e, a);
                if a != e.from && a != e.to {
                    assert(i != fi && i != ti);
                }
            }
        }
        k += 1;
    }
    proof {
        assert(graph.edges@.subrange(0, ne as int) =~= graph.edges@);
    }
    degs
}

/// Every degree is bounded by twice the number of edges.
pub proof fn lemma_degree_bound(es: Seq<GEdge>, n: u64)
    ensures
        degree_in(es, n) <= 2 * es.len(),
    decreases es.len(),
{
    if es.len() > 0 {
        lemma_degree_bound(es.drop_last(), n);
    }
}

/// The adjacency index lists each edge's endpoints in each other's entries:
/// in every well-formed graph (every graph reachable by the insert and
/// delete operations, which all preserve `wf`), the endpoints of each edge
/// appear in one another's neighbor lists.
pub proof fn lemma_adjacency_consistent(g: Graph, k: int)
    requires
        g.wf(),
        0 <= k < g.edges@.len(),
    ensures
        g.adj_of(g.edges@[k].from).contains(g.edges@[k].to),
        g.adj_of(g.edges@[k].to).contains(g.edges@[k].from),
{
    let e = g.edges@[k];
    assert(g.spec_contains(e.from) && g.spec_contains(e.to));
    let fi = g.idx_of(e.from);
    assert(0 <= fi < g.nodes@.len() && g.nodes@[fi] == e.from);
    let ti = g.idx_of(e.to);
    assert(0 <= ti < g.nodes@.len() && g.nodes@[ti] == e.to);
    lemma_pair_count_at_least(g.edges@, k, e.from, e.to);
    assert(count_of(g.adj@[fi]@, e.to) == pair_count(g.edges@, g.nodes@[fi], e.to));
    lemma_count_contains(g.adj@[fi]@, e.to);
    lemma_pair_count_at_least(g.edges@, k, e.to, e.from);
    assert(count_of(g.adj@[ti]@, e.from) == pair_count(g.edges@, g.nodes@[ti], e.from));
    lemma_count_contains(g.adj@[ti]@, e.from);
}

/// A copy of `v` with every occurrence of `x` dropped, order kept.
fn filter_ne(v: &Vec<u64>, x: u64) -> (r: Vec<u64>)
    ensures
        r@ == remove_all(v@, x),
{
    let mut out: Vec<u64> = Vec::new();
    let n = v.len();
    let mut i: usize = 0;
    while i < n
        invariant
            i <= n,
            n == v@.len(),
            out@ == remove_all(v@.subrange(0, i as int), x),
        decreases n - i,
    {
        let c = v[i];
        proof {
            assert(v@.subrange(0, i + 1 as int) =~= v@.subrange(0, i as int).push(c));
            lemma_remove_all_push(v@.subrange(0, i as int), c, x);
        }
        if c != x {
            out.push(c);
        }
        i += 1;
    }
    proof {
        assert(v@.subrange(0, n as int) =~= v@);
    }
    out
}

/// Remove the first occurrence of `x` from `v`, if any, and say whether one
/// was found.
fn remove_first_occurrence(v: &mut Vec<u64>, x: u64) -> (found: bool)
    ensures
        found == old(v)@.contains(x),
        !found ==> final(v)@ == old(v)@,
        found ==> exists|j: int|
            0 <= j < old(v)@.len() && old(v)@[j] == x && (forall|k: int|
                0 <= k < j ==> old(v)@[k] != x) && final(v)@ == #[trigger] old(v)@.remove(j),
        first_occurrence_removed(old(v)@, final(v)@, x),
{
    let n = v.len();
    let mut i: usize = 0;
    while i < n
        invariant
            i <= n,
            n == v@.len(),
            v@ == old(v)@,
            forall|k: int| 0 <= k < i ==> v@[k] != x,
        decreases n - i,
    {
        if v[i] == x {
            v.remove(i);
            proof {
                assert(old(v)@[i as int] == x);
            }
            return true;
        }
        i += 1;
    }
    proof {
        assert(!old(v)@.contains(x)) by {
            if old(v)@.contains(x) {
                let j = choose|j: int| 0 <= j < old(v)@.len() && old(v)@[j] == x;
            }
        }
    }
    false
}

} // verus!
