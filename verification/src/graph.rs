//! The adjacency index: node identifiers and their neighbour lists.
//!
//! Built once from an edge list and read-only afterwards.  Each distinct
//! identifier gets a dense index (its position in the identifier list), and
//! every edge is inserted in both directions, so the structure is
//! undirected by construction; duplicate edges are simply appended.  The
//! engine's per-round work is plain index arithmetic over this structure,
//! while the original identifier is kept only for reporting.

use vstd::prelude::*;
use crate::node::NodeId;

verus! {

/// The views of a sequence of identifiers.
pub open spec fn ids_view(ids: Seq<NodeId>) -> Seq<Seq<u64>> {
    ids.map_values(|n: NodeId| n@)
}

/// The views of an edge list's endpoint pairs.
pub open spec fn edges_view(edges: Seq<(NodeId, NodeId)>) -> Seq<(Seq<u64>, Seq<u64>)> {
    edges.map_values(|e: (NodeId, NodeId)| (e.0@, e.1@))
}

/// Whether some identifier in the list has the given view.
pub open spec fn in_ids(ids: Seq<NodeId>, s: Seq<u64>) -> bool {
    exists|n: int| 0 <= n < ids.len() && ids[n]@ == s
}

/// Whether the identifier occurs as an endpoint of some edge.
pub open spec fn appears(es: Seq<(Seq<u64>, Seq<u64>)>, s: Seq<u64>) -> bool {
    exists|e: int| 0 <= e < es.len() && (es[e].0 == s || es[e].1 == s)
}

/// How often the index value `v` occurs in a neighbour list.
pub open spec fn count_idx(s: Seq<usize>, v: int) -> int
    decreases s.len(),
{
    if s.len() == 0 {
        0
    } else {
        count_idx(s.drop_last(), v) + if s.last() == v {
            1int
        } else {
            0int
        }
    }
}

/// How often the directed pair `(a, b)` occurs in an edge list.
pub open spec fn count_pair(es: Seq<(Seq<u64>, Seq<u64>)>, a: Seq<u64>, b: Seq<u64>) -> int
    decreases es.len(),
{
    if es.len() == 0 {
        0
    } else {
        count_pair(es.drop_last(), a, b) + if es.last().0 == a && es.last().1 == b {
            1int
        } else {
            0int
        }
    }
}

proof fn lemma_count_idx_push(s: Seq<usize>, x: usize, v: int)
    ensures
        count_idx(s.push(x), v) == count_idx(s, v) + if x == v {
            1int
        } else {
            0int
        },
{
    assert(s.push(x).drop_last() =~= s);
}

proof fn lemma_count_pair_push(
    es: Seq<(Seq<u64>, Seq<u64>)>,
    e: (Seq<u64>, Seq<u64>),
    a: Seq<u64>,
    b: Seq<u64>,
)
    ensures
        count_pair(es.push(e), a, b) == count_pair(es, a, b) + if e.0 == a && e.1 == b {
            1int
        } else {
            0int
        },
{
    assert(es.push(e).drop_last() =~= es);
}

/// A value that occurs nowhere in the list is counted zero times.
proof fn lemma_count_idx_absent(s: Seq<usize>, v: int)
    requires
        forall|j: int| 0 <= j < s.len() ==> s[j] != v,
    ensures
        count_idx(s, v) == 0,
    decreases s.len(),
{
    if s.len() > 0 {
        lemma_count_idx_absent(s.drop_last(), v);
    }
}

/// An identifier that is no endpoint of any edge forms no pair, on either
/// side.
proof fn lemma_absent_pair_count(es: Seq<(Seq<u64>, Seq<u64>)>, s: Seq<u64>, t: Seq<u64>)
    requires
        !appears(es, s),
    ensures
        count_pair(es, s, t) == 0,
        count_pair(es, t, s) == 0,
    decreases es.len(),
{
    if es.len() > 0 {
        assert(!appears(es.drop_last(), s)) by {
            if appears(es.drop_last(), s) {
                let e = choose|e: int|
                    0 <= e < es.drop_last().len() && (es.drop_last()[e].0 == s
                        || es.drop_last()[e].1 == s);
                assert(es[e].0 == s || es[e].1 == s);
            }
        }
        assert(es.last().0 != s && es.last().1 != s) by {
            if es.last().0 == s || es.last().1 == s {
                assert(appears(es, s));
            }
        }
        lemma_absent_pair_count(es.drop_last(), s, t);
    }
}

/// The undirected node-to-neighbours index.
pub struct Graph {
    ids: Vec<NodeId>,
    adj: Vec<Vec<usize>>,
}

impl Graph {
    /// The identifiers, by dense index.
    pub closed spec fn ids_seq(&self) -> Seq<Seq<u64>> {
        ids_view(self.ids@)
    }

    /// The neighbour lists, by dense index.
    pub closed spec fn adj_seq(&self) -> Seq<Seq<usize>> {
        self.adj@.map_values(|v: Vec<usize>| v@)
    }

    /// Whether the graph holds a node with the given identifier view.
    pub open spec fn has_id(&self, s: Seq<u64>) -> bool {
        exists|n: int| 0 <= n < self.ids_seq().len() && self.ids_seq()[n] == s
    }

    /// Well-formed: one neighbour list per node, every listed neighbour a
    /// valid index, identifiers canonical and pairwise distinct.
    pub open spec fn wf(&self) -> bool {
        &&& self.adj_seq().len() == self.ids_seq().len()
        &&& forall|n: int, j: int|
            0 <= n < self.adj_seq().len() && 0 <= j < self.adj_seq()[n].len()
                ==> (self.adj_seq()[n][j] as int) < self.ids_seq().len()
        &&& forall|n: int|
            0 <= n < self.ids_seq().len()
                ==> (self.ids_seq()[n].len() == 0 || self.ids_seq()[n].last() != 0)
        &&& forall|n1: int, n2: int|
            0 <= n1 < self.ids_seq().len() && 0 <= n2 < self.ids_seq().len() && n1 != n2
                ==> self.ids_seq()[n1] != self.ids_seq()[n2]
    }

    /// The adjacency built from `edges`: the multiplicity of `n2` in
    /// `n1`'s neighbour list is the number of edges between the two
    /// identifiers, counting both directions.
    pub open spec fn adjacency_of(&self, es: Seq<(Seq<u64>, Seq<u64>)>) -> bool {
        forall|n1: int, n2: int|
            0 <= n1 < self.ids_seq().len() && 0 <= n2 < self.ids_seq().len()
                ==> count_idx(self.adj_seq()[n1], n2) == count_pair(
                    es,
                    self.ids_seq()[n1],
                    self.ids_seq()[n2],
                ) + count_pair(es, self.ids_seq()[n2], self.ids_seq()[n1])
    }

    /// The number of nodes.
    pub fn node_count(&self) -> (r: usize)
        ensures
            r == self.ids_seq().len(),
    {
        self.ids.len()
    }

    /// The identifier of the node at a dense index.
    pub fn node_id(&self, n: usize) -> (r: &NodeId)
        requires
            n < self.ids_seq().len(),
        ensures
            r@ == self.ids_seq()[n as int],
    {
        &self.ids[n]
    }

    /// The neighbour list of the node at a dense index.
    pub fn neighbors(&self, n: usize) -> (r: &Vec<usize>)
        requires
            n < self.adj_seq().len(),
        ensures
            r@ == self.adj_seq()[n as int],
    {
        &self.adj[n]
    }

    /// The identifiers of all nodes, by dense index.
    pub fn get_nodes(&self) -> (r: Vec<NodeId>)
        ensures
            ids_view(r@) == self.ids_seq(),
    {
        let mut r: Vec<NodeId> = Vec::new();
        let len = self.ids.len();
        let mut i: usize = 0;
        while i < len
            invariant
                i <= len,
                len == self.ids@.len(),
                r@.len() == i,
                forall|j: int| 0 <= j < i ==> r@[j]@ == self.ids_seq()[j],
            decreases len - i,
        {
            r.push(self.ids[i].clone());
            i = i + 1;
        }
        proof {
            assert(ids_view(r@) =~= self.ids_seq());
        }
        r
    }
}

/// The position of the identifier in the list, if it is there.
fn find_index(ids: &Vec<NodeId>, id: &NodeId) -> (r: Option<usize>)
    ensures
        match r {
            Some(n) => n < ids@.len() && ids@[n as int]@ == id@,
            None => !in_ids(ids@, id@),
        },
{
    let len = ids.len();
    let mut n: usize = 0;
    while n < len
        invariant
            n <= len,
            len == ids@.len(),
            forall|j: int| 0 <= j < n ==> ids@[j]@ != id@,
        decreases len - n,
    {
        if ids[n] == *id {
            return Some(n);
        }
        n = n + 1;
    }
    None
}

/// Append one neighbour index to one row.
fn push_to_row(adj: &mut Vec<Vec<usize>>, i: usize, v: usize)
    requires
        i < old(adj)@.len(),
    ensures
        final(adj)@.len() == old(adj)@.len(),
        final(adj)@[i as int]@ == old(adj)@[i as int]@.push(v),
        forall|j: int| 0 <= j < old(adj)@.len() && j != i ==> final(adj)@[j] == old(adj)@[j],
{
    let row = &mut adj[i];
    row.push(v);
}

/// The dense index of the identifier, inserting it with an empty
/// neighbour list if it is new.
fn find_or_insert(ids: &mut Vec<NodeId>, adj: &mut Vec<Vec<usize>>, id: &NodeId) -> (n: usize)
    requires
        id.wf(),
        old(ids)@.len() == old(adj)@.len(),
        forall|j: int| 0 <= j < old(ids)@.len() ==> old(ids)@[j].wf(),
        forall|j1: int, j2: int|
            0 <= j1 < old(ids)@.len() && 0 <= j2 < old(ids)@.len() && j1 != j2
                ==> old(ids)@[j1]@ != old(ids)@[j2]@,
    ensures
        final(ids)@.len() == final(adj)@.len(),
        old(ids)@.len() <= final(ids)@.len(),
        n < final(ids)@.len(),
        final(ids)@[n as int]@ == id@,
        forall|j: int| 0 <= j < old(ids)@.len() ==> final(ids)@[j] == old(ids)@[j],
        forall|j: int| 0 <= j < old(adj)@.len() ==> final(adj)@[j] == old(adj)@[j],
        forall|j: int| 0 <= j < final(ids)@.len() ==> final(ids)@[j].wf(),
        forall|j1: int, j2: int|
            0 <= j1 < final(ids)@.len() && 0 <= j2 < final(ids)@.len() && j1 != j2
                ==> final(ids)@[j1]@ != final(ids)@[j2]@,
        in_ids(old(ids)@, id@) ==> final(ids)@ == old(ids)@ && final(adj)@ == old(adj)@,
        !in_ids(old(ids)@, id@) ==> final(ids)@.len() == old(ids)@.len() + 1 && n == old(
            ids,
        )@.len() && final(adj)@[n as int]@ == Seq::<usize>::empty(),
{
    match find_index(ids, id) {
        Some(n) => {
            proof {
                assert(in_ids(ids@, id@));
            }
            n
        },
        None => {
            let n = ids.len();
            ids.push(id.clone());
            adj.push(Vec::new());
            n
        },
    }
}

impl Graph {
    /// Build the index from an edge list: each endpoint gets a dense index
    /// at first sight, and each edge appends each endpoint to the other's
    /// neighbour list (a self-loop appends its node twice).
    #[verifier::loop_isolation(false)]
    #[verifier::rlimit(60)]
    pub fn new(edges: &Vec<(NodeId, NodeId)>) -> (g: Graph)
        requires
            forall|e: int| 0 <= e < edges@.len() ==> edges@[e].0.wf() && edges@[e].1.wf(),
        ensures
            g.wf(),
            forall|n: int|
                0 <= n < g.ids_seq().len() ==> appears(edges_view(edges@), g.ids_seq()[n]),
            forall|e: int|
                0 <= e < edges@.len()
                    ==> g.has_id(edges_view(edges@)[e].0) && g.has_id(edges_view(edges@)[e].1),
            g.adjacency_of(edges_view(edges@)),
    {
        let ghost evs = edges_view(edges@);
        let mut ids: Vec<NodeId> = Vec::new();
        let mut adj: Vec<Vec<usize>> = Vec::new();
        let total = edges.len();
        let mut k: usize = 0;
        while k < total
            invariant
                k <= total,
                ids@.len() == adj@.len(),
                forall|n: int, j: int|
                    0 <= n < adj@.len() && 0 <= j < adj@[n]@.len() ==> (adj@[n]@[j] as int)
                        < ids@.len(),
                forall|j: int| 0 <= j < ids@.len() ==> ids@[j].wf(),
                forall|j1: int, j2: int|
                    0 <= j1 < ids@.len() && 0 <= j2 < ids@.len() && j1 != j2 ==> ids@[j1]@
                        != ids@[j2]@,
                forall|n: int|
                    0 <= n < ids@.len() ==> appears(evs.subrange(0, k as int), ids@[n]@),
                forall|e: int| 0 <= e < k ==> in_ids(ids@, evs[e].0) && in_ids(ids@, evs[e].1),
                forall|n1: int, n2: int|
                    0 <= n1 < ids@.len() && 0 <= n2 < ids@.len() ==> count_idx(adj@[n1]@, n2)
                        == count_pair(evs.subrange(0, k as int), ids@[n1]@, ids@[n2]@)
                        + count_pair(evs.subrange(0, k as int), ids@[n2]@, ids@[n1]@),
            decreases total - k,
        {
            let ghost ids0 = ids@;
            let ghost prefix = evs.subrange(0, k as int);
            let ia = find_or_insert(&mut ids, &mut adj, &edges[k].0);
            let ghost ids1 = ids@;
            let ib = find_or_insert(&mut ids, &mut adj, &edges[k].1);
            let ghost ids2 = ids@;
            let ghost adj2 = adj@;
            proof {
                // Identifiers inserted for this edge do not occur in the
                // prefix, so every new row starts with both sides at zero.
                assert forall|n1: int, n2: int|
                    0 <= n1 < ids2.len() && 0 <= n2 < ids2.len() implies count_idx(
                    adj2[n1]@,
                    n2,
                ) == count_pair(prefix, ids2[n1]@, ids2[n2]@) + count_pair(
                    prefix,
                    ids2[n2]@,
                    ids2[n1]@,
                ) by {
                    if n1 >= ids0.len() {
                        // a fresh, empty row
                        assert(adj2[n1]@ =~= Seq::<usize>::empty());
                        assert(!appears(prefix, ids2[n1]@)) by {
                            if appears(prefix, ids2[n1]@) {
                                let e = choose|e: int|
                                    0 <= e < prefix.len() && (prefix[e].0 == ids2[n1]@
                                        || prefix[e].1 == ids2[n1]@);
                                assert(in_ids(ids0, evs[e].0) && in_ids(ids0, evs[e].1));
                                assert(in_ids(ids0, ids2[n1]@));
                                let w = choose|w: int|
                                    0 <= w < ids0.len() && ids0[w]@ == ids2[n1]@;
                                assert(ids2[w]@ == ids2[n1]@);
                            }
                        }
                        lemma_absent_pair_count(prefix, ids2[n1]@, ids2[n2]@);
                    } else if n2 >= ids0.len() {
                        assert(count_idx(adj2[n1]@, n2) == 0) by {
                            lemma_count_idx_absent(adj2[n1]@, n2);
                        }
                        assert(!appears(prefix, ids2[n2]@)) by {
                            if appears(prefix, ids2[n2]@) {
                                let e = choose|e: int|
                                    0 <= e < prefix.len() && (prefix[e].0 == ids2[n2]@
                                        || prefix[e].1 == ids2[n2]@);
                                assert(in_ids(ids0, evs[e].0) && in_ids(ids0, evs[e].1));
                                let w = choose|w: int|
                                    0 <= w < ids0.len() && ids0[w]@ == ids2[n2]@;
                                assert(ids2[w]@ == ids2[n2]@);
                            }
                        }
                        lemma_absent_pair_count(prefix, ids2[n2]@, ids2[n1]@);
                    }
                }
            }
            push_to_row(&mut adj, ia, ib);
            proof {
                assert forall|n1: int, n2: int|
                    0 <= n1 < ids2.len() && 0 <= n2 < ids2.len() implies count_idx(
                    adj@[n1]@,
                    n2,
                ) == count_idx(adj2[n1]@, n2) + (if n1 == ia && n2 == ib {
                    1int
                } else {
                    0int
                }) by {
                    if n1 == ia {
                        lemma_count_idx_push(adj2[n1 as int]@, ib, n2);
                    }
                }
            }
            let ghost adj3 = adj@;
            push_to_row(&mut adj, ib, ia);
            proof {
                assert forall|n1: int, n2: int|
                    0 <= n1 < ids2.len() && 0 <= n2 < ids2.len() implies count_idx(
                    adj@[n1]@,
                    n2,
                ) == count_idx(adj3[n1]@, n2) + (if n1 == ib && n2 == ia {
                    1int
                } else {
                    0int
                }) by {
                    if n1 == ib {
                        lemma_count_idx_push(adj3[n1 as int]@, ia, n2);
                    }
                }
                let prefix1 = evs.subrange(0, k + 1);
                assert(prefix1 =~= prefix.push(evs[k as int]));
                assert(evs[k as int].0 == ids2[ia as int]@);
                assert(evs[k as int].1 == ids2[ib as int]@);
                assert forall|n1: int, n2: int|
                    0 <= n1 < ids2.len() && 0 <= n2 < ids2.len() implies count_idx(
                    adj@[n1]@,
                    n2,
                ) == count_pair(prefix1, ids2[n1]@, ids2[n2]@) + count_pair(
                    prefix1,
                    ids2[n2]@,
                    ids2[n1]@,
                ) by {
                    lemma_count_pair_push(prefix, evs[k as int], ids2[n1]@, ids2[n2]@);
                    lemma_count_pair_push(prefix, evs[k as int], ids2[n2]@, ids2[n1]@);
                }
                // Every identifier now appears in the extended prefix.
                assert forall|n: int| 0 <= n < ids@.len() implies appears(
                    evs.subrange(0, k + 1),
                    ids@[n]@,
                ) by {
                    if n < ids0.len() {
                        let e = choose|e: int|
                            0 <= e < prefix.len() && (prefix[e].0 == ids0[n]@ || prefix[e].1
                                == ids0[n]@);
                        assert(evs.subrange(0, k + 1)[e] == prefix[e]);
                    } else {
                        assert(evs.subrange(0, k + 1)[k as int] == evs[k as int]);
                        assert(ids@[n]@ == evs[k as int].0 || ids@[n]@ == evs[k as int].1);
                    }
                }
                assert forall|e: int| 0 <= e < k + 1 implies in_ids(ids@, evs[e].0) && in_ids(
                    ids@,
                    evs[e].1,
                ) by {
                    if e < k {
                        assert(in_ids(ids1, evs[e].0) && in_ids(ids1, evs[e].1));
                        let w0 = choose|w: int| 0 <= w < ids1.len() && ids1[w]@ == evs[e].0;
                        assert(ids@[w0]@ == evs[e].0);
                        let w1 = choose|w: int| 0 <= w < ids1.len() && ids1[w]@ == evs[e].1;
                        assert(ids@[w1]@ == evs[e].1);
                    } else {
                        assert(ids@[ia as int]@ == evs[e].0);
                        assert(ids@[ib as int]@ == evs[e].1);
                    }
                }
            }
            k = k + 1;
        }
        let g = Graph { ids, adj };
        proof {
            assert(evs.subrange(0, total as int) =~= evs);
            assert forall|n: int| 0 <= n < g.ids_seq().len() implies appears(
                edges_view(edges@),
                g.ids_seq()[n],
            ) by {
                assert(g.ids_seq()[n] == ids@[n]@);
            }
            assert forall|e: int| 0 <= e < edges@.len() implies g.has_id(
                edges_view(edges@)[e].0,
            ) && g.has_id(edges_view(edges@)[e].1) by {
                let w0 = choose|w: int| 0 <= w < ids@.len() && ids@[w]@ == evs[e].0;
                assert(g.ids_seq()[w0] == evs[e].0);
                let w1 = choose|w: int| 0 <= w < ids@.len() && ids@[w]@ == evs[e].1;
                assert(g.ids_seq()[w1] == evs[e].1);
            }
        }
        g
    }
}

/// Neighbour multiplicities are symmetric: `n2` occurs in `n1`'s list as
/// often as `n1` occurs in `n2`'s, because each edge contributes to both.
pub proof fn lemma_adjacency_symmetric(g: &Graph, es: Seq<(Seq<u64>, Seq<u64>)>)
    requires
        g.wf(),
        g.adjacency_of(es),
    ensures
        forall|n1: int, n2: int|
            0 <= n1 < g.ids_seq().len() && 0 <= n2 < g.ids_seq().len()
                ==> count_idx(g.adj_seq()[n1], n2) == count_idx(g.adj_seq()[n2], n1),
{
}

} // verus!
