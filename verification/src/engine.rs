//! The propagation engine: per-node sketches driven to a fixed point.
//!
//! The engine keeps two sketch tables, "previous" and "current", one sketch
//! per node, seeded with the node's own identifier.  Each round computes,
//! for every node, the union of its previous sketch with all its
//! neighbours' previous sketches — reading only "previous" and writing only
//! "current" — then compares the two tables register for register.  If
//! nothing changed the fixed point is reached; registers only ever grow, so
//! the total of all registers is a strictly increasing, bounded measure and
//! the iteration provably terminates.

use vstd::prelude::*;
use crate::graph::Graph;
use crate::hyperloglog::{after_add, indicator_sum, merge_regs, zero_regs, HyperLogLog};
use crate::hashing::hash_of;
use crate::node::NodeId;
use vstd::arithmetic::power2::pow2;

verus! {

/// The register arrays of a sketch table.
pub open spec fn tables_of(v: Seq<HyperLogLog>) -> Seq<Seq<u8>> {
    v.map_values(|s: HyperLogLog| s.regs())
}

/// `base` merged with the rows addressed by the first `k` neighbours.
pub open spec fn row_merge(tabs: Seq<Seq<u8>>, base: Seq<u8>, nbrs: Seq<usize>, k: int) -> Seq<u8>
    decreases k,
{
    if k <= 0 {
        base
    } else {
        merge_regs(row_merge(tabs, base, nbrs, k - 1), tabs[nbrs[k - 1] as int])
    }
}

/// Node `n`'s registers after one round: its own row merged with every
/// neighbour's row, duplicates included.
pub open spec fn next_row(tabs: Seq<Seq<u8>>, adj: Seq<Seq<usize>>, n: int) -> Seq<u8> {
    row_merge(tabs, tabs[n], adj[n], adj[n].len() as int)
}

/// The sum of one register array.
pub open spec fn sum_regs(s: Seq<u8>) -> int
    decreases s.len(),
{
    if s.len() == 0 {
        0
    } else {
        sum_regs(s.drop_last()) + s.last()
    }
}

/// The sum of all registers of all rows: the engine's progress measure.
pub open spec fn total_regs(t: Seq<Seq<u8>>) -> int
    decreases t.len(),
{
    if t.len() == 0 {
        0
    } else {
        total_regs(t.drop_last()) + sum_regs(t.last())
    }
}

/// When every input register is within bound, so is every merged one.
proof fn lemma_row_merge_bounded(tabs: Seq<Seq<u8>>, base: Seq<u8>, nbrs: Seq<usize>, k: int)
    requires
        forall|j: int| 0 <= j < nbrs.len() ==> (nbrs[j] as int) < tabs.len(),
        forall|t: int| 0 <= t < tabs.len() ==> tabs[t].len() == base.len(),
        forall|t: int, i: int|
            0 <= t < tabs.len() && 0 <= i < tabs[t].len() ==> tabs[t][i] <= 65,
        forall|i: int| 0 <= i < base.len() ==> base[i] <= 65,
        0 <= k <= nbrs.len(),
    ensures
        forall|i: int|
            0 <= i < row_merge(tabs, base, nbrs, k).len() ==> row_merge(tabs, base, nbrs, k)[i]
                <= 65,
    decreases k,
{
    if k > 0 {
        lemma_row_merge_bounded(tabs, base, nbrs, k - 1);
        lemma_row_merge_shape(tabs, base, nbrs, k - 1);
    }
}

/// From one round to the next, a node's indicator sum can only fall —
/// its registers are replaced by the pointwise maximum over itself and
/// its neighbours — so its cardinality estimate, which divides by the
/// indicator sum, can only grow.
pub proof fn lemma_round_estimate_monotone(tabs: Seq<Seq<u8>>, adj: Seq<Seq<usize>>, n: int)
    requires
        0 <= n < tabs.len(),
        0 <= n < adj.len(),
        forall|j: int| 0 <= j < adj[n].len() ==> (adj[n][j] as int) < tabs.len(),
        forall|t: int| 0 <= t < tabs.len() ==> tabs[t].len() == tabs[n].len(),
        forall|t: int, i: int|
            0 <= t < tabs.len() && 0 <= i < tabs[t].len() ==> tabs[t][i] <= 65,
    ensures
        indicator_sum(next_row(tabs, adj, n)) <= indicator_sum(tabs[n]),
{
    lemma_row_merge_shape(tabs, tabs[n], adj[n], adj[n].len() as int);
    lemma_row_merge_bounded(tabs, tabs[n], adj[n], adj[n].len() as int);
    crate::hyperloglog::lemma_indicator_antitone(tabs[n], next_row(tabs, adj, n));
}

/// A merge result has the base's length and dominates the base pointwise.
proof fn lemma_row_merge_shape(tabs: Seq<Seq<u8>>, base: Seq<u8>, nbrs: Seq<usize>, k: int)
    requires
        forall|j: int| 0 <= j < nbrs.len() ==> (nbrs[j] as int) < tabs.len(),
        forall|t: int| 0 <= t < tabs.len() ==> tabs[t].len() == base.len(),
        0 <= k <= nbrs.len(),
    ensures
        row_merge(tabs, base, nbrs, k).len() == base.len(),
        forall|i: int| 0 <= i < base.len() ==> base[i] <= row_merge(tabs, base, nbrs, k)[i],
    decreases k,
{
    if k > 0 {
        lemma_row_merge_shape(tabs, base, nbrs, k - 1);
    }
}

proof fn lemma_sum_le(a: Seq<u8>, b: Seq<u8>)
    requires
        a.len() == b.len(),
        forall|i: int| 0 <= i < a.len() ==> a[i] <= b[i],
    ensures
        sum_regs(a) <= sum_regs(b),
    decreases a.len(),
{
    if a.len() > 0 {
        lemma_sum_le(a.drop_last(), b.drop_last());
    }
}

proof fn lemma_sum_lt(a: Seq<u8>, b: Seq<u8>)
    requires
        a.len() == b.len(),
        forall|i: int| 0 <= i < a.len() ==> a[i] <= b[i],
        a != b,
    ensures
        sum_regs(a) < sum_regs(b),
    decreases a.len(),
{
    if a.len() == 0 {
        assert(a =~= b);
    } else {
        if a.last() == b.last() {
            assert(a.drop_last() != b.drop_last()) by {
                if a.drop_last() == b.drop_last() {
                    assert forall|i: int| 0 <= i < a.len() implies a[i] == b[i] by {
                        if i < a.len() - 1 {
                            assert(a[i] == a.drop_last()[i]);
                            assert(b[i] == b.drop_last()[i]);
                        }
                    }
                    assert(a =~= b);
                }
            }
            lemma_sum_lt(a.drop_last(), b.drop_last());
        } else {
            lemma_sum_le(a.drop_last(), b.drop_last());
        }
    }
}

proof fn lemma_total_le(x: Seq<Seq<u8>>, y: Seq<Seq<u8>>)
    requires
        x.len() == y.len(),
        forall|n: int| 0 <= n < x.len() ==> x[n].len() == y[n].len(),
        forall|n: int, i: int|
            0 <= n < x.len() && 0 <= i < x[n].len() ==> x[n][i] <= y[n][i],
    ensures
        total_regs(x) <= total_regs(y),
    decreases x.len(),
{
    if x.len() > 0 {
        lemma_total_le(x.drop_last(), y.drop_last());
        lemma_sum_le(x.last(), y.last());
    }
}

proof fn lemma_total_lt(x: Seq<Seq<u8>>, y: Seq<Seq<u8>>, w: int)
    requires
        x.len() == y.len(),
        forall|n: int| 0 <= n < x.len() ==> x[n].len() == y[n].len(),
        forall|n: int, i: int|
            0 <= n < x.len() && 0 <= i < x[n].len() ==> x[n][i] <= y[n][i],
        0 <= w < x.len(),
        x[w] != y[w],
    ensures
        total_regs(x) < total_regs(y),
    decreases x.len(),
{
    if w == x.len() - 1 {
        lemma_total_le(x.drop_last(), y.drop_last());
        lemma_sum_lt(x.last(), y.last());
    } else {
        lemma_total_lt(x.drop_last(), y.drop_last(), w);
        lemma_sum_le(x.last(), y.last());
    }
}

/// One row of registers, all at most 65, sums to at most `65 * m`.
proof fn lemma_sum_bound(s: Seq<u8>)
    requires
        forall|i: int| 0 <= i < s.len() ==> s[i] <= 65,
    ensures
        sum_regs(s) <= 65 * s.len(),
    decreases s.len(),
{
    if s.len() > 0 {
        lemma_sum_bound(s.drop_last());
    }
}

/// The progress measure is bounded: `len` rows of `m` registers, each at
/// most 65, total at most `len * (65 * m)`.
pub proof fn lemma_total_bound(t: Seq<Seq<u8>>, m: int)
    requires
        forall|n: int| 0 <= n < t.len() ==> t[n].len() == m,
        forall|n: int, i: int| 0 <= n < t.len() && 0 <= i < t[n].len() ==> t[n][i] <= 65,
    ensures
        total_regs(t) <= (t.len() as int) * (65 * m),
    decreases t.len(),
{
    if t.len() > 0 {
        lemma_total_bound(t.drop_last(), m);
        lemma_sum_bound(t.last());
        assert((t.len() as int) * (65 * m) == ((t.len() - 1) as int) * (65 * m) + 65 * m)
            by (nonlinear_arith);
    }
}

/// The fixed-point engine over one graph and one sketch table per round.
pub struct Engine {
    p: u8,
    graph: Graph,
    prev: Vec<HyperLogLog>,
    current: Vec<HyperLogLog>,
    round: u64,
}

impl Engine {
    /// The shared precision of every sketch.
    pub closed spec fn prec(&self) -> nat {
        self.p as nat
    }

    /// The identifiers of the graph's nodes, by dense index.
    pub closed spec fn ids_seq(&self) -> Seq<Seq<u64>> {
        self.graph.ids_seq()
    }

    /// The graph's neighbour lists, by dense index.
    pub closed spec fn adj_seq(&self) -> Seq<Seq<usize>> {
        self.graph.adj_seq()
    }

    /// The register array of every node's sketch, as of the last completed
    /// round.
    pub closed spec fn tables(&self) -> Seq<Seq<u8>> {
        tables_of(self.prev@)
    }

    /// The number of completed rounds.
    pub closed spec fn round_spec(&self) -> nat {
        self.round as nat
    }

    /// Well-formed: a well-formed graph, one sketch per node in each
    /// table, every sketch well-formed at the shared precision, and the
    /// two tables register-identical between rounds.
    pub closed spec fn wf(&self) -> bool {
        &&& self.graph.wf()
        &&& self.p <= 16
        &&& self.prev@.len() == self.graph.ids_seq().len()
        &&& self.current@.len() == self.prev@.len()
        &&& forall|n: int| 0 <= n < self.prev@.len() ==> self.prev@[n].wf()
        &&& forall|n: int| 0 <= n < self.prev@.len() ==> self.prev@[n].prec() == self.p as nat
        &&& forall|n: int| 0 <= n < self.current@.len() ==> self.current@[n].wf()
        &&& forall|n: int| 0 <= n < self.current@.len() ==> self.current@[n].prec() == self.p as nat
        &&& forall|n: int|
            0 <= n < self.current@.len() ==> self.current@[n].regs() == self.prev@[n].regs()
    }

    /// The engine's initial state: every node's sketch holds exactly one
    /// insertion, the node's own identifier; round zero.
    #[verifier::loop_isolation(false)]
    pub fn new(graph: Graph, p: u8) -> (e: Engine)
        requires
            p <= 16,
            graph.wf(),
        ensures
            e.wf(),
            e.prec() == p as nat,
            e.round_spec() == 0,
            e.ids_seq() == graph.ids_seq(),
            e.adj_seq() == graph.adj_seq(),
            e.tables().len() == graph.ids_seq().len(),
            forall|n: int|
                0 <= n < e.tables().len() ==> e.tables()[n] == after_add(
                    zero_regs(p as nat),
                    p as nat,
                    hash_of(graph.ids_seq()[n]),
                ),
    {
        let count = graph.node_count();
        let mut prev: Vec<HyperLogLog> = Vec::new();
        let mut i: usize = 0;
        while i < count
            invariant
                i <= count,
                prev@.len() == i,
                forall|n: int| 0 <= n < i ==> prev@[n].wf(),
                forall|n: int| 0 <= n < i ==> prev@[n].prec() == p as nat,
                forall|n: int|
                    0 <= n < i ==> prev@[n].regs() == after_add(
                        zero_regs(p as nat),
                        p as nat,
                        hash_of(graph.ids_seq()[n]),
                    ),
            decreases count - i,
        {
            let mut sk = HyperLogLog::new(p);
            sk.add(graph.node_id(i));
            prev.push(sk);
            i = i + 1;
        }
        let mut current: Vec<HyperLogLog> = Vec::new();
        let mut j: usize = 0;
        while j < count
            invariant
                j <= count,
                current@.len() == j,
                forall|n: int| 0 <= n < j ==> current@[n].prec() == prev@[n].prec(),
                forall|n: int| 0 <= n < j ==> current@[n].regs() == prev@[n].regs(),
            decreases count - j,
        {
            current.push(prev[j].clone());
            j = j + 1;
        }
        Engine { p, graph, prev, current, round: 0 }
    }

    /// One round: merge every node's previous sketch with its neighbours'
    /// previous sketches into "current", detect whether anything changed,
    /// and if so advance "previous" and the round counter.  Registers
    /// never decrease, and any change strictly increases the register
    /// total; the round counter saturates rather than wrap.
    #[verifier::loop_isolation(false)]
    #[verifier::rlimit(60)]
    pub fn step(&mut self) -> (converged: bool)
        requires
            old(self).wf(),
        ensures
            final(self).wf(),
            final(self).prec() == old(self).prec(),
            final(self).ids_seq() == old(self).ids_seq(),
            final(self).adj_seq() == old(self).adj_seq(),
            final(self).tables().len() == old(self).tables().len(),
            forall|n: int|
                0 <= n < old(self).tables().len() ==> final(self).tables()[n] == next_row(
                    old(self).tables(),
                    old(self).adj_seq(),
                    n,
                ),
            converged <==> (forall|n: int|
                0 <= n < old(self).tables().len() ==> next_row(
                    old(self).tables(),
                    old(self).adj_seq(),
                    n,
                ) == old(self).tables()[n]),
            forall|n: int, i: int|
                0 <= n < old(self).tables().len() && 0 <= i < old(self).tables()[n].len()
                    ==> old(self).tables()[n][i] <= final(self).tables()[n][i],
            forall|n: int|
                0 <= n < old(self).tables().len() ==> final(self).tables()[n].len() == old(
                    self,
                ).tables()[n].len(),
            !converged ==> total_regs(final(self).tables()) > total_regs(old(self).tables()),
            final(self).round_spec() == if converged {
                old(self).round_spec()
            } else if old(self).round_spec() < u64::MAX {
                old(self).round_spec() + 1
            } else {
                old(self).round_spec()
            },
    {
        let count = self.prev.len();
        let ghost tabs0 = old(self).tables();
        let ghost adjv = old(self).adj_seq();
        let mut n: usize = 0;
        while n < count
            invariant
                n <= count,
                self.p == old(self).p,
                self.graph == old(self).graph,
                self.prev@ == old(self).prev@,
                self.round == old(self).round,
                self.current@.len() == count,
                forall|j: int| 0 <= j < n ==> self.current@[j].wf(),
                forall|j: int| 0 <= j < n ==> self.current@[j].prec() == self.p as nat,
                forall|j: int|
                    0 <= j < n ==> self.current@[j].regs() == next_row(tabs0, adjv, j),
                forall|j: int| n <= j < count ==> self.current@[j] == old(self).current@[j],
            decreases count - n,
        {
            let mut acc = self.prev[n].clone();
            let nbrs = self.graph.neighbors(n);
            let deg = nbrs.len();
            let mut j: usize = 0;
            while j < deg
                invariant
                    j <= deg,
                    deg == nbrs@.len(),
                    nbrs@ == adjv[n as int],
                    n < count,
                    self.prev@ == old(self).prev@,
                    acc.wf(),
                    acc.prec() == self.p as nat,
                    acc.regs() == row_merge(tabs0, tabs0[n as int], nbrs@, j as int),
                decreases deg - j,
            {
                let t = nbrs[j];
                acc.union(&self.prev[t]);
                j = j + 1;
            }
            proof {
                assert(acc.regs() == next_row(tabs0, adjv, n as int));
            }
            self.current[n] = acc;
            n = n + 1;
        }
        let mut all_same = true;
        let mut c: usize = 0;
        while c < count
            invariant
                c <= count,
                self.p == old(self).p,
                self.graph == old(self).graph,
                self.prev@ == old(self).prev@,
                self.round == old(self).round,
                self.current@.len() == count,
                forall|j: int| 0 <= j < count ==> self.current@[j].wf(),
                forall|j: int| 0 <= j < count ==> self.current@[j].prec() == self.p as nat,
                forall|j: int|
                    0 <= j < count ==> self.current@[j].regs() == next_row(tabs0, adjv, j),
                all_same <==> (forall|j: int|
                    0 <= j < c ==> self.current@[j].regs() == self.prev@[j].regs()),
            decreases count - c,
        {
            if !(self.current[c] == self.prev[c]) {
                all_same = false;
            }
            c = c + 1;
        }
        proof {
            // Each next row dominates the previous row pointwise.
            assert forall|n1: int, i: int|
                0 <= n1 < count && 0 <= i < tabs0[n1].len() implies tabs0[n1][i] <= next_row(
                tabs0,
                adjv,
                n1,
            )[i] && next_row(tabs0, adjv, n1).len() == tabs0[n1].len() by {
                lemma_row_merge_shape(tabs0, tabs0[n1], adjv[n1], adjv[n1].len() as int);
            }
        }
        if all_same {
            true
        } else {
            proof {
                assert(exists|j: int| 0 <= j < count && next_row(tabs0, adjv, j) != tabs0[j]) by {
                    if forall|j: int| 0 <= j < count ==> next_row(tabs0, adjv, j) == tabs0[j] {
                        assert forall|j: int|
                            0 <= j < count implies self.current@[j].regs()
                            == self.prev@[j].regs() by {
                            assert(self.current@[j].regs() == next_row(tabs0, adjv, j));
                            assert(self.prev@[j].regs() == tabs0[j]);
                        }
                    }
                }
            }
            let ghost w = choose|j: int| 0 <= j < count && next_row(tabs0, adjv, j) != tabs0[j];
            let mut i: usize = 0;
            while i < count
                invariant
                    i <= count,
                    self.p == old(self).p,
                    self.graph == old(self).graph,
                    self.round == old(self).round,
                    self.prev@.len() == count,
                    self.current@.len() == count,
                    forall|j: int| 0 <= j < count ==> self.current@[j].wf(),
                    forall|j: int| 0 <= j < count ==> self.current@[j].prec() == self.p as nat,
                    forall|j: int|
                        0 <= j < count ==> self.current@[j].regs() == next_row(tabs0, adjv, j),
                    forall|j: int| 0 <= j < i ==> self.prev@[j].wf(),
                    forall|j: int| 0 <= j < i ==> self.prev@[j].prec() == self.p as nat,
                    forall|j: int|
                        0 <= j < i ==> self.prev@[j].regs() == self.current@[j].regs(),
                    forall|j: int| i <= j < count ==> self.prev@[j] == old(self).prev@[j],
                decreases count - i,
            {
                let sk = self.current[i].clone();
                self.prev[i] = sk;
                i = i + 1;
            }
            if self.round < u64::MAX {
                self.round = self.round + 1;
            }
            proof {
                // Some row changed, so the register total strictly grew.
                assert forall|n1: int| 0 <= n1 < count implies self.tables()[n1] == next_row(
                    tabs0,
                    adjv,
                    n1,
                ) by {}
                assert(self.tables()[w] != tabs0[w]);
                lemma_total_lt(tabs0, self.tables(), w);
            }
            false
        }
    }

    /// Run rounds until the fixed point: the loop terminates because the
    /// register total strictly grows with every non-converged round and is
    /// bounded by `65` per register; at exit, one further round would
    /// change nothing.
    #[verifier::loop_isolation(false)]
    pub fn run(&mut self) -> (rounds: u64)
        requires
            old(self).wf(),
        ensures
            final(self).wf(),
            final(self).prec() == old(self).prec(),
            final(self).ids_seq() == old(self).ids_seq(),
            final(self).adj_seq() == old(self).adj_seq(),
            final(self).tables().len() == old(self).tables().len(),
            forall|n: int|
                0 <= n < final(self).tables().len() ==> next_row(
                    final(self).tables(),
                    final(self).adj_seq(),
                    n,
                ) == final(self).tables()[n],
            forall|n: int, i: int|
                0 <= n < old(self).tables().len() && 0 <= i < old(self).tables()[n].len()
                    ==> old(self).tables()[n][i] <= final(self).tables()[n][i],
            rounds as nat == final(self).round_spec(),
    {
        let count = self.prev.len();
        let ghost bound = (count as int) * (65 * (pow2(old(self).prec()) as int));
        proof {
            lemma_total_bound(self.tables(), pow2(self.prec()) as int);
        }
        let mut done = false;
        while !done
            invariant
                self.wf(),
                self.prec() == old(self).prec(),
                self.ids_seq() == old(self).ids_seq(),
                self.adj_seq() == old(self).adj_seq(),
                self.tables().len() == count,
                count == old(self).tables().len(),
                forall|n: int|
                    0 <= n < count ==> self.tables()[n].len() == old(self).tables()[n].len(),
                forall|n: int, i: int|
                    0 <= n < count && 0 <= i < old(self).tables()[n].len()
                        ==> old(self).tables()[n][i] <= self.tables()[n][i],
                total_regs(self.tables()) <= bound,
                done ==> (forall|n: int|
                    0 <= n < count ==> next_row(self.tables(), self.adj_seq(), n)
                        == self.tables()[n]),
            decreases
                bound - total_regs(self.tables()),
                (if done {
                    0int
                } else {
                    1int
                }),
        {
            let ghost mid = self.tables();
            let converged = self.step();
            proof {
                assert forall|n: int, i: int|
                    0 <= n < count && 0 <= i < old(self).tables()[n].len() implies old(
                    self,
                ).tables()[n][i] <= self.tables()[n][i] by {
                    assert(old(self).tables()[n][i] <= mid[n][i]);
                }
                lemma_total_bound(self.tables(), pow2(self.prec()) as int);
                if converged {
                    assert(self.tables() =~= mid);
                }
            }
            if converged {
                done = true;
            }
        }
        self.round
    }

    /// The number of completed rounds.
    pub fn round(&self) -> (r: u64)
        ensures
            r as nat == self.round_spec(),
    {
        self.round
    }

    /// The number of nodes.
    pub fn node_count(&self) -> (r: usize)
        requires
            self.wf(),
        ensures
            r == self.tables().len(),
            r == self.ids_seq().len(),
    {
        self.prev.len()
    }

    /// The identifier of the node at a dense index.
    pub fn node_id(&self, n: usize) -> (r: &NodeId)
        requires
            self.wf(),
            n < self.ids_seq().len(),
        ensures
            r@ == self.ids_seq()[n as int],
    {
        self.graph.node_id(n)
    }

    /// The sketch of the node at a dense index, as of the last completed
    /// round.
    pub fn sketch(&self, n: usize) -> (r: &HyperLogLog)
        requires
            self.wf(),
            n < self.tables().len(),
        ensures
            r.wf(),
            r.prec() == self.prec(),
            r.regs() == self.tables()[n as int],
    {
        &self.prev[n]
    }
}

} // verus!
