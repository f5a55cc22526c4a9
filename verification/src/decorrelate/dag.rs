use vstd::prelude::*;
use vstd::set_lib::{lemma_int_range, lemma_len_subset, set_int_range};

verus! {

/// Which channels are predicted from which: `num_nodes` nodes and weighted edges from a
/// source to a target, each weight kept as the bits of the `f64` it is.
pub struct DependencyGraph {
    pub num_nodes: usize,
    pub edges: Vec<(usize, usize, u64)>,
}

/// `rank` ranks the `n` nodes so that every edge into a node comes from a node of lower
/// rank.
pub open spec fn topo_rank(n: nat, es: Seq<(usize, usize, u64)>, rank: Seq<nat>) -> bool {
    &&& rank.len() == n
    &&& forall|i: int|
        0 <= i < es.len() && (#[trigger] es[i]).1 < n ==> es[i].0 < n && rank[es[i].0 as int]
            < rank[es[i].1 as int]
}

/// The graph has no cycle, and no edge into a node comes from outside the graph: its nodes
/// can be ranked so that every edge into a node goes up.
pub open spec fn acyclic(n: nat, es: Seq<(usize, usize, u64)>) -> bool {
    exists|rank: Seq<nat>| #[trigger] topo_rank(n, es, rank)
}

/// Node `x` has been taken off the queue.
spec fn taken(pos: Seq<int>, x: int) -> bool {
    0 <= x < pos.len() && pos[x] >= 0
}

/// Edge `i` no longer counts towards its target's in-degree: its source is taken, and
/// where the source is the node `u` being processed, the edge is before `k`.
spec fn cleared(es: Seq<(usize, usize, u64)>, pos: Seq<int>, u: int, k: int, i: int) -> bool {
    taken(pos, es[i].0 as int) && !(es[i].0 == u && i >= k)
}

/// How many of the first `j` edges go into `v` and still count.
spec fn count(es: Seq<(usize, usize, u64)>, v: int, pos: Seq<int>, u: int, k: int, j: nat) -> nat
    decreases j,
{
    if j == 0 {
        0
    } else {
        count(es, v, pos, u, k, (j - 1) as nat) + if es[j - 1].1 == v && !cleared(
            es,
            pos,
            u,
            k,
            j - 1,
        ) {
            1nat
        } else {
            0nat
        }
    }
}

/// Clearing edge `k` of the node `u` being processed takes one off its target's count.
proof fn lemma_count_step(es: Seq<(usize, usize, u64)>, w: int, pos: Seq<int>, u: int, k: int, j: nat)
    requires
        0 <= k,
        taken(pos, u),
    ensures
        count(es, w, pos, u, k + 1, j) + (if k < j && es[k].0 == u && es[k].1 == w {
            1nat
        } else {
            0nat
        }) == count(es, w, pos, u, k, j),
    decreases j,
{
    if j > 0 {
        lemma_count_step(es, w, pos, u, k, (j - 1) as nat);
    }
}

/// Taking node `u` off the queue before any of its edges is cleared changes no count.
proof fn lemma_count_take(es: Seq<(usize, usize, u64)>, w: int, pos: Seq<int>, u: int, t: int, j: nat)
    requires
        0 <= u < pos.len(),
        pos[u] < 0,
        t >= 0,
    ensures
        count(es, w, pos.update(u, t), u, 0, j) == count(es, w, pos, -1, 0, j),
    decreases j,
{
    if j > 0 {
        lemma_count_take(es, w, pos, u, t, (j - 1) as nat);
    }
}

/// Once every edge of `u` is cleared, the counts are those with no node being processed.
proof fn lemma_count_done(es: Seq<(usize, usize, u64)>, w: int, pos: Seq<int>, u: int, j: nat)
    requires
        j <= es.len(),
    ensures
        count(es, w, pos, u, es.len() as int, j) == count(es, w, pos, -1, 0, j),
    decreases j,
{
    if j > 0 {
        lemma_count_done(es, w, pos, u, (j - 1) as nat);
    }
}

/// A count of zero: every edge into `w` among the first `j` is cleared.
proof fn lemma_count_zero(es: Seq<(usize, usize, u64)>, w: int, pos: Seq<int>, u: int, k: int, j: nat, i: int)
    requires
        count(es, w, pos, u, k, j) == 0,
        0 <= i < j,
        es[i].1 == w,
    ensures
        cleared(es, pos, u, k, i),
    decreases j,
{
    if i < j - 1 {
        lemma_count_zero(es, w, pos, u, k, (j - 1) as nat, i);
    }
}

/// A count above zero: some edge into `w` among the first `j` still counts.
proof fn lemma_count_some(es: Seq<(usize, usize, u64)>, w: int, pos: Seq<int>, u: int, k: int, j: nat) -> (i: int)
    requires
        count(es, w, pos, u, k, j) > 0,
    ensures
        0 <= i < j,
        es[i].1 == w,
        !cleared(es, pos, u, k, i),
    decreases j,
{
    if es[j - 1].1 == w && !cleared(es, pos, u, k, j - 1) {
        j - 1
    } else {
        lemma_count_some(es, w, pos, u, k, (j - 1) as nat)
    }
}

/// A run of distinct nodes below `n` has at most `n` of them.
proof fn lemma_distinct_bound(s: Seq<int>, n: int)
    requires
        0 <= n,
        s.no_duplicates(),
        forall|i: int| 0 <= i < s.len() ==> 0 <= #[trigger] s[i] < n,
    ensures
        s.len() <= n,
{
    s.unique_seq_to_set();
    lemma_int_range(0, n);
    assert(s.to_set().subset_of(set_int_range(0, n)));
    lemma_len_subset(s.to_set(), set_int_range(0, n));
}

/// A run of `n` distinct nodes below `n` holds every node below `n`.
proof fn lemma_distinct_full(s: Seq<int>, n: int, v: int)
    requires
        0 <= v < n,
        s.len() == n,
        s.no_duplicates(),
        forall|i: int| 0 <= i < s.len() ==> 0 <= #[trigger] s[i] < n,
    ensures
        s.contains(v),
{
    if !s.contains(v) {
        s.unique_seq_to_set();
        lemma_int_range(0, n);
        let r = set_int_range(0, n).remove(v);
        assert(s.to_set().subset_of(r));
        assert(r.len() == n - 1);
        lemma_len_subset(s.to_set(), r);
    }
}


/// With nothing left on the queue, every node of a ranked graph has been taken off it: a
/// node not taken would still have an edge from a node not taken, of lower rank.
proof fn lemma_all_taken(
    es: Seq<(usize, usize, u64)>,
    n: nat,
    pos: Seq<int>,
    deg: Seq<usize>,
    rank: Seq<nat>,
    v: int,
)
    requires
        pos.len() == n,
        deg.len() == n,
        topo_rank(n, es, rank),
        forall|x: int| 0 <= x < n ==> #[trigger] deg[x] == count(es, x, pos, -1, 0, es.len()),
        forall|x: int| 0 <= x < n && pos[x] < 0 ==> #[trigger] deg[x] != 0,
        0 <= v < n,
    ensures
        pos[v] >= 0,
    decreases rank[v],
{
    if pos[v] < 0 {
        assert(deg[v] != 0);
        let i = lemma_count_some(es, v, pos, -1, 0, es.len());
        assert(es[i].1 < n);
        let p = es[i].0 as int;
        assert(p < n && rank[p] < rank[v]);
        lemma_all_taken(es, n, pos, deg, rank, p);
    }
}

impl DependencyGraph {
    /// A graph of `num_nodes` nodes and no edges.
    pub fn new(num_nodes: usize) -> (r: Self)
        ensures
            r.num_nodes == num_nodes,
            r.edges@.len() == 0,
    {
        DependencyGraph { num_nodes, edges: Vec::new() }
    }

    /// Adds an edge from `from` to `to` with a weight given as the bits of its `f64`.
    pub fn add_edge(&mut self, from: usize, to: usize, weight_bits: u64)
        ensures
            final(self).num_nodes == old(self).num_nodes,
            final(self).edges@ == old(self).edges@.push((from, to, weight_bits)),
    {
        self.edges.push((from, to, weight_bits));
    }

    /// Whether the graph is acyclic, as `acyclic` says: nodes are taken off a queue once
    /// every edge into them comes from a node taken before, and all of them are taken.
    pub fn is_dag(&self) -> (r: bool)
        ensures
            r == acyclic(self.num_nodes as nat, self.edges@),
    {
        let n = self.num_nodes;
        let ghost es = self.edges@;
        let ghost pos0 = Seq::new(n as nat, |v: int| -1int);
        let mut in_degree: Vec<usize> = Vec::new();
        let mut v: usize = 0;
        while v < n
            invariant
                v <= n,
                in_degree@.len() == v,
                forall|x: int| 0 <= x < v ==> #[trigger] in_degree@[x] == 0,
            decreases n - v,
        {
            in_degree.push(0);
            v = v + 1;
        }
        let mut j: usize = 0;
        while j < self.edges.len()
            invariant
                j <= es.len(),
                es == self.edges@,
                n == self.num_nodes,
                in_degree@.len() == n,
                pos0 == Seq::new(n as nat, |v: int| -1int),
                forall|x: int| 0 <= x < n ==> #[trigger] in_degree@[x] == count(es, x, pos0, -1, 0, j as nat),
                forall|x: int| 0 <= x < n ==> #[trigger] in_degree@[x] <= j,
            decreases es.len() - j,
        {
            let to = self.edges[j].1;
            proof {
                assert(!taken(pos0, es[j as int].0 as int));
                assert forall|x: int| 0 <= x < n implies #[trigger] count(es, x, pos0, -1, 0, (j + 1) as nat)
                    == count(es, x, pos0, -1, 0, j as nat) + if es[j as int].1 == x {
                    1nat
                } else {
                    0nat
                } by {}
            }
            if to < n {
                in_degree.set(to, in_degree[to] + 1);
            }
            j = j + 1;
        }
        let mut queue: Vec<usize> = Vec::new();
        let mut x: usize = 0;
        while x < n
            invariant
                x <= n,
                n == self.num_nodes,
                in_degree@.len() == n,
                queue@.no_duplicates(),
                forall|i: int| 0 <= i < queue@.len() ==> #[trigger] queue@[i] < x && in_degree@[queue@[i] as int] == 0,
                forall|y: int| 0 <= y < x && #[trigger] in_degree@[y] == 0 ==> queue@.contains(y as usize),
                queue@.len() <= x,
            decreases n - x,
        {
            let ghost q0 = queue@;
            if in_degree[x] == 0 {
                queue.push(x);
            }
            proof {
                assert forall|y: int| 0 <= y < x + 1 && #[trigger] in_degree@[y] == 0 implies queue@.contains(y as usize) by {
                    if y == x {
                        assert(queue@[queue@.len() - 1] == x);
                    } else {
                        assert(q0.contains(y as usize));
                        let i = choose|i: int| 0 <= i < q0.len() && q0[i] == y as usize;
                        assert(queue@[i] == q0[i]);
                    }
                }
            }
            x = x + 1;
        }
        let ghost mut pos = pos0;
        let ghost mut order: Seq<int> = Seq::empty();
        let mut visited: usize = 0;
        while queue.len() > 0
            invariant
                es == self.edges@,
                n == self.num_nodes,
                in_degree@.len() == n,
                pos.len() == n,
                visited == order.len(),
                order.no_duplicates(),
                forall|i: int| 0 <= i < order.len() ==> 0 <= #[trigger] order[i] < n && pos[order[i]] == i,
                forall|y: int| 0 <= y < n ==> (#[trigger] pos[y] >= 0 ==> pos[y] < order.len() && order[pos[y]] == y),
                queue@.no_duplicates(),
                forall|i: int| 0 <= i < queue@.len() ==> #[trigger] queue@[i] < n && pos[queue@[i] as int] < 0
                    && in_degree@[queue@[i] as int] == 0,
                forall|y: int| 0 <= y < n && pos[y] < 0 && #[trigger] in_degree@[y] == 0 ==> queue@.contains(y as usize),
                forall|y: int| 0 <= y < n ==> #[trigger] in_degree@[y] == count(es, y, pos, -1, 0, es.len()),
                forall|i: int|
                    0 <= i < es.len() && (#[trigger] es[i]).1 < n && pos[es[i].1 as int] >= 0 ==> es[i].0 < n
                        && pos[es[i].0 as int] >= 0 && pos[es[i].0 as int] < pos[es[i].1 as int],
                order.len() + queue@.len() <= n,
            decreases n - visited,
        {
            let ghost qold = queue@;
            let u = queue.pop().unwrap();
            proof {
                let ui = u as int;
                assert(queue@ =~= qold.drop_last());
                assert(u == qold.last());
                assert forall|y: int| 0 <= y < n && pos[y] < 0 && #[trigger] in_degree@[y] == 0 && y != ui implies queue@.contains(y as usize) by {
                    assert(qold.contains(y as usize));
                    let i = choose|i: int| 0 <= i < qold.len() && qold[i] == y as usize;
                    assert(i != qold.len() - 1);
                    assert(queue@[i] == qold[i]);
                }
                assert(pos[ui] < 0);
                assert(in_degree@[ui] == 0);
                assert forall|i: int| 0 <= i < es.len() && (#[trigger] es[i]).1 == ui implies es[i].0 < n && pos[es[i].0 as int]
                    >= 0 && es[i].0 != u by {
                    lemma_count_zero(es, ui, pos, -1, 0, es.len(), i);
                }
                assert forall|y: int| 0 <= y < n implies #[trigger] count(es, y, pos.update(ui, visited as int), ui, 0, es.len())
                    == count(es, y, pos, -1, 0, es.len()) by {
                    lemma_count_take(es, y, pos, ui, visited as int, es.len());
                }
                pos = pos.update(ui, visited as int);
                order = order.push(ui);
            }
            visited = visited + 1;
            let mut k: usize = 0;
            while k < self.edges.len()
                invariant
                    es == self.edges@,
                    n == self.num_nodes,
                    u < n,
                    k <= es.len(),
                    in_degree@.len() == n,
                    pos.len() == n,
                    visited == order.len(),
                    order.no_duplicates(),
                    order.len() >= 1,
                    order.last() == u as int,
                    pos[u as int] == visited - 1,
                    forall|i: int| 0 <= i < order.len() ==> 0 <= #[trigger] order[i] < n && pos[order[i]] == i,
                    forall|y: int| 0 <= y < n ==> (#[trigger] pos[y] >= 0 ==> pos[y] < order.len() && order[pos[y]] == y),
                    queue@.no_duplicates(),
                    forall|i: int| 0 <= i < queue@.len() ==> #[trigger] queue@[i] < n && pos[queue@[i] as int] < 0
                        && in_degree@[queue@[i] as int] == 0,
                    forall|y: int| 0 <= y < n && pos[y] < 0 && #[trigger] in_degree@[y] == 0 ==> queue@.contains(y as usize),
                    forall|y: int| 0 <= y < n ==> #[trigger] in_degree@[y] == count(es, y, pos, u as int, k as int, es.len()),
                    forall|i: int|
                        0 <= i < es.len() && (#[trigger] es[i]).1 < n && pos[es[i].1 as int] >= 0 ==> es[i].0 < n
                            && pos[es[i].0 as int] >= 0 && pos[es[i].0 as int] < pos[es[i].1 as int],
                    order.len() + queue@.len() <= n,
                decreases es.len() - k,
            {
                let from = self.edges[k].0;
                let to = self.edges[k].1;
                let ghost q1 = queue@;
                let ghost d1 = in_degree@;
                proof {
                    assert forall|y: int| 0 <= y < n implies #[trigger] count(es, y, pos, u as int, k as int, es.len())
                        == count(es, y, pos, u as int, (k + 1) as int, es.len()) + (if es[k as int].0 == u && es[k as int].1
                        == y {
                        1nat
                    } else {
                        0nat
                    }) by {
                        lemma_count_step(es, y, pos, u as int, k as int, es.len());
                    }
                }
                if from == u && to < n {
                    proof {
                        let ti = to as int;
                        assert(in_degree@[ti] >= 1);
                        if pos[ti] >= 0 {
                            assert(pos[ti] < order.len());
                            assert(order[pos[ti]] == ti);
                            assert(pos[u as int] < pos[ti]);
                        }
                        assert(pos[ti] < 0);
                    }
                    in_degree.set(to, in_degree[to].saturating_sub(1));
                    if in_degree[to] == 0 {
                        proof {
                            let ti = to as int;
                            assert(!queue@.contains(to)) by {
                                if queue@.contains(to) {
                                    let i = choose|i: int| 0 <= i < queue@.len() && queue@[i] == to;
                                    assert(in_degree@[queue@[i] as int] == 0);
                                }
                            }
                            let s = order + queue@.push(to).map_values(|q: usize| q as int);
                            assert(s.no_duplicates()) by {
                                assert forall|a: int, b: int| 0 <= a < b < s.len() implies s[a] != s[b] by {
                                    if b >= order.len() && a < order.len() {
                                        assert(pos[s[a]] == a);
                                        assert(pos[s[b]] < 0);
                                    } else if a >= order.len() {
                                        let qa = a - order.len();
                                        let qb = b - order.len();
                                        if qb == queue@.len() {
                                            assert(queue@[qa] != to);
                                        } else {
                                            assert(queue@[qa] != queue@[qb]);
                                        }
                                    }
                                }
                            }
                            assert forall|i: int| 0 <= i < s.len() implies 0 <= #[trigger] s[i] < n by {
                                if i >= order.len() {
                                    let qi = i - order.len();
                                    if qi < queue@.len() {
                                        assert(queue@[qi] < n);
                                    }
                                }
                            }
                            lemma_distinct_bound(s, n as int);
                        }
                        queue.push(to);
                    }
                }
                proof {
                    assert forall|y: int| 0 <= y < n && pos[y] < 0 && #[trigger] in_degree@[y] == 0 implies queue@.contains(y as usize) by {
                        if queue@.len() > q1.len() && y == to as int {
                            assert(queue@[queue@.len() - 1] == to);
                        } else {
                            assert(d1[y] == 0);
                            assert(q1.contains(y as usize));
                            let i = choose|i: int| 0 <= i < q1.len() && q1[i] == y as usize;
                            assert(queue@[i] == q1[i]);
                        }
                    }
                }
                k = k + 1;
            }
            proof {
                assert forall|y: int| 0 <= y < n implies #[trigger] count(es, y, pos, u as int, es.len() as int, es.len())
                    == count(es, y, pos, -1, 0, es.len()) by {
                    lemma_count_done(es, y, pos, u as int, es.len());
                }
            }
        }
        proof {
            lemma_distinct_bound(order, n as int);
            if visited == n {
                let rank = Seq::new(n as nat, |y: int| pos[y] as nat);
                assert forall|y: int| 0 <= y < n implies #[trigger] pos[y] >= 0 by {
                    lemma_distinct_full(order, n as int, y);
                    let i = choose|i: int| 0 <= i < order.len() && order[i] == y;
                    assert(pos[order[i]] == i);
                }
                assert(topo_rank(n as nat, es, rank)) by {
                    assert forall|i: int| 0 <= i < es.len() && (#[trigger] es[i]).1 < n implies es[i].0 < n
                        && rank[es[i].0 as int] < rank[es[i].1 as int] by {
                        assert(pos[es[i].1 as int] >= 0);
                    }
                }
            } else {
                let v = choose|v: int| 0 <= v < n && pos[v] < 0;
                assert(exists|v: int| 0 <= v < n && pos[v] < 0) by {
                    if forall|v: int| 0 <= v < n ==> pos[v] >= 0 {
                        let r = set_int_range(0, n as int);
                        lemma_int_range(0, n as int);
                        order.unique_seq_to_set();
                        assert(r.subset_of(order.to_set())) by {
                            assert forall|y: int| r.contains(y) implies order.to_set().contains(y) by {
                                assert(pos[y] >= 0);
                                assert(order[pos[y]] == y);
                            }
                        }
                        lemma_len_subset(r, order.to_set());
                    }
                }
                if acyclic(n as nat, es) {
                    let rank = choose|rank: Seq<nat>| #[trigger] topo_rank(n as nat, es, rank);
                    assert forall|y: int| 0 <= y < n && pos[y] < 0 implies #[trigger] in_degree@[y] != 0 by {
                        if in_degree@[y] == 0 {
                            assert(queue@.contains(y as usize));
                        }
                    }
                    lemma_all_taken(es, n as nat, pos, in_degree@, rank, v);
                }
            }
        }
        visited == n
    }
}
} // verus!
