use vstd::prelude::*;
use vstd::set_lib::{lemma_len_subset, lemma_subset_equality};

verus! {

/// A node of a graph, with its data.
pub struct Node<N> {
    pub data: N,
}

/// A directed edge between two nodes, given by their indices.
pub struct Edge<E> {
    pub data: E,
    pub from: usize,
    pub to: usize,
}

/// A minimal graph: nodes, and edges that refer to them by index.
pub struct Graph<N, E> {
    pub nodes: Vec<Node<N>>,
    pub edges: Vec<Edge<E>>,
}

/// How a node or an edge shows in a graphviz drawing.
pub trait DotAttribute {
    fn label(&self) -> Option<String> {
        None
    }

    fn font_size(&self) -> Option<u32> {
        None
    }
}

/// The (source, target) pairs of the edges.
pub open spec fn edge_pairs<E>(edges: Seq<Edge<E>>) -> Seq<(usize, usize)> {
    edges.map_values(|e: Edge<E>| (e.from, e.to))
}

/// `order` lists each of the nodes `0..n` once, and every edge goes from an
/// earlier node to a later one.
pub open spec fn is_topological_order(order: Seq<usize>, n: nat, edges: Seq<(usize, usize)>) -> bool {
    &&& order.len() == n
    &&& order.no_duplicates()
    &&& forall|i: int| 0 <= i < order.len() ==> order[i] < n
    &&& forall|k: int, i: int, j: int|
        #![trigger edges[k], order[i], order[j]]
        0 <= k < edges.len() && 0 <= i < order.len() && 0 <= j < order.len() && order[i]
            == edges[k].0 && order[j] == edges[k].1 ==> i < j
}

/// The nodes `0..n` can be ordered so that every edge goes forward: the graph
/// has no cycle.
pub open spec fn has_topological_order(n: nat, edges: Seq<(usize, usize)>) -> bool {
    exists|order: Seq<usize>| is_topological_order(order, n, edges)
}

/// Number of edges into `t`.
pub open spec fn count_into(s: Seq<(usize, usize)>, t: usize) -> nat
    decreases s.len(),
{
    if s.len() == 0 {
        0
    } else {
        count_into(s.drop_last(), t) + if s.last().1 == t {
            1nat
        } else {
            0nat
        }
    }
}

/// The edges of `s` whose source is not in `done`, in their order.
pub open spec fn keep_unprocessed(s: Seq<(usize, usize)>, done: Seq<usize>) -> Seq<(usize, usize)>
    decreases s.len(),
{
    if s.len() == 0 {
        s
    } else {
        let r = keep_unprocessed(s.drop_last(), done);
        if done.contains(s.last().0) {
            r
        } else {
            r.push(s.last())
        }
    }
}

/// The nodes `0..n`.
pub open spec fn node_range(n: nat) -> Set<usize> {
    Set::new(|v: usize| (v as nat) < n)
}

proof fn lemma_node_range(n: nat)
    requires
        n <= usize::MAX,
    ensures
        node_range(n).finite(),
        node_range(n).len() == n,
    decreases n,
{
    if n == 0 {
        assert(node_range(n) =~= Set::empty());
    } else {
        lemma_node_range((n - 1) as nat);
        assert(node_range((n - 1) as nat).insert((n - 1) as usize) =~= node_range(n));
    }
}

/// A duplicate-free list of nodes below `n` has at most `n` entries, and has
/// exactly `n` when it holds all of them.
proof fn lemma_distinct_nodes(s: Seq<usize>, n: nat)
    requires
        n <= usize::MAX,
        s.no_duplicates(),
        forall|i: int| 0 <= i < s.len() ==> s[i] < n,
    ensures
        s.len() <= n,
        s.len() == n ==> forall|v: usize| v < n ==> s.contains(v),
        (forall|v: usize| v < n ==> s.contains(v)) ==> s.len() == n,
{
    lemma_node_range(n);
    s.unique_seq_to_set();
    assert(s.to_set().subset_of(node_range(n))) by {
        assert forall|v: usize| s.to_set().contains(v) implies node_range(n).contains(v) by {
            let i = choose|i: int| 0 <= i < s.len() && s[i] == v;
        }
    }
    lemma_len_subset(s.to_set(), node_range(n));
    if s.len() == n {
        lemma_subset_equality(s.to_set(), node_range(n));
        assert forall|v: usize| v < n implies s.contains(v) by {
            assert(node_range(n).contains(v));
        }
    }
    if forall|v: usize| v < n ==> s.contains(v) {
        assert(node_range(n).subset_of(s.to_set()));
        lemma_len_subset(node_range(n), s.to_set());
    }
}

proof fn lemma_count_concat(a: Seq<(usize, usize)>, b: Seq<(usize, usize)>, t: usize)
    ensures
        count_into(a + b, t) == count_into(a, t) + count_into(b, t),
    decreases b.len(),
{
    if b.len() == 0 {
        assert(a + b =~= a);
    } else {
        lemma_count_concat(a, b.drop_last(), t);
        assert((a + b).drop_last() =~= a + b.drop_last());
    }
}

proof fn lemma_count_first(s: Seq<(usize, usize)>, t: usize)
    requires
        s.len() > 0,
    ensures
        count_into(s, t) == count_into(s.drop_first(), t) + if s[0].1 == t {
            1nat
        } else {
            0nat
        },
{
    let head = seq![s[0]];
    lemma_count_concat(head, s.drop_first(), t);
    assert(head + s.drop_first() =~= s);
    assert(head.drop_last() =~= Seq::<(usize, usize)>::empty());
    assert(count_into(head.drop_last(), t) == 0);
    assert(head.last() == s[0]);
}

proof fn lemma_count_bounded(s: Seq<(usize, usize)>, t: usize)
    ensures
        count_into(s, t) <= s.len(),
    decreases s.len(),
{
    if s.len() > 0 {
        lemma_count_bounded(s.drop_last(), t);
    }
}

proof fn lemma_count_positive(s: Seq<(usize, usize)>, t: usize)
    requires
        count_into(s, t) > 0,
    ensures
        exists|k: int| 0 <= k < s.len() && s[k].1 == t,
    decreases s.len(),
{
    if s.last().1 != t {
        lemma_count_positive(s.drop_last(), t);
        let k = choose|k: int| 0 <= k < s.drop_last().len() && s.drop_last()[k].1 == t;
        assert(s[k] == s.drop_last()[k]);
    }
}

proof fn lemma_count_contains(s: Seq<(usize, usize)>, k: int)
    requires
        0 <= k < s.len(),
    ensures
        count_into(s, s[k].1) > 0,
    decreases s.len(),
{
    if k < s.len() - 1 {
        lemma_count_contains(s.drop_last(), k);
    }
}

/// What is kept are edges of `s` with an unprocessed source.
proof fn lemma_keep_members(s: Seq<(usize, usize)>, done: Seq<usize>)
    ensures
        forall|k: int|
            0 <= k < keep_unprocessed(s, done).len() ==> !done.contains(
                #[trigger] keep_unprocessed(s, done)[k].0,
            ) && exists|m: int| 0 <= m < s.len() && s[m] == keep_unprocessed(s, done)[k],
    decreases s.len(),
{
    if s.len() > 0 {
        lemma_keep_members(s.drop_last(), done);
        let r = keep_unprocessed(s.drop_last(), done);
        assert forall|k: int| 0 <= k < keep_unprocessed(s, done).len() implies !done.contains(
            #[trigger] keep_unprocessed(s, done)[k].0,
        ) && exists|m: int| 0 <= m < s.len() && s[m] == keep_unprocessed(s, done)[k] by {
            if k < r.len() {
                let m = choose|m: int| 0 <= m < s.drop_last().len() && s.drop_last()[m] == r[k];
                assert(s[m] == keep_unprocessed(s, done)[k]);
            } else {
                assert(s[s.len() - 1] == keep_unprocessed(s, done)[k]);
            }
        }
    }
}

/// Every edge of `s` with an unprocessed source is kept.
proof fn lemma_keep_complete(s: Seq<(usize, usize)>, done: Seq<usize>, m: int)
    requires
        0 <= m < s.len(),
        !done.contains(s[m].0),
    ensures
        keep_unprocessed(s, done).contains(s[m]),
    decreases s.len(),
{
    let r = keep_unprocessed(s.drop_last(), done);
    if m < s.len() - 1 {
        lemma_keep_complete(s.drop_last(), done, m);
        let i = choose|i: int| 0 <= i < r.len() && r[i] == s.drop_last()[m];
        if !done.contains(s.last().0) {
            assert(r.push(s.last())[i] == s[m]);
        }
    } else {
        assert(r.push(s.last())[r.len() as int] == s[m]);
    }
}

proof fn lemma_keep_nothing_done(s: Seq<(usize, usize)>)
    ensures
        keep_unprocessed(s, Seq::empty()) == s,
    decreases s.len(),
{
    if s.len() > 0 {
        lemma_keep_nothing_done(s.drop_last());
        assert(s.drop_last().push(s.last()) =~= s);
    }
}

/// Dropping the edges of one more processed node from what was kept.
proof fn lemma_keep_one_more(s: Seq<(usize, usize)>, done: Seq<usize>, n: usize)
    ensures
        keep_unprocessed(s, done.push(n)) == keep_unprocessed(
            keep_unprocessed(s, done),
            seq![n],
        ),
    decreases s.len(),
{
    if s.len() > 0 {
        lemma_keep_one_more(s.drop_last(), done, n);
        let r = keep_unprocessed(s.drop_last(), done);
        let x = s.last();
        assert(done.push(n).contains(x.0) <==> (done.contains(x.0) || x.0 == n)) by {
            if x.0 == n {
                assert(done.push(n)[done.len() as int] == n);
            }
            if done.contains(x.0) {
                let i = choose|i: int| 0 <= i < done.len() && done[i] == x.0;
                assert(done.push(n)[i] == x.0);
            }
        }
        assert(seq![n].contains(x.0) <==> x.0 == n) by {
            if x.0 == n {
                assert(seq![n][0] == n);
            }
        }
        if !done.contains(x.0) {
            assert(r.push(x).drop_last() =~= r);
        }
    }
}

/// Counts the edges into `t`.
fn count_edges_into(edges: &Vec<(usize, usize)>, t: usize) -> (c: usize)
    ensures
        c == count_into(edges@, t),
{
    let mut c: usize = 0;
    let mut i: usize = 0;
    while i < edges.len()
        invariant
            i <= edges@.len(),
            c == count_into(edges@.take(i as int), t),
            c <= i,
        decreases edges@.len() - i,
    {
        assert(edges@.take(i + 1).drop_last() =~= edges@.take(i as int));
        if edges[i].1 == t {
            c = c + 1;
        }
        i = i + 1;
    }
    assert(edges@.take(i as int) =~= edges@);
    c
}

/// In a graph whose remaining edges all end in a processed node or start in
/// an unprocessed one, where each unprocessed node still has an edge in, no
/// node of a topological order can be unprocessed.
proof fn lemma_stuck_nodes_unordered(
    o: Seq<usize>,
    n: nat,
    orig: Seq<(usize, usize)>,
    edges: Seq<(usize, usize)>,
    done: Seq<usize>,
    i: int,
)
    requires
        n <= usize::MAX,
        is_topological_order(o, n, orig),
        edges == keep_unprocessed(orig, done),
        forall|t: usize| t < n && !done.contains(t) ==> count_into(edges, t) > 0,
        forall|k: int| 0 <= k < orig.len() ==> orig[k].0 < n,
        0 <= i < o.len(),
    ensures
        done.contains(o[i]),
    decreases i,
{
    if !done.contains(o[i]) {
        lemma_count_positive(edges, o[i]);
        let k = choose|k: int| 0 <= k < edges.len() && edges[k].1 == o[i];
        lemma_keep_members(orig, done);
        assert(!done.contains(edges[k].0));
        let m = choose|m: int| 0 <= m < orig.len() && orig[m] == edges[k];
        let a = orig[m].0;
        lemma_distinct_nodes(o, n);
        assert(o.contains(a));
        let j = choose|j: int| 0 <= j < o.len() && o[j] == a;
        assert(j < i);
        lemma_stuck_nodes_unordered(o, n, orig, edges, done, j);
    }
}

impl<N, E> Graph<N, E> {
    /// Every edge joins two nodes of the graph.
    pub open spec fn wf(&self) -> bool {
        forall|k: int|
            0 <= k < self.edges@.len() ==> (#[trigger] self.edges@[k]).from < self.nodes@.len()
                && self.edges@[k].to < self.nodes@.len()
    }

    /// A topological order of the nodes, or `None` when the graph has a cycle.
    pub fn get_topology_order(&self) -> (r: Option<Vec<usize>>)
        requires
            self.wf(),
        ensures
            r is Some <==> has_topological_order(self.nodes@.len(), edge_pairs(self.edges@)),
            r matches Some(order) ==> is_topological_order(
                order@,
                self.nodes@.len(),
                edge_pairs(self.edges@),
            ),
    {
        let node_count = self.nodes.len();
        let ghost nn = node_count as nat;

        let mut edges: Vec<(usize, usize)> = Vec::new();
        let mut k: usize = 0;
        while k < self.edges.len()
            invariant
                k <= self.edges@.len(),
                edges@ == edge_pairs(self.edges@).take(k as int),
            decreases self.edges@.len() - k,
        {
            edges.push((self.edges[k].from, self.edges[k].to));
            k = k + 1;
            assert(edges@ =~= edge_pairs(self.edges@).take(k as int));
        }
        assert(edges@ =~= edge_pairs(self.edges@));
        let ghost orig = edges@;
        assert(forall|m: int| 0 <= m < orig.len() ==> orig[m].0 < nn && orig[m].1 < nn) by {
            assert forall|m: int| 0 <= m < orig.len() implies orig[m].0 < nn && orig[m].1 < nn by {
                assert(orig[m] == (self.edges@[m].from, self.edges@[m].to));
            }
        }

        // in-degree of each node, and the nodes without incoming edges
        let mut degrees: Vec<usize> = Vec::new();
        let mut active: Vec<usize> = Vec::new();
        let mut v: usize = 0;
        while v < node_count
            invariant
                v <= node_count,
                node_count == nn,
                edges@ == orig,
                degrees@.len() == v,
                forall|t: int| 0 <= t < v ==> degrees@[t] == count_into(orig, t as usize),
                active@.no_duplicates(),
                forall|i: int|
                    0 <= i < active@.len() ==> active@[i] < v && degrees@[active@[i] as int] == 0,
                forall|t: usize| t < v && degrees@[t as int] == 0 ==> active@.contains(t),
            decreases node_count - v,
        {
            let degree = count_edges_into(&edges, v);
            degrees.push(degree);
            let ghost prev = active@;
            if degree == 0 {
                active.push(v);
            }
            proof {
                assert forall|t: usize| t < v + 1 && degrees@[t as int] == 0 implies active@.contains(
                    t,
                ) by {
                    if t < v {
                        let w = choose|w: int| 0 <= w < prev.len() && prev[w] == t;
                        assert(active@[w] == t);
                    } else {
                        assert(active@[active@.len() - 1] == t);
                    }
                }
            }
            v = v + 1;
        }

        let mut order: Vec<usize> = Vec::new();
        proof {
            lemma_keep_nothing_done(orig);
            assert(order@ =~= Seq::<usize>::empty());
        }
        while active.len() > 0
            invariant
                node_count == nn,
                nn <= usize::MAX,
                forall|m: int| 0 <= m < orig.len() ==> orig[m].0 < nn && orig[m].1 < nn,
                degrees@.len() == nn,
                edges@ == keep_unprocessed(orig, order@),
                forall|t: int| 0 <= t < nn ==> degrees@[t] == count_into(edges@, t as usize),
                order@.no_duplicates(),
                order@.len() <= nn,
                forall|i: int| 0 <= i < order@.len() ==> order@[i] < nn,
                active@.no_duplicates(),
                forall|i: int|
                    0 <= i < active@.len() ==> active@[i] < nn && !order@.contains(active@[i])
                        && degrees@[active@[i] as int] == 0,
                forall|t: usize|
                    t < nn && !order@.contains(t) && degrees@[t as int] == 0 ==> active@.contains(t),
                forall|m: int|
                    0 <= m < orig.len() && !order@.contains(orig[m].0) ==> !order@.contains(
                        orig[m].1,
                    ),
                forall|m: int, i: int, j: int|
                    #![trigger orig[m], order@[i], order@[j]]
                    0 <= m < orig.len() && 0 <= i < order@.len() && 0 <= j < order@.len()
                        && order@[i] == orig[m].0 && order@[j] == orig[m].1 ==> i < j,
            decreases nn - order@.len(),
        {
            let ghost done = order@;
            let ghost old_active = active@;
            let n = match active.pop() {
                Some(n) => n,
                None => {
                    proof {
                        assert(false);
                    }
                    0
                },
            };
            assert(old_active.last() == n);
            assert(active@ =~= old_active.drop_last());
            assert(count_into(edges@, n) == 0);
            assert(!done.contains(n)) by {
                assert(old_active[old_active.len() - 1] == n);
            }
            // every edge into `n` starts at a processed node
            assert forall|m: int| 0 <= m < orig.len() && orig[m].1 == n implies done.contains(
                orig[m].0,
            ) by {
                if !done.contains(orig[m].0) {
                    lemma_keep_complete(orig, done, m);
                    let i = choose|i: int| 0 <= i < edges@.len() && edges@[i] == orig[m];
                    lemma_count_contains(edges@, i);
                }
            }
            order.push(n);
            proof {
                assert(order@ == done.push(n));
                assert(order@.no_duplicates()) by {
                    assert forall|i: int, j: int|
                        0 <= i < order@.len() && 0 <= j < order@.len() && i != j implies order@[i]
                        != order@[j] by {
                        if j == done.len() {
                            assert(order@[i] == done[i]);
                            assert(done.contains(done[i]));
                        } else if i == done.len() {
                            assert(order@[j] == done[j]);
                            assert(done.contains(done[j]));
                        } else {
                            assert(order@[i] == done[i] && order@[j] == done[j]);
                        }
                    }
                }
                lemma_distinct_nodes(order@, nn);
                assert forall|x: usize| order@.contains(x) <==> (done.contains(x) || x == n) by {
                    if done.contains(x) {
                        let i = choose|i: int| 0 <= i < done.len() && done[i] == x;
                        assert(order@[i] == x);
                    }
                    if x == n {
                        assert(order@[done.len() as int] == x);
                    }
                }
            }

            let old_edges = edges;
            let mut kept: Vec<(usize, usize)> = Vec::new();
            let mut j: usize = 0;
            proof {
                lemma_keep_members(orig, done);
                assert(kept@ =~= keep_unprocessed(old_edges@.take(0), seq![n]));
                assert forall|t: usize|
                    t < nn && !order@.contains(t) && degrees@[t as int] == 0 implies active@.contains(t) by {
                    assert(old_active.contains(t));
                    let w = choose|w: int| 0 <= w < old_active.len() && old_active[w] == t;
                    assert(w != old_active.len() - 1);
                    assert(active@[w] == t);
                }
                assert(old_edges@.subrange(0, old_edges@.len() as int) =~= old_edges@);
            }
            while j < old_edges.len()
                invariant
                    node_count == nn,
                    degrees@.len() == nn,
                    j <= old_edges@.len(),
                    old_edges@ == keep_unprocessed(orig, done),
                    forall|m: int| 0 <= m < orig.len() ==> orig[m].0 < nn && orig[m].1 < nn,
                    forall|m: int|
                        0 <= m < old_edges@.len() ==> !done.contains(
                            #[trigger] old_edges@[m].0,
                        ) && exists|q: int| 0 <= q < orig.len() && orig[q] == old_edges@[m],
                    forall|m: int|
                        0 <= m < orig.len() && !done.contains(orig[m].0) ==> !done.contains(
                            orig[m].1,
                        ),
                    count_into(old_edges@, n) == 0,
                    forall|x: usize| order@.contains(x) <==> (done.contains(x) || x == n),
                    kept@ == keep_unprocessed(old_edges@.take(j as int), seq![n]),
                    forall|t: int|
                        0 <= t < nn ==> degrees@[t] == count_into(kept@, t as usize) + count_into(
                            old_edges@.subrange(j as int, old_edges@.len() as int),
                            t as usize,
                        ),
                    active@.no_duplicates(),
                    forall|i: int|
                        0 <= i < active@.len() ==> active@[i] < nn && !order@.contains(active@[i])
                            && degrees@[active@[i] as int] == 0,
                    forall|t: usize|
                        t < nn && !order@.contains(t) && degrees@[t as int] == 0
                            ==> active@.contains(t),
                decreases old_edges@.len() - j,
            {
                let (f, t) = old_edges[j];
                let ghost rest = old_edges@.subrange(j as int, old_edges@.len() as int);
                proof {
                    let q = choose|q: int| 0 <= q < orig.len() && orig[q] == old_edges@[j as int];
                    assert(orig[q] == (f, t));
                    assert(rest[0] == (f, t));
                    assert(rest.drop_first() =~= old_edges@.subrange(
                        j + 1,
                        old_edges@.len() as int,
                    ));
                    assert forall|u: usize| true implies count_into(rest, u) == count_into(
                        rest.drop_first(),
                        u,
                    ) + if t == u {
                        1nat
                    } else {
                        0nat
                    } by {
                        lemma_count_first(rest, u);
                    }
                    assert(old_edges@.take(j + 1).drop_last() =~= old_edges@.take(j as int));
                    assert(old_edges@.take(j + 1).last() == (f, t));
                    assert(seq![n].contains(f) <==> f == n) by {
                        if f == n {
                            assert(seq![n][0] == n);
                        }
                    }
                }
                if f == n {
                    let ghost deg0 = degrees@;
                    let ghost act0 = active@;
                    proof {
                        if t == n {
                            lemma_count_contains(old_edges@, j as int);
                        }
                        assert(!order@.contains(t));
                        assert(!active@.contains(t));
                    }
                    let d = degrees[t] - 1;
                    degrees.set(t, d);
                    if d == 0 {
                        active.push(t);
                        proof {
                            assert(active@ == act0.push(t));
                            assert forall|a: int, b: int|
                                0 <= a < active@.len() && 0 <= b < active@.len() && a != b implies active@[a]
                                != active@[b] by {
                                if a == act0.len() {
                                    assert(act0.contains(act0[b]));
                                } else if b == act0.len() {
                                    assert(act0.contains(act0[a]));
                                }
                            }
                            assert forall|u: usize|
                                u < nn && !order@.contains(u) && degrees@[u as int] == 0 implies active@.contains(u) by {
                                if u != t {
                                    assert(deg0[u as int] == 0);
                                    assert(act0.contains(u));
                                    let w = choose|w: int| 0 <= w < act0.len() && act0[w] == u;
                                    assert(active@[w] == u);
                                } else {
                                    assert(active@[act0.len() as int] == u);
                                }
                            }
                        }
                    }
                } else {
                    kept.push((f, t));
                    proof {
                        assert(kept@.drop_last() =~= keep_unprocessed(old_edges@.take(j as int), seq![n]));
                    }
                }
                j = j + 1;
            }
            proof {
                assert(old_edges@.take(j as int) =~= old_edges@);
                lemma_keep_one_more(orig, done, n);
                assert(keep_unprocessed(orig, order@) == kept@);
                assert forall|t: int| 0 <= t < nn implies degrees@[t] == count_into(kept@, t as usize) by {
                    assert(old_edges@.subrange(j as int, old_edges@.len() as int).len() == 0);
                }
                // an edge into `n` starts earlier; an edge out of `n` ends later
                assert forall|m: int, i: int, j2: int|
                    #![trigger orig[m], order@[i], order@[j2]]
                    0 <= m < orig.len() && 0 <= i < order@.len() && 0 <= j2 < order@.len()
                        && order@[i] == orig[m].0 && order@[j2] == orig[m].1 implies i < j2 by {
                    if j2 == done.len() {
                        assert(done.contains(orig[m].0));
                        if i == done.len() {
                            assert(false);
                        }
                    } else if i == done.len() {
                        assert(done[j2] == orig[m].1);
                        assert(done.contains(orig[m].1));
                        assert(!done.contains(orig[m].0));
                    } else {
                        assert(done[i] == orig[m].0 && done[j2] == orig[m].1);
                    }
                }
                assert forall|m: int|
                    0 <= m < orig.len() && !order@.contains(orig[m].0) implies !order@.contains(orig[m].1) by {
                    if orig[m].1 == n {
                        assert(done.contains(orig[m].0));
                    }
                }
            }
            edges = kept;
        }

        proof {
            assert(active@.len() == 0);
            lemma_keep_members(orig, order@);
        }
        if edges.len() == 0 {
            proof {
                assert forall|t: usize| t < nn implies order@.contains(t) by {
                    if !order@.contains(t) {
                        assert(degrees@[t as int] == 0);
                        assert(active@.contains(t));
                    }
                }
                lemma_distinct_nodes(order@, nn);
                assert(is_topological_order(order@, nn, orig));
            }
            Some(order)
        } else {
            proof {
                assert forall|t: usize| t < nn && !order@.contains(t) implies count_into(edges@, t) > 0 by {
                    if degrees@[t as int] == 0 {
                        assert(active@.contains(t));
                    }
                }
                if has_topological_order(nn, orig) {
                    let o = choose|o: Seq<usize>| is_topological_order(o, nn, orig);
                    let a = edges@[0].0;
                    assert(!order@.contains(a));
                    let q = choose|q: int| 0 <= q < orig.len() && orig[q] == edges@[0];
                    lemma_distinct_nodes(o, nn);
                    assert(o.contains(a));
                    let i = choose|i: int| 0 <= i < o.len() && o[i] == a;
                    lemma_stuck_nodes_unordered(o, nn, orig, edges@, order@, i);
                }
            }
            None
        }
    }
}

} // verus!
