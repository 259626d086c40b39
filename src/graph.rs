use vstd::prelude::*;
use std::collections::HashMap;

verus! {

broadcast use vstd::std_specs::hash::group_hash_axioms;

/// Vertex identifiers of a graph.
pub type Vertex = Vec<u32>;

/// Edges of a graph, each one a pair of vertex identifiers.
pub type Edges = Vec<Vec<u32>>;

/// A closed walk, as the ordered list of its directed edges.
pub type Path = Vec<(u32, u32)>;

/// An undirected graph: a vertex list, the edge list it was built from, and
/// the adjacency map that is the authoritative connectivity.
///
/// The edge list seeds the adjacency map and is never changed afterwards:
/// removing an edge affects the adjacency map and the vertex list only.
/// Edge endpoints are not checked against the vertex list; the adjacency map
/// is taken as it stands.
#[derive(Debug, Clone)]
pub struct Graph {
    pub vertex: Vertex,
    pub edges: Edges,
    pub adj: HashMap<u32, Vec<u32>>,
}

/// Mathematical model of a graph.
pub struct GraphView {
    pub vertex: Seq<u32>,
    pub edges: Seq<Seq<u32>>,
    pub adj: Map<u32, Seq<u32>>,
}

impl View for Graph {
    type V = GraphView;

    open spec fn view(&self) -> GraphView {
        GraphView {
            vertex: self.vertex@,
            edges: lists_view(self.edges@),
            adj: self.adj@.map_values(|l: Vec<u32>| l@),
        }
    }
}

/// The contents of each list of `ls`.
pub open spec fn lists_view(ls: Seq<Vec<u32>>) -> Seq<Seq<u32>> {
    ls.map_values(|e: Vec<u32>| e@)
}

/// The neighbours of `v`; empty for a vertex without an entry.
pub open spec fn neighbors(adj: Map<u32, Seq<u32>>, v: u32) -> Seq<u32> {
    if adj.contains_key(v) {
        adj[v]
    } else {
        Seq::empty()
    }
}

/// `adj` with `y` appended to the neighbours of `x`.
pub open spec fn link(adj: Map<u32, Seq<u32>>, x: u32, y: u32) -> Map<u32, Seq<u32>> {
    adj.insert(x, neighbors(adj, x).push(y))
}

/// `adj` after adding the undirected edge `(u, v)`.
pub open spec fn add_edge_adj(adj: Map<u32, Seq<u32>>, u: u32, v: u32) -> Map<u32, Seq<u32>> {
    link(link(adj, u, v), v, u)
}

/// Every edge of the list names two endpoints.
pub open spec fn edges_are_pairs(es: Seq<Seq<u32>>) -> bool {
    forall|i: int| 0 <= i < es.len() ==> #[trigger] es[i].len() >= 2
}

/// `adj` after adding every edge of `es`, in order.
pub open spec fn add_all(adj: Map<u32, Seq<u32>>, es: Seq<Seq<u32>>) -> Map<u32, Seq<u32>>
    decreases es.len(),
{
    if es.len() == 0 {
        adj
    } else {
        add_edge_adj(add_all(adj, es.drop_last()), es.last()[0], es.last()[1])
    }
}

/// Whether `i` is the position of the first occurrence of `x` in `s`.
pub open spec fn is_first_index(s: Seq<u32>, x: u32, i: int) -> bool {
    &&& 0 <= i < s.len()
    &&& s[i] == x
    &&& forall|j: int| 0 <= j < i ==> s[j] != x
}

/// `s` without the first occurrence of `x`; `s` itself when `x` does not occur.
pub open spec fn remove_one(s: Seq<u32>, x: u32) -> Seq<u32> {
    if s.contains(x) {
        s.remove(choose|i: int| is_first_index(s, x, i))
    } else {
        s
    }
}

/// `s` without any occurrence of `x`.
pub open spec fn without(s: Seq<u32>, x: u32) -> Seq<u32>
    decreases s.len(),
{
    if s.len() == 0 {
        s
    } else if s.last() == x {
        without(s.drop_last(), x)
    } else {
        without(s.drop_last(), x).push(s.last())
    }
}

impl GraphView {
    /// Drops one occurrence of `y` from the neighbours of `x`; a vertex whose
    /// neighbour list becomes empty leaves the map and the vertex list.
    pub open spec fn unlink(self, x: u32, y: u32) -> GraphView {
        if self.adj.contains_key(x) {
            let l = remove_one(self.adj[x], y);
            if l.len() == 0 {
                GraphView { vertex: without(self.vertex, x), edges: self.edges, adj: self.adj.remove(x) }
            } else {
                GraphView { adj: self.adj.insert(x, l), ..self }
            }
        } else {
            self
        }
    }

    /// The graph after removing the undirected edge `(u, v)`.
    pub open spec fn remove_edge(self, u: u32, v: u32) -> GraphView {
        self.unlink(u, v).unlink(v, u)
    }
    /// The graph after removing every edge of `p`, in order.
    pub open spec fn remove_path(self, p: Seq<(u32, u32)>) -> GraphView
        decreases p.len(),
    {
        if p.len() == 0 {
            self
        } else {
            self.remove_path(p.drop_last()).remove_edge(p.last().0, p.last().1)
        }
    }

    /// The graph after removing the edges of each path of `cs`, in order.
    pub open spec fn after_cycles(self, cs: Seq<Seq<(u32, u32)>>) -> GraphView
        decreases cs.len(),
    {
        if cs.len() == 0 {
            self
        } else {
            self.after_cycles(cs.drop_last()).remove_path(cs.last())
        }
    }
}

proof fn lemma_link_keeps(adj: Map<u32, Seq<u32>>, x: u32, y: u32, a: u32, b: u32)
    requires
        neighbors(adj, a).contains(b),
    ensures
        neighbors(link(adj, x, y), a).contains(b),
{
    if a == x {
        let i = choose|i: int| 0 <= i < neighbors(adj, a).len() && neighbors(adj, a)[i] == b;
        assert(neighbors(link(adj, x, y), a)[i] == b);
    }
}

/// Once built from an edge list, the adjacency map links the two endpoints
/// of every edge of the list, in both directions.
pub proof fn lemma_built_adjacency_links_edges(adj: Map<u32, Seq<u32>>, es: Seq<Seq<u32>>)
    requires
        edges_are_pairs(es),
    ensures
        forall|i: int|
            0 <= i < es.len() ==> neighbors(add_all(adj, es), #[trigger] es[i][0]).contains(es[i][1])
                && neighbors(add_all(adj, es), es[i][1]).contains(es[i][0]),
    decreases es.len(),
{
    if es.len() > 0 {
        let rest = es.drop_last();
        let a0 = add_all(adj, rest);
        let (u, v) = (es.last()[0], es.last()[1]);
        assert(es.last() == es[es.len() - 1]);
        assert(edges_are_pairs(rest)) by {
            assert forall|i: int| 0 <= i < rest.len() implies #[trigger] rest[i].len() >= 2 by {
                assert(rest[i] == es[i]);
            }
        }
        lemma_built_adjacency_links_edges(adj, rest);
        assert forall|i: int| 0 <= i < es.len() implies neighbors(add_all(adj, es), #[trigger] es[i][0]).contains(es[i][1])
            && neighbors(add_all(adj, es), es[i][1]).contains(es[i][0]) by {
            let a1 = link(a0, u, v);
            let a2 = link(a1, v, u);
            assert(neighbors(a1, u).last() == v);
            assert(neighbors(a2, v).last() == u);
            lemma_link_keeps(a1, v, u, u, v);
            if i < rest.len() {
                assert(rest[i] == es[i]);
                lemma_link_keeps(a0, u, v, es[i][0], es[i][1]);
                lemma_link_keeps(a1, v, u, es[i][0], es[i][1]);
                lemma_link_keeps(a0, u, v, es[i][1], es[i][0]);
                lemma_link_keeps(a1, v, u, es[i][1], es[i][0]);
            }
        }
    }
}

proof fn lemma_without_excludes(s: Seq<u32>, x: u32, z: u32)
    ensures
        without(s, x).contains(z) ==> s.contains(z) && z != x,
    decreases s.len(),
{
    if s.len() > 0 {
        lemma_without_excludes(s.drop_last(), x, z);
        if without(s, x).contains(z) {
            let r = without(s.drop_last(), x);
            if s.last() != x && z == s.last() {
                assert(s[s.len() - 1] == z);
            } else if s.last() != x {
                let i = choose|i: int| 0 <= i < without(s, x).len() && without(s, x)[i] == z;
                assert(r.push(s.last())[i] == z);
                assert(r[i] == z);
                let j = choose|j: int| 0 <= j < s.drop_last().len() && s.drop_last()[j] == z;
                assert(s[j] == z);
            } else {
                let j = choose|j: int| 0 <= j < s.drop_last().len() && s.drop_last()[j] == z;
                assert(s[j] == z);
            }
        }
    }
}

/// `x` occurs exactly once in `s`.
pub open spec fn occurs_once(s: Seq<u32>, x: u32) -> bool {
    exists|i: int| 0 <= i < s.len() && s[i] == x && forall|j: int| 0 <= j < s.len() && #[trigger] s[j] == x ==> j == i
}

proof fn lemma_remove_one_drops(s: Seq<u32>, x: u32)
    requires
        occurs_once(s, x),
    ensures
        !remove_one(s, x).contains(x),
{
    let i = choose|i: int| 0 <= i < s.len() && s[i] == x && forall|j: int| 0 <= j < s.len() && #[trigger] s[j] == x ==> j == i;
    assert(s.contains(x));
    let k = choose|k: int| is_first_index(s, x, k);
    assert(is_first_index(s, x, i));
    lemma_first_index_unique(s, x, i, k);
    let r = s.remove(i);
    assert forall|m: int| 0 <= m < r.len() implies r[m] != x by {
        if m < i {
            assert(r[m] == s[m]);
        } else {
            assert(r[m] == s[m + 1]);
        }
    }
}

proof fn lemma_unlink_other(g: GraphView, x: u32, y: u32, w: u32)
    requires
        w != x,
    ensures
        g.unlink(x, y).adj.contains_key(w) == g.adj.contains_key(w),
        g.adj.contains_key(w) ==> g.unlink(x, y).adj[w] == g.adj[w],
        g.unlink(x, y).vertex.contains(w) ==> g.vertex.contains(w),
{
    if g.adj.contains_key(x) && remove_one(g.adj[x], y).len() == 0 {
        lemma_without_excludes(g.vertex, x, w);
    }
}

proof fn lemma_unlink_self(g: GraphView, x: u32, y: u32)
    ensures
        g.unlink(x, y).adj.contains_key(x) ==> g.unlink(x, y).adj[x].len() > 0,
        g.adj.contains_key(x) && !g.unlink(x, y).adj.contains_key(x) ==> !g.unlink(x, y).vertex.contains(x),
        g.adj.contains_key(x) && occurs_once(g.adj[x], y) ==> !neighbors(g.unlink(x, y).adj, x).contains(y),
        g.adj.contains_key(x) && g.adj[x].len() > 0 && !g.adj[x].contains(y) ==> g.unlink(x, y) == g,
{
    if g.adj.contains_key(x) {
        assert(g.adj.insert(x, g.adj[x]) =~= g.adj);
        lemma_without_excludes(g.vertex, x, x);
        if occurs_once(g.adj[x], y) {
            lemma_remove_one_drops(g.adj[x], y);
        }
    }
}

/// Removing an edge is symmetric: where each endpoint occurs once among the
/// other's neighbours, neither lists the other afterwards; and an endpoint
/// whose neighbour list became empty is gone from the adjacency map and from
/// the vertex list.
pub proof fn lemma_remove_edge_symmetric(g: GraphView, u: u32, v: u32)
    ensures
        g.adj.contains_key(u) && g.adj.contains_key(v) && occurs_once(g.adj[u], v) && occurs_once(g.adj[v], u)
            ==> !neighbors(g.remove_edge(u, v).adj, u).contains(v) && !neighbors(g.remove_edge(u, v).adj, v).contains(u),
        g.remove_edge(u, v).adj.contains_key(u) ==> g.remove_edge(u, v).adj[u].len() > 0,
        g.remove_edge(u, v).adj.contains_key(v) ==> g.remove_edge(u, v).adj[v].len() > 0,
        g.adj.contains_key(u) && !g.remove_edge(u, v).adj.contains_key(u) ==> !g.remove_edge(u, v).vertex.contains(u),
        g.adj.contains_key(v) && !g.remove_edge(u, v).adj.contains_key(v) ==> !g.remove_edge(u, v).vertex.contains(v),
{
    let g1 = g.unlink(u, v);
    lemma_unlink_self(g, u, v);
    lemma_unlink_self(g1, v, u);
    if u != v {
        lemma_unlink_other(g, u, v, v);
        lemma_unlink_other(g1, v, u, u);
    } else {
        if g.adj.contains_key(u) && occurs_once(g.adj[u], v) && g1.adj.contains_key(u) {
            assert(!g1.adj[u].contains(u));
        }
    }
}

/// A copy of `l`.
fn copy_list(l: &Vec<u32>) -> (r: Vec<u32>)
    ensures
        r@ == l@,
{
    let mut r: Vec<u32> = Vec::new();
    let mut i: usize = 0;
    while i < l.len()
        invariant
            0 <= i <= l@.len(),
            r@ == l@.subrange(0, i as int),
        decreases l@.len() - i,
    {
        r.push(l[i]);
        i += 1;
        proof {
            assert(r@ =~= l@.subrange(0, i as int));
        }
    }
    proof {
        assert(l@.subrange(0, l@.len() as int) =~= l@);
    }
    r
}

proof fn lemma_first_index_unique(s: Seq<u32>, x: u32, i: int, k: int)
    requires
        is_first_index(s, x, i),
        is_first_index(s, x, k),
    ensures
        i == k,
{
}

/// Finds the first occurrence of `x` in `l` and removes it.
fn remove_first(l: &mut Vec<u32>, x: u32)
    ensures
        final(l)@ == remove_one(old(l)@, x),
{
    let mut i: usize = 0;
    while i < l.len()
        invariant
            0 <= i <= l@.len(),
            l@ == old(l)@,
            forall|j: int| 0 <= j < i ==> l@[j] != x,
        decreases l@.len() - i,
    {
        if l[i] == x {
            proof {
                assert(is_first_index(l@, x, i as int));
                assert(l@.contains(x));
                let k = choose|k: int| is_first_index(l@, x, k);
                lemma_first_index_unique(l@, x, i as int, k);
            }
            l.remove(i);
            return;
        }
        i += 1;
    }
    proof {
        assert(!l@.contains(x));
    }
}

/// The list `s` without any occurrence of `x`.
fn without_vertex(s: &Vec<u32>, x: u32) -> (r: Vec<u32>)
    ensures
        r@ == without(s@, x),
{
    let mut r: Vec<u32> = Vec::new();
    let mut i: usize = 0;
    while i < s.len()
        invariant
            0 <= i <= s@.len(),
            r@ == without(s@.subrange(0, i as int), x),
        decreases s@.len() - i,
    {
        proof {
            assert(s@.subrange(0, i + 1).drop_last() =~= s@.subrange(0, i as int));
        }
        if s[i] != x {
            r.push(s[i]);
        }
        i += 1;
    }
    proof {
        assert(s@.subrange(0, s@.len() as int) =~= s@);
    }
    r
}

impl Graph {
    /// Creates a graph from a vertex list and an edge list, and builds its
    /// adjacency map from the edges: each edge `[u, v, ..]` links `u` and `v`
    /// in both directions. Self-loops and repeated edges are kept as given.
    pub fn new(vertex: Vertex, edges: Edges) -> (g: Graph)
        requires
            edges_are_pairs(lists_view(edges@)),
        ensures
            g@.vertex == vertex@,
            g@.edges == lists_view(edges@),
            g@.adj == add_all(Map::empty(), g@.edges),
    {
        let mut g: Graph = Graph { vertex, edges, adj: HashMap::new() };
        proof {
            assert(g@.adj =~= Map::empty());
        }
        g.build_adj_list();
        g
    }

    /// Adds the undirected edge `(from, to)`: `to` is appended to the
    /// neighbours of `from` and `from` to those of `to`.
    pub fn add_edge(&mut self, from: u32, to: u32)
        ensures
            final(self)@.vertex == old(self)@.vertex,
            final(self)@.edges == old(self)@.edges,
            final(self)@.adj == add_edge_adj(old(self)@.adj, from, to),
            neighbors(final(self)@.adj, from).contains(to),
            neighbors(final(self)@.adj, to).contains(from),
    {
        self.append_neighbor(from, to);
        self.append_neighbor(to, from);
        proof {
            let a1 = link(old(self)@.adj, from, to);
            let a = self@.adj;
            assert(a1[from].last() == to);
            if from == to {
                assert(a[from][a[from].len() - 2] == to);
            } else {
                assert(a[from].last() == to);
            }
            assert(a[to].last() == from);
        }
    }

    fn append_neighbor(&mut self, x: u32, y: u32)
        ensures
            final(self)@.vertex == old(self)@.vertex,
            final(self)@.edges == old(self)@.edges,
            final(self)@.adj == link(old(self)@.adj, x, y),
    {
        let mut l = match self.adj.remove(&x) {
            Some(l) => l,
            None => Vec::new(),
        };
        l.push(y);
        self.adj.insert(x, l);
        proof {
            assert(self@.adj =~= link(old(self)@.adj, x, y));
        }
    }

    /// Removes one occurrence of `to` from the neighbours of `from` and one of
    /// `from` from the neighbours of `to`. A vertex left without neighbours
    /// leaves the adjacency map and the vertex list. Removing an absent edge
    /// changes nothing.
    pub fn remove_edge(&mut self, from: u32, to: u32)
        ensures
            final(self)@ == old(self)@.remove_edge(from, to),
    {
        self.unlink(from, to);
        self.unlink(to, from);
    }

    fn unlink(&mut self, x: u32, y: u32)
        ensures
            final(self)@ == old(self)@.unlink(x, y),
    {
        match self.adj.remove(&x) {
            None => {
                proof {
                    assert(self@.adj =~= old(self)@.adj);
                }
            },
            Some(mut l) => {
                remove_first(&mut l, y);
                if l.len() == 0 {
                    self.vertex = without_vertex(&self.vertex, x);
                    proof {
                        assert(self@.adj =~= old(self)@.adj.remove(x));
                    }
                } else {
                    self.adj.insert(x, l);
                    proof {
                        assert(self@.adj =~= old(self)@.adj.insert(x, l@));
                    }
                }
            },
        }
    }

    /// A copy of the graph that shares nothing with it.
    pub(crate) fn duplicate(&self) -> (r: Graph)
        ensures
            r@ == self@,
    {
        let mut edges: Edges = Vec::new();
        let mut i: usize = 0;
        while i < self.edges.len()
            invariant
                0 <= i <= self.edges@.len(),
                edges@.len() == i,
                forall|j: int| 0 <= j < i ==> #[trigger] edges@[j]@ == self.edges@[j]@,
            decreases self.edges@.len() - i,
        {
            let e = copy_list(&self.edges[i]);
            edges.push(e);
            i += 1;
        }
        proof {
            assert(lists_view(edges@) =~= lists_view(self.edges@));
        }
        Graph { vertex: copy_list(&self.vertex), edges, adj: self.adj.clone() }
    }

    /// Removes every edge of `cycle` from the graph, in order.
    pub(crate) fn remove_path(&mut self, cycle: &Path)
        ensures
            final(self)@ == old(self)@.remove_path(cycle@),
    {
        let mut e: usize = 0;
        while e < cycle.len()
            invariant
                0 <= e <= cycle@.len(),
                self@ == old(self)@.remove_path(cycle@.subrange(0, e as int)),
            decreases cycle@.len() - e,
        {
            proof {
                assert(cycle@.subrange(0, e + 1).drop_last() =~= cycle@.subrange(0, e as int));
            }
            let (from, to) = cycle[e];
            self.remove_edge(from, to);
            e += 1;
        }
        proof {
            assert(cycle@.subrange(0, cycle@.len() as int) =~= cycle@);
        }
    }

    /// Adds every edge of the edge list to the adjacency map, in order.
    pub fn build_adj_list(&mut self)
        requires
            edges_are_pairs(old(self)@.edges),
        ensures
            final(self)@.vertex == old(self)@.vertex,
            final(self)@.edges == old(self)@.edges,
            final(self)@.adj == add_all(old(self)@.adj, old(self)@.edges),
    {
        let mut i: usize = 0;
        while i < self.edges.len()
            invariant
                0 <= i <= self@.edges.len(),
                self@.vertex == old(self)@.vertex,
                self@.edges == old(self)@.edges,
                edges_are_pairs(self@.edges),
                self@.adj == add_all(old(self)@.adj, self@.edges.subrange(0, i as int)),
            decreases self@.edges.len() - i,
        {
            proof {
                let es = self@.edges;
                assert(es[i as int].len() >= 2);
                assert(self.edges@[i as int]@ == es[i as int]);
                assert(es.subrange(0, i + 1).drop_last() =~= es.subrange(0, i as int));
            }
            let a = self.edges[i][0];
            let b = self.edges[i][1];
            self.add_edge(a, b);
            i += 1;
        }
        proof {
            assert(self@.edges.subrange(0, self@.edges.len() as int) =~= self@.edges);
        }
    }
}

} // verus!
