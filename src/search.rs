use vstd::prelude::*;
use std::collections::HashSet;
use crate::graph::{neighbors, Graph, GraphView, Path};

verus! {

broadcast use vstd::std_specs::hash::group_hash_axioms;

/// `p` is a closed walk of exactly `l` edges along `adj`: each edge is in the
/// adjacency map, each edge starts where the previous one ended, the last one
/// ends at the first vertex, and no vertex is left twice.
pub open spec fn is_cycle(adj: Map<u32, Seq<u32>>, p: Seq<(u32, u32)>, l: nat) -> bool {
    &&& l >= 1
    &&& p.len() == l
    &&& forall|i: int| 0 <= i < p.len() ==> neighbors(adj, #[trigger] p[i].0).contains(p[i].1)
    &&& forall|i: int| 0 <= i < p.len() - 1 ==> #[trigger] p[i].1 == p[i + 1].0
    &&& p[p.len() - 1].1 == p[0].0
    &&& forall|i: int, j: int| 0 <= i < j < p.len() ==> #[trigger] p[i].0 != #[trigger] p[j].0
}

/// Some cycle of `l` edges starts at a vertex of the vertex list.
pub open spec fn has_cycle(g: GraphView, l: nat) -> bool {
    exists|p: Seq<(u32, u32)>| is_cycle(g.adj, p, l) && g.vertex.contains(#[trigger] p[0].0)
}

/// What a search for a cycle of `l` edges in `g` may return: an empty path
/// exactly when no such cycle exists, otherwise one such cycle.
pub open spec fn search_outcome(g: GraphView, l: nat, r: Seq<(u32, u32)>) -> bool {
    &&& (r.len() == 0 <==> !has_cycle(g, l))
    &&& (r.len() > 0 ==> is_cycle(g.adj, r, l) && g.vertex.contains(r[0].0))
}

/// `path` is a simple walk from `start` to `v` along `adj` that has not left `v`.
pub open spec fn is_walk(adj: Map<u32, Seq<u32>>, path: Seq<(u32, u32)>, v: u32, start: u32) -> bool {
    &&& path.len() == 0 ==> v == start
    &&& path.len() > 0 ==> path[0].0 == start && path[path.len() - 1].1 == v
    &&& forall|i: int| 0 <= i < path.len() ==> neighbors(adj, #[trigger] path[i].0).contains(path[i].1)
    &&& forall|i: int| 0 <= i < path.len() - 1 ==> #[trigger] path[i].1 == path[i + 1].0
    &&& forall|i: int, j: int| 0 <= i < j < path.len() ==> #[trigger] path[i].0 != #[trigger] path[j].0
    &&& forall|i: int| 0 <= i < path.len() ==> #[trigger] path[i].0 != v
}

/// The vertices that `path` has left.
pub open spec fn sources(path: Seq<(u32, u32)>) -> Set<u32> {
    Set::new(|x: u32| exists|i: int| 0 <= i < path.len() && #[trigger] path[i].0 == x)
}

/// The walk `path`, standing at `v`, extends to a cycle of `l` edges.
pub open spec fn completes(adj: Map<u32, Seq<u32>>, path: Seq<(u32, u32)>, v: u32, l: nat) -> bool {
    exists|p: Seq<(u32, u32)>|
        #![trigger is_cycle(adj, p, l)]
        is_cycle(adj, p, l) && p.subrange(0, path.len() as int) == path && p[path.len() as int].0 == v
}

/// The first cycle of `l` edges that the depth-first search finds from the
/// walk `path` standing at `v`, trying the neighbours of `v` from position
/// `k` on, in list order, and skipping vertices the walk has already reached.
pub open spec fn first_cycle_from(
    adj: Map<u32, Seq<u32>>,
    path: Seq<(u32, u32)>,
    v: u32,
    start: u32,
    l: nat,
    k: nat,
) -> Option<Seq<(u32, u32)>>
    decreases l - path.len(), neighbors(adj, v).len() - k,
{
    if path.len() + 1 >= l {
        if neighbors(adj, v).contains(start) {
            Some(path.push((v, start)))
        } else {
            None
        }
    } else if k >= neighbors(adj, v).len() {
        None
    } else {
        let n = neighbors(adj, v)[k as int];
        if sources(path).insert(v).contains(n) {
            first_cycle_from(adj, path, v, start, l, k + 1)
        } else {
            match first_cycle_from(adj, path.push((v, n)), n, start, l, 0) {
                Some(c) => Some(c),
                None => first_cycle_from(adj, path, v, start, l, k + 1),
            }
        }
    }
}

/// The first cycle of `l` edges found from the start vertices at positions
/// `j` onwards of the vertex list, or the empty path.
pub open spec fn first_cycle_at(g: GraphView, l: nat, j: nat) -> Seq<(u32, u32)>
    decreases g.vertex.len() - j,
{
    if l == 0 || j >= g.vertex.len() {
        Seq::empty()
    } else {
        match first_cycle_from(g.adj, Seq::empty(), g.vertex[j as int], g.vertex[j as int], l, 0) {
            Some(c) => c,
            None => first_cycle_at(g, l, j + 1),
        }
    }
}

/// The cycle of `l` edges that the search reports for `g`: the first one
/// found, trying start vertices in vertex-list order; empty when none is.
pub open spec fn first_cycle(g: GraphView, l: nat) -> Seq<(u32, u32)> {
    first_cycle_at(g, l, 0)
}

/// A search for a cycle of a given length in an unchanged graph reports the
/// same outcome, found or not found, every time.
pub proof fn lemma_search_outcome_stable(g: GraphView, l: nat, r1: Seq<(u32, u32)>, r2: Seq<(u32, u32)>)
    requires
        search_outcome(g, l, r1),
        search_outcome(g, l, r2),
    ensures
        (r1.len() == 0) == (r2.len() == 0),
{
}

/// Whether `l` holds `x`.
fn list_contains(l: &Vec<u32>, x: u32) -> (r: bool)
    ensures
        r == l@.contains(x),
{
    let mut i: usize = 0;
    while i < l.len()
        invariant
            0 <= i <= l@.len(),
            forall|j: int| 0 <= j < i ==> l@[j] != x,
        decreases l@.len() - i,
    {
        if l[i] == x {
            return true;
        }
        i += 1;
    }
    false
}

/// Backtracking search: extends the walk `path`, which stands at `v` at
/// `depth` edges from `start`, to a cycle of `cycle_size` edges. `visited`
/// holds the vertices the walk has left. On success `path` holds the cycle;
/// on failure `path` and `visited` are as they were.
fn dfs(
    graph: &Graph,
    v: u32,
    start: u32,
    depth: u32,
    visited: &mut HashSet<u32>,
    path: &mut Path,
    cycle_size: u32,
) -> (found: bool)
    requires
        1 <= cycle_size,
        depth < cycle_size,
        old(path)@.len() == depth,
        is_walk(graph@.adj, old(path)@, v, start),
        old(visited)@ == sources(old(path)@),
    ensures
        found == completes(graph@.adj, old(path)@, v, cycle_size as nat),
        found ==> is_cycle(graph@.adj, final(path)@, cycle_size as nat),
        found ==> final(path)@.subrange(0, depth as int) == old(path)@,
        found ==> final(path)@[depth as int].0 == v,
        found == first_cycle_from(graph@.adj, old(path)@, v, start, cycle_size as nat, 0) is Some,
        found ==> Some(final(path)@) == first_cycle_from(graph@.adj, old(path)@, v, start, cycle_size as nat, 0),
        !found ==> final(path)@ == old(path)@ && final(visited)@ == old(visited)@,
    decreases cycle_size - depth,
{
    let ghost adj = graph@.adj;
    let ghost l = cycle_size as nat;
    let ghost p0 = path@;
    let ghost d = depth as int;
    if depth == cycle_size - 1 {
        let closes = match graph.adj.get(&v) {
            Some(ns) => list_contains(ns, start),
            None => false,
        };
        if closes {
            path.push((v, start));
            proof {
                let p = path@;
                assert(p.subrange(0, d) =~= p0);
                assert(p[0].0 == start);
                assert(is_cycle(adj, p, l));
            }
            return true;
        } else {
            proof {
                assert(!neighbors(adj, v).contains(start));
                if completes(adj, p0, v, l) {
                    let p = choose|p: Seq<(u32, u32)>| #[trigger] is_cycle(adj, p, l)
                        && p.subrange(0, d) == p0 && p[d].0 == v;
                    if d > 0 {
                        assert(p[0] == p.subrange(0, d)[0]);
                    }
                    assert(neighbors(adj, p[d].0).contains(p[d].1));
                }
            }
            return false;
        }
    }
    visited.insert(v);
    proof {
        assert(visited@ =~= sources(p0).insert(v));
    }
    let ns: &Vec<u32> = match graph.adj.get(&v) {
        Some(ns) => ns,
        None => &Vec::new(),
    };
    assert(ns@ == neighbors(adj, v));
    let mut k: usize = 0;
    while k < ns.len()
        invariant
            0 <= k <= ns@.len(),
            ns@ == neighbors(adj, v),
            adj == graph@.adj,
            p0 == old(path)@,
            path@ == p0,
            visited@ == sources(p0).insert(v),
            depth + 1 < cycle_size,
            d == depth,
            l == cycle_size,
            d == p0.len(),
            is_walk(adj, p0, v, start),
            first_cycle_from(adj, p0, v, start, l, 0) == first_cycle_from(adj, p0, v, start, l, k as nat),
            forall|j: int|
                0 <= j < k ==> !(!sources(p0).insert(v).contains(ns@[j]) && #[trigger] completes(
                    adj,
                    p0.push((v, ns@[j])),
                    ns@[j],
                    l,
                )),
        decreases ns@.len() - k,
    {
        let n = ns[k];
        if !visited.contains(&n) {
            path.push((v, n));
            proof {
                let q = path@;
                assert(ns@.contains(n));
                assert(sources(q) =~= sources(p0).insert(v)) by {
                    assert forall|x: u32| sources(q).contains(x) implies sources(p0).insert(v).contains(x) by {
                        let i = choose|i: int| 0 <= i < q.len() && #[trigger] q[i].0 == x;
                        if i < p0.len() {
                            assert(q[i] == p0[i]);
                        }
                    }
                    assert forall|x: u32| sources(p0).insert(v).contains(x) implies sources(q).contains(x) by {
                        if x == v {
                            assert(q[d].0 == v);
                        } else {
                            let i = choose|i: int| 0 <= i < p0.len() && #[trigger] p0[i].0 == x;
                            assert(q[i] == p0[i]);
                        }
                    }
                }
                assert forall|i: int| 0 <= i < q.len() implies #[trigger] q[i].0 != n by {
                    if i < p0.len() {
                        assert(q[i] == p0[i]);
                        assert(sources(p0).contains(p0[i].0));
                    }
                }
                assert(ns@[k as int] == n);
                assert(forall|i: int| 0 <= i < d ==> q[i] == p0[i]);
                assert(q[d] == (v, n));
                assert forall|i: int| 0 <= i < q.len() implies neighbors(adj, #[trigger] q[i].0).contains(q[i].1) by {
                    if i < d {
                        assert(q[i] == p0[i]);
                    }
                }
                assert forall|i: int| 0 <= i < q.len() - 1 implies #[trigger] q[i].1 == q[i + 1].0 by {
                    assert(q[i] == p0[i]);
                    if i + 1 < d {
                        assert(q[i + 1] == p0[i + 1]);
                    }
                }
                assert forall|i: int, j: int| 0 <= i < j < q.len() implies #[trigger] q[i].0 != #[trigger] q[j].0 by {
                    assert(q[i] == p0[i]);
                    if j < d {
                        assert(q[j] == p0[j]);
                    }
                }
                if d > 0 {
                    assert(q[0] == p0[0]);
                }
                assert(is_walk(adj, q, n, start));
            }
            let ghost q = path@;
            if dfs(graph, n, start, depth + 1, visited, path, cycle_size) {
                proof {
                    let p = path@;
                    assert(p.subrange(0, d) =~= p.subrange(0, d + 1).subrange(0, d));
                    assert(p.subrange(0, d + 1).subrange(0, d) =~= p0);
                    assert(p[d] == p.subrange(0, d + 1)[d]);
                    assert(q[d] == (v, n));
                    assert(is_cycle(adj, p, l));
                    assert(completes(adj, p0, v, l));
                    assert(first_cycle_from(adj, p0, v, start, l, k as nat) == first_cycle_from(adj, q, n, start, l, 0));
                }
                return true;
            }
            path.pop();
            proof {
                assert(path@ =~= p0);
                assert(first_cycle_from(adj, p0, v, start, l, k as nat) == first_cycle_from(adj, p0, v, start, l, (k + 1) as nat));
            }
        } else {
            proof {
                assert(first_cycle_from(adj, p0, v, start, l, k as nat) == first_cycle_from(adj, p0, v, start, l, (k + 1) as nat));
            }
        }
        k += 1;
    }
    visited.remove(&v);
    proof {
        assert(visited@ =~= sources(p0)) by {
            assert(!sources(p0).contains(v));
        }
        if completes(adj, p0, v, l) {
            let p = choose|p: Seq<(u32, u32)>| #[trigger] is_cycle(adj, p, l)
                && p.subrange(0, d) == p0 && p[d].0 == v;
            let n = p[d].1;
            assert(p[d + 1].0 == n);
            assert(neighbors(adj, v).contains(n));
            let j = choose|j: int| 0 <= j < ns@.len() && ns@[j] == n;
            assert(!sources(p0).insert(v).contains(n)) by {
                assert forall|i: int| 0 <= i < p0.len() implies p0[i].0 != n by {
                    assert(p0[i] == p.subrange(0, d)[i]);
                }
            }
            assert(p.subrange(0, d + 1) =~= p0.push((v, n)));
            assert(completes(adj, p0.push((v, n)), n, l));
            assert(false);
        }
    }
    false
}

impl Graph {
    /// Searches `g` for a cycle of exactly `cycle_size` edges by depth-first
    /// backtracking from each vertex of its vertex list in turn, and returns
    /// the first one found, or an empty path when there is none.
    pub fn find_cycle(&self, g: &mut Graph, cycle_size: u32) -> (r: Path)
        ensures
            final(g)@ == old(g)@,
            r@ == first_cycle(old(g)@, cycle_size as nat),
            search_outcome(old(g)@, cycle_size as nat, r@),
    {
        let ghost adj = g@.adj;
        let ghost l = cycle_size as nat;
        if cycle_size == 0 {
            proof {
                assert(first_cycle(g@, l) =~= Seq::<(u32, u32)>::empty());
            }
            return Vec::new();
        }
        let mut k: usize = 0;
        while k < g.vertex.len()
            invariant
                0 <= k <= g@.vertex.len(),
                g@ == old(g)@,
                adj == g@.adj,
                l == cycle_size,
                cycle_size >= 1,
                forall|j: int| 0 <= j < k ==> !#[trigger] completes(adj, Seq::empty(), g@.vertex[j], l),
                first_cycle(g@, l) == first_cycle_at(g@, l, k as nat),
            decreases g@.vertex.len() - k,
        {
            let start = g.vertex[k];
            let mut visited: HashSet<u32> = HashSet::new();
            let mut path: Path = Vec::new();
            proof {
                assert(visited@ =~= sources(path@));
                assert(path@ =~= Seq::<(u32, u32)>::empty());
            }
            if dfs(g, start, start, 0, &mut visited, &mut path, cycle_size) {
                proof {
                    assert(g@.vertex[k as int] == start);
                    assert(first_cycle_at(g@, l, k as nat) == path@);
                }
                return path;
            }
            proof {
                assert(first_cycle_at(g@, l, k as nat) == first_cycle_at(g@, l, (k + 1) as nat));
            }
            k += 1;
        }
        proof {
            if has_cycle(g@, l) {
                let p = choose|p: Seq<(u32, u32)>| is_cycle(adj, p, l) && g@.vertex.contains(#[trigger] p[0].0);
                let j = choose|j: int| 0 <= j < g@.vertex.len() && g@.vertex[j] == p[0].0;
                assert(p.subrange(0, 0) =~= Seq::<(u32, u32)>::empty());
                assert(completes(adj, Seq::empty(), g@.vertex[j], l));
            }
            assert(first_cycle_at(g@, l, k as nat) =~= Seq::<(u32, u32)>::empty());
        }
        Vec::new()
    }
}

} // verus!
