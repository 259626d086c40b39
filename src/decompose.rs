use vstd::prelude::*;
use crate::graph::{Graph, GraphView, Path};
use crate::queue::Queue;
use crate::schedule::{schedule, ScheduleError};
use crate::search::{first_cycle, search_outcome};

verus! {

broadcast use vstd::std_specs::hash::group_hash_axioms;

/// The edges of each path of `ps`.
pub open spec fn paths_view(ps: Seq<Path>) -> Seq<Seq<(u32, u32)>> {
    ps.map_values(|c: Path| c@)
}

/// `cs[i]` is the cycle of `sizes[i]` edges that the search reports in what is
/// left of `g` once the cycles before it are removed: a cycle of that graph,
/// or the empty path when it has none of that length.
pub open spec fn is_decomposition(g: GraphView, sizes: Seq<u32>, cs: Seq<Seq<(u32, u32)>>) -> bool {
    &&& sizes.len() == cs.len()
    &&& forall|i: int|
        0 <= i < cs.len() ==> #[trigger] cs[i] == first_cycle(g.after_cycles(cs.take(i)), sizes[i] as nat)
    &&& forall|i: int|
        0 <= i < cs.len() ==> search_outcome(g.after_cycles(cs.take(i)), sizes[i] as nat, #[trigger] cs[i])
}

/// The outcome of a decomposition run.
pub struct Decomposition {
    /// The scheduled cycle lengths, in the order they were tried.
    pub sizes: Vec<u32>,
    /// For each scheduled length, the cycle found, or an empty path.
    pub cycles: Vec<Path>,
    /// The working graph once every found cycle is removed.
    pub remaining: Graph,
}

impl Decomposition {
    /// The found cycles as sequences.
    pub open spec fn cycles_view(&self) -> Seq<Seq<(u32, u32)>> {
        paths_view(self.cycles@)
    }
}

proof fn lemma_extend_decomposition(
    g: GraphView,
    sizes: Seq<u32>,
    cs: Seq<Seq<(u32, u32)>>,
    size: u32,
    c: Seq<(u32, u32)>,
)
    requires
        is_decomposition(g, sizes, cs),
        c == first_cycle(g.after_cycles(cs), size as nat),
        search_outcome(g.after_cycles(cs), size as nat, c),
    ensures
        is_decomposition(g, sizes.push(size), cs.push(c)),
{
    let cs2 = cs.push(c);
    assert forall|i: int| 0 <= i < cs2.len() implies #[trigger] cs2[i] == first_cycle(
        g.after_cycles(cs2.take(i)),
        sizes.push(size)[i] as nat,
    ) by {
        if i < cs.len() {
            assert(cs2.take(i) =~= cs.take(i));
            assert(cs2[i] == cs[i]);
            assert(cs[i] == first_cycle(g.after_cycles(cs.take(i)), sizes[i] as nat));
        } else {
            assert(cs2.take(i) =~= cs);
        }
    }
    assert forall|i: int| 0 <= i < cs2.len() implies search_outcome(
        g.after_cycles(cs2.take(i)),
        sizes.push(size)[i] as nat,
        #[trigger] cs2[i],
    ) by {
        if i < cs.len() {
            assert(cs2.take(i) =~= cs.take(i));
            assert(cs2[i] == cs[i]);
            assert(search_outcome(g.after_cycles(cs.take(i)), sizes[i] as nat, cs[i]));
        } else {
            assert(cs2.take(i) =~= cs);
        }
    }
}

impl Graph {
    /// Decomposes the graph into edge-disjoint cycles. The minimum cycle size
    /// is a third of the edge count; the cycle lengths come from `fill_queue`.
    /// Each length in turn is searched for with `find_cycle` in a working copy
    /// of the graph, and the edges of the cycle found are removed from that
    /// copy. A length for which no cycle exists is skipped. The graph itself
    /// is left untouched. Fewer than three edges is a configuration error.
    #[verifier::rlimit(50)]
    pub fn find_disjoint_cycles(&self) -> (r: Result<Decomposition, ScheduleError>)
        requires
            self@.edges.len() <= u32::MAX,
        ensures
            self@.edges.len() < 3 ==> r == Err::<Decomposition, ScheduleError>(ScheduleError::ZeroCycleSize),
            self@.edges.len() >= 3 ==> r is Ok,
            r matches Ok(d) ==> {
                &&& d.sizes@ == schedule(self@.edges.len() as u32, (self@.edges.len() / 3) as u32)
                &&& is_decomposition(self@, d.sizes@, d.cycles_view())
                &&& d.remaining@ == self@.after_cycles(d.cycles_view())
            },
    {
        let mut subgraph = self.duplicate();
        let num_edges = self.edges.len() as u32;
        let min_cycle_size = num_edges / 3;
        let mut q_c: Queue<u32> = Queue::new();
        match self.fill_queue(&mut q_c, num_edges, min_cycle_size) {
            Err(e) => {
                return Err(e);
            },
            Ok(()) => {},
        }
        let ghost plan = q_c@;
        let mut sizes: Vec<u32> = Vec::new();
        let mut cycles: Vec<Path> = Vec::new();
        proof {
            assert(sizes@ + q_c@ =~= plan);
            assert(is_decomposition(self@, sizes@, paths_view(cycles@)));
        }
        while !q_c.is_empty()
            invariant
                sizes@ + q_c@ == plan,
                is_decomposition(self@, sizes@, paths_view(cycles@)),
                subgraph@ == self@.after_cycles(paths_view(cycles@)),
            decreases q_c@.len(),
        {
            let ghost cs0 = paths_view(cycles@);
            let ghost sizes0 = sizes@;
            let cycle_size = q_c.dequeue().unwrap();
            let cycle = self.find_cycle(&mut subgraph, cycle_size);
            subgraph.remove_path(&cycle);
            sizes.push(cycle_size);
            cycles.push(cycle);
            proof {
                let cs = paths_view(cycles@);
                assert(cs =~= cs0.push(cycle@));
                assert(cs.drop_last() =~= cs0);
                assert(sizes@ + q_c@ =~= plan);
                lemma_extend_decomposition(self@, sizes0, cs0, cycle_size, cycle@);
            }
        }
        proof {
            assert(sizes@ =~= plan);
        }
        Ok(Decomposition { sizes, cycles, remaining: subgraph })
    }
}

} // verus!
