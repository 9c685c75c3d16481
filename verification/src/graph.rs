use crate::infusion::Compatibility;
use crate::infusion::Infusion;
use crate::infusion::InfusionView;
use crate::order::ascending;
use crate::order::dedup_sorted;
use crate::order::lemma_ascending_no_duplicates;
use crate::order::lemma_filter_ascending;
use crate::order::sort_ids;
use petgraph::graphmap::GraphMap;
use petgraph::graphmap::UnGraphMap;
use std::collections::HashMap;
use vstd::prelude::*;

verus! {

/// The graph type of petgraph, `GraphMap`, taken as it is: nothing is
/// known of a graph but what the functions below say.
#[verifier::external_type_specification]
#[verifier::external_body]
#[verifier::reject_recursive_types(N)]
#[verifier::reject_recursive_types(E)]
#[verifier::reject_recursive_types(Ty)]
#[verifier::reject_recursive_types(S)]
pub struct ExGraphMap<N, E, Ty, S: std::hash::BuildHasher>(GraphMap<N, E, Ty, S>);

/// The marker of petgraph for graphs whose edges have no direction.
#[verifier::external_type_specification]
#[verifier::external_body]
pub struct ExUndirected(petgraph::Undirected);

/// An undirected graph whose nodes are infusion ids and whose edges carry
/// nothing.
pub type IdGraph = UnGraphMap<u32, ()>;

/// The nodes that a graph holds, in the order in which it hands them out.
pub uninterp spec fn graph_nodes(g: IdGraph) -> Seq<u32>;

/// For each node that a graph holds, its neighbours in the order in which
/// the graph hands them out.
pub uninterp spec fn graph_adjacency(g: IdGraph) -> Map<u32, Seq<u32>>;

/// `GraphMap::new`: a graph without nodes or edges.
#[verifier::external_body]
fn graph_new() -> (g: IdGraph)
    ensures
        graph_nodes(g) == Seq::<u32>::empty(),
        graph_adjacency(g) == (Map::<u32, Seq<u32>>::empty()),
{
    IdGraph::new()
}

/// `GraphMap::add_node` with a node that the graph does not hold yet: the
/// node comes last, and has no neighbours.
#[verifier::external_body]
fn graph_add_node(g: &mut IdGraph, n: u32)
    requires
        !graph_nodes(*old(g)).contains(n),
    ensures
        graph_nodes(*final(g)) == graph_nodes(*old(g)).push(n),
        graph_adjacency(*final(g)) == graph_adjacency(*old(g)).insert(n, Seq::<u32>::empty()),
{
    g.add_node(n);
}

/// `GraphMap::add_edge` between two different nodes that the graph holds
/// and has not joined yet: each comes last among the other's neighbours,
/// and nothing else changes.
#[verifier::external_body]
fn graph_add_edge(g: &mut IdGraph, a: u32, b: u32)
    requires
        a != b,
        graph_adjacency(*old(g)).contains_key(a),
        graph_adjacency(*old(g)).contains_key(b),
        !graph_adjacency(*old(g))[a].contains(b),
        !graph_adjacency(*old(g))[b].contains(a),
    ensures
        graph_nodes(*final(g)) == graph_nodes(*old(g)),
        graph_adjacency(*final(g)) == graph_adjacency(*old(g)).insert(
            a,
            graph_adjacency(*old(g))[a].push(b),
        ).insert(b, graph_adjacency(*old(g))[b].push(a)),
{
    g.add_edge(a, b, ());
}

/// `GraphMap::nodes`, collected.
#[verifier::external_body]
fn graph_node_list(g: &IdGraph) -> (nodes: Vec<u32>)
    ensures
        nodes@ == graph_nodes(*g),
{
    g.nodes().collect()
}

/// `GraphMap::neighbors`, collected: the neighbours of a node that the
/// graph holds, and nothing for any other node.
#[verifier::external_body]
fn graph_neighbor_list(g: &IdGraph, n: u32) -> (neighbors: Vec<u32>)
    ensures
        neighbors@ == if graph_adjacency(*g).contains_key(n) {
            graph_adjacency(*g)[n]
        } else {
            Seq::<u32>::empty()
        },
{
    g.neighbors(n).collect()
}

/// Whether two infusions of a catalogue must be kept apart: they are
/// different, and the catalogue does not show each as compatible with the
/// other. An infusion that the catalogue does not know conflicts with every
/// other.
pub open spec fn conflicts(catalog: Map<u32, InfusionView>, a: u32, b: u32) -> bool {
    a != b && !(catalog.contains_key(a) && catalog.contains_key(b) && catalog[a].compatible_with(
        b,
    ) && catalog[b].compatible_with(a))
}

/// A catalogue as the contracts see it.
pub open spec fn catalog_view(catalog: Map<u32, Infusion>) -> Map<u32, InfusionView> {
    catalog.map_values(|infusion: Infusion| infusion@)
}

/// An undirected graph over infusion ids: the nodes, smallest first, and
/// for each node its neighbours, smallest first.
#[verifier::ext_equal]
pub struct GraphView {
    pub nodes: Seq<u32>,
    pub adj: Map<u32, Seq<u32>>,
}

impl GraphView {
    pub open spec fn neighbors(self, n: u32) -> Seq<u32> {
        if self.adj.contains_key(n) {
            self.adj[n]
        } else {
            Seq::empty()
        }
    }

    pub open spec fn adjacent(self, a: u32, b: u32) -> bool {
        self.neighbors(a).contains(b)
    }

    /// A simple graph in canonical form: no node twice, no loop, every edge
    /// seen from both ends, and every list strictly ascending.
    pub open spec fn wf(self) -> bool {
        &&& ascending(self.nodes)
        &&& self.adj.dom() == self.nodes.to_set()
        &&& forall|n: u32| #[trigger] self.adj.contains_key(n) ==> ascending(self.adj[n])
        &&& forall|a: u32, b: u32| #[trigger]
            self.adjacent(a, b) ==> a != b && self.nodes.contains(a) && self.nodes.contains(b)
                && self.adjacent(b, a)
    }

    /// The canonical graph over the ids of `universe` whose edges are the
    /// conflicts of `catalog`.
    pub open spec fn models(self, catalog: Map<u32, InfusionView>, universe: Set<u32>) -> bool {
        &&& self.wf()
        &&& self.nodes.to_set() == universe
        &&& forall|a: u32, b: u32| #[trigger]
            self.adjacent(a, b) <==> universe.contains(a) && universe.contains(b) && conflicts(
                catalog,
                a,
                b,
            )
    }
}

/// The conflict graph of a request: one node per infusion under
/// consideration, and an edge between two that must not share an IV line.
pub struct ConflictGraph {
    graph: IdGraph,
}

impl View for ConflictGraph {
    type V = GraphView;

    closed spec fn view(&self) -> GraphView {
        GraphView { nodes: graph_nodes(self.graph), adj: graph_adjacency(self.graph) }
    }
}

/// Whether the catalogue keeps `a` and `b` apart.
pub fn in_conflict(catalog: &HashMap<u32, Infusion>, a: u32, b: u32) -> (apart: bool)
    ensures
        apart == conflicts(catalog_view(catalog@), a, b),
{
    broadcast use vstd::std_specs::hash::group_hash_axioms;

    if a == b {
        return false;
    }
    match catalog.get(&a) {
        None => true,
        Some(first) => match catalog.get(&b) {
            None => true,
            Some(second) => !(first.verdict_with(b) == Compatibility::Compatible
                && second.verdict_with(a) == Compatibility::Compatible),
        },
    }
}

impl ConflictGraph {
    #[verifier::type_invariant]
    pub open spec fn well_formed(self) -> bool {
        self@.wf()
    }

    /// Builds the conflict graph of `catalog` over the ids of `universe`.
    /// An id that the catalogue knows but `universe` does not name is no
    /// node of the graph.
    pub fn new(catalog: &HashMap<u32, Infusion>, universe: &Vec<u32>) -> (g: ConflictGraph)
        ensures
            g@.models(catalog_view(catalog@), universe@.to_set()),
    {
        let ghost cat = catalog_view(catalog@);
        let mut ids: Vec<u32> = Vec::new();
        let mut k: usize = 0;
        while k < universe.len()
            invariant
                0 <= k <= universe.len(),
                ids@ == universe@.take(k as int),
            decreases universe.len() - k,
        {
            ids.push(universe[k]);
            proof {
                assert(universe@.take(k + 1) =~= universe@.take(k as int).push(universe@[k as int]));
            }
            k += 1;
        }
        proof {
            assert(universe@.take(universe.len() as int) =~= universe@);
        }
        sort_ids(&mut ids);
        proof {
            broadcast use vstd::seq_lib::group_to_multiset_ensures;

            assert(ids@.to_set() =~= universe@.to_set()) by {
                assert forall|x: u32| ids@.to_set().contains(x) <==> universe@.to_set().contains(
                    x,
                ) by {
                    assert(ids@.contains(x) <==> ids@.to_multiset().count(x) > 0);
                    assert(universe@.contains(x) <==> universe@.to_multiset().count(x) > 0);
                }
            }
        }
        let nodes = dedup_sorted(&ids);
        proof {
            lemma_ascending_no_duplicates(nodes@);
        }

        let mut graph = graph_new();
        let mut i: usize = 0;
        while i < nodes.len()
            invariant
                0 <= i <= nodes.len(),
                nodes@.no_duplicates(),
                graph_nodes(graph) == nodes@.take(i as int),
                graph_adjacency(graph).dom() == nodes@.take(i as int).to_set(),
                forall|n: u32| #[trigger]
                    graph_adjacency(graph).contains_key(n) ==> graph_adjacency(graph)[n]
                        == Seq::<u32>::empty(),
            decreases nodes.len() - i,
        {
            let ghost before = graph_adjacency(graph);
            proof {
                if nodes@.take(i as int).contains(nodes@[i as int]) {
                    let p = choose|p: int|
                        0 <= p < nodes@.take(i as int).len() && nodes@.take(i as int)[p] == nodes@[i as int];
                    assert(nodes@[p] == nodes@[i as int]);
                }
            }
            graph_add_node(&mut graph, nodes[i]);
            proof {
                assert(nodes@.take(i + 1) =~= nodes@.take(i as int).push(nodes@[i as int]));
                assert(graph_adjacency(graph).dom() =~= nodes@.take(i + 1).to_set()) by {
                    nodes@.take(i as int).lemma_push_to_set_commute(nodes@[i as int]);
                }
            }
            i += 1;
        }
        proof {
            assert(nodes@.take(nodes.len() as int) =~= nodes@);
            assert forall|p: int| 0 <= p < nodes@.len() implies #[trigger] graph_adjacency(
                graph,
            )[nodes@[p]] == nodes@.take(0).filter(|y: u32| conflicts(cat, nodes@[p], y)) by {
                let keep = |y: u32| conflicts(cat, nodes@[p], y);
                assert(nodes@.to_set().contains(nodes@[p]));
                assert(graph_adjacency(graph).contains_key(nodes@[p]));
                nodes@.take(0).lemma_filter_len(keep);
                assert(nodes@.take(0).filter(keep) =~= Seq::<u32>::empty());
            }
        }

        let mut i: usize = 0;
        while i < nodes.len()
            invariant
                0 <= i <= nodes.len(),
                cat == catalog_view(catalog@),
                ascending(nodes@),
                nodes@.no_duplicates(),
                graph_nodes(graph) == nodes@,
                graph_adjacency(graph).dom() == nodes@.to_set(),
                forall|p: int|
                    0 <= p < nodes@.len() ==> #[trigger] graph_adjacency(graph)[nodes@[p]]
                        == nodes@.take(if p < i { nodes@.len() as int } else { i as int }).filter(
                        |y: u32| conflicts(cat, nodes@[p], y),
                    ),
            decreases nodes.len() - i,
        {
            let a = nodes[i];
            let mut j: usize = i;
            while j < nodes.len()
                invariant
                    0 <= i < nodes.len(),
                    i <= j <= nodes.len(),
                    a == nodes@[i as int],
                    cat == catalog_view(catalog@),
                    ascending(nodes@),
                    nodes@.no_duplicates(),
                    graph_nodes(graph) == nodes@,
                    graph_adjacency(graph).dom() == nodes@.to_set(),
                    forall|p: int|
                        0 <= p < nodes@.len() ==> #[trigger] graph_adjacency(graph)[nodes@[p]]
                            == nodes@.take(reach(p, i as int, j as int, nodes@.len() as int)).filter(
                            |y: u32| conflicts(cat, nodes@[p], y),
                        ),
                decreases nodes.len() - j,
            {
                let b = nodes[j];
                let ghost before = graph_adjacency(graph);
                let apart = in_conflict(catalog, a, b);
                proof {
                    assert(nodes@.contains(a) && nodes@.contains(b));
                    assert(before[nodes@[i as int]] == nodes@.take(j as int).filter(
                        |y: u32| conflicts(cat, a, y),
                    ));
                    assert(before[nodes@[j as int]] == nodes@.take(reach(j as int, i as int, j as int, nodes@.len() as int)).filter(
                        |y: u32| conflicts(cat, b, y),
                    ));
                    lemma_absent_from_front(nodes@, j as int, |y: u32| conflicts(cat, a, y));
                    if i < j {
                        lemma_absent_from_front(nodes@, i as int, |y: u32| conflicts(cat, b, y));
                    }
                }
                if apart {
                    graph_add_edge(&mut graph, a, b);
                }
                proof {
                    let after = graph_adjacency(graph);
                    assert(after.dom() =~= nodes@.to_set());
                    assert forall|p: int| 0 <= p < nodes@.len() implies #[trigger] after[nodes@[p]]
                        == nodes@.take(reach(p, i as int, j + 1, nodes@.len() as int)).filter(
                        |y: u32| conflicts(cat, nodes@[p], y),
                    ) by {
                        let keep = |y: u32| conflicts(cat, nodes@[p], y);
                        assert(before[nodes@[p]] == nodes@.take(
                            reach(p, i as int, j as int, nodes@.len() as int),
                        ).filter(keep));
                        if p == i {
                            assert(nodes@.take(j + 1) =~= nodes@.take(j as int).push(b));
                            nodes@.take(j as int).lemma_filter_push(b, keep);
                        } else if p == j {
                            assert(nodes@.take(i + 1) =~= nodes@.take(i as int).push(a));
                            nodes@.take(i as int).lemma_filter_push(a, keep);
                        } else {
                            assert(nodes@[p] != a && nodes@[p] != b);
                        }
                    }
                }
                j += 1;
            }
            proof {
                assert forall|p: int| 0 <= p < nodes@.len() implies #[trigger] graph_adjacency(
                    graph,
                )[nodes@[p]] == nodes@.take(
                    if p < i + 1 {
                        nodes@.len() as int
                    } else {
                        i + 1
                    },
                ).filter(|y: u32| conflicts(cat, nodes@[p], y)) by {
                    assert(graph_adjacency(graph)[nodes@[p]] == nodes@.take(
                        reach(p, i as int, nodes@.len() as int, nodes@.len() as int),
                    ).filter(|y: u32| conflicts(cat, nodes@[p], y)));
                }
            }
            i += 1;
        }
        proof {
            let view = GraphView { nodes: graph_nodes(graph), adj: graph_adjacency(graph) };
            assert(nodes@.take(nodes@.len() as int) =~= nodes@);
            assert forall|n: u32| #[trigger] view.adj.contains_key(n) implies view.adj[n]
                == nodes@.filter(|y: u32| conflicts(cat, n, y)) by {
                assert(nodes@.contains(n));
                let p = choose|p: int| 0 <= p < nodes@.len() && nodes@[p] == n;
                assert(view.adj[nodes@[p]] == nodes@.take(nodes@.len() as int).filter(
                    |y: u32| conflicts(cat, nodes@[p], y),
                ));
            }
            assert forall|n: u32| #[trigger] view.adj.contains_key(n) implies ascending(
                view.adj[n],
            ) by {
                lemma_filter_ascending(nodes@, |y: u32| conflicts(cat, n, y));
            }
            assert forall|a: u32, b: u32| #[trigger]
                view.adjacent(a, b) <==> nodes@.contains(a) && nodes@.contains(b) && conflicts(
                    cat,
                    a,
                    b,
                ) by {
                broadcast use vstd::seq_lib::group_filter_ensures;
                broadcast use Seq::lemma_filter_contains_rev;

                let keep = |y: u32| conflicts(cat, a, y);
                if view.adjacent(a, b) {
                    assert(view.adj.contains_key(a));
                    assert(nodes@.filter(keep).contains(b));
                    let q = choose|q: int|
                        0 <= q < nodes@.filter(keep).len() && nodes@.filter(keep)[q] == b;
                    assert(keep(nodes@.filter(keep)[q]));
                }
                if nodes@.contains(a) && nodes@.contains(b) && conflicts(cat, a, b) {
                    assert(view.adj.contains_key(a));
                    let q = choose|q: int| 0 <= q < nodes@.len() && nodes@[q] == b;
                    assert(keep(nodes@[q]));
                    assert(nodes@.filter(keep).contains(nodes@[q]));
                }
            }
            assert(view.wf());
        }
        ConflictGraph { graph }
    }

    /// The nodes, smallest first.
    pub fn nodes(&self) -> (nodes: Vec<u32>)
        ensures
            nodes@ == self@.nodes,
            ascending(nodes@),
    {
        proof {
            use_type_invariant(self);
        }
        graph_node_list(&self.graph)
    }

    /// The infusions that must be kept apart from `id`, smallest first.
    /// An id that is no node has none.
    pub fn neighbors(&self, id: u32) -> (neighbors: Vec<u32>)
        ensures
            neighbors@ == self@.neighbors(id),
            ascending(neighbors@),
    {
        proof {
            use_type_invariant(self);
        }
        graph_neighbor_list(&self.graph, id)
    }

    /// The number of infusions that must be kept apart from `id`.
    pub fn degree(&self, id: u32) -> (degree: usize)
        ensures
            degree == self@.neighbors(id).len(),
    {
        self.neighbors(id).len()
    }
}

/// How much of the node list has been matched against node `p` when the
/// pairs before `(i, j)` have been visited.
spec fn reach(p: int, i: int, j: int, len: int) -> int {
    if p < i {
        len
    } else if p == i {
        j
    } else if p < j {
        i + 1
    } else {
        i
    }
}

/// What does not occur twice in a list is, at its place, not among the
/// kept elements before it.
proof fn lemma_absent_from_front(nodes: Seq<u32>, k: int, keep: spec_fn(u32) -> bool)
    requires
        nodes.no_duplicates(),
        0 <= k < nodes.len(),
    ensures
        !nodes.take(k).filter(keep).contains(nodes[k]),
{
    if nodes.take(k).filter(keep).contains(nodes[k]) {
        nodes.take(k).lemma_filter_contains_rev(keep, nodes[k]);
        let p = choose|p: int| 0 <= p < nodes.take(k).len() && nodes.take(k)[p] == nodes[k];
        assert(nodes[p] == nodes[k]);
    }
}

} // verus!
