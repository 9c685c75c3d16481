use crate::coloring::arrange;
use crate::coloring::arranged;
use crate::coloring::best_color;
use crate::coloring::clash;
use crate::coloring::Clash;
use crate::coloring::Coloring;
use crate::coloring::colors_all;
use crate::coloring::colors_properly;
use crate::coloring::fresh;
use crate::coloring::in_range;
use crate::coloring::is_best_color;
use crate::coloring::keeps_seeds;
use crate::coloring::key_le;
use crate::coloring::lemma_arranged_unique;
use crate::coloring::lemma_best_color_unique;
use crate::coloring::open_seed;
use crate::coloring::others;
use crate::coloring::paint;
use crate::coloring::priority;
use crate::coloring::refuses;
use crate::coloring::rivals;
use crate::coloring::roomy;
use crate::coloring::run;
use crate::coloring::seeds_valid;
use crate::coloring::seed_all;
use crate::coloring::seed_members;
use crate::coloring::seed_set;
use crate::coloring::shaped;
use crate::coloring::solution;
use crate::coloring::step;
use crate::coloring::try_paint;
use crate::coloring::with_new_color;
use crate::graph::catalog_view;
use crate::graph::ConflictGraph;
use crate::graph::GraphView;
use crate::infusion::Infusion;
use crate::infusion::InfusionView;
use crate::laws::law_solution;
use crate::order::ascending;
use crate::order::ascending_firsts;
use crate::order::lemma_ascending_no_duplicates;
use crate::order::lemma_filter_agree;
use crate::order::lemma_filter_ascending_firsts;
use crate::order::lemma_first_kept;
use crate::order::lemma_none_kept;
use crate::order::lemma_take_step;
use crate::order::sorted_by_second;
use crate::order::sorted_keys;
use crate::order::with_key;
use crate::soundness::lemma_clash_free;
use crate::soundness::lemma_fresh_settled;
use crate::soundness::lemma_open_seed;
use crate::soundness::lemma_paint_valid;
use crate::soundness::lemma_round;
use crate::soundness::lemma_run_unfold;
use crate::soundness::lemma_seed_all;
use crate::soundness::lemma_seed_all_next;
use crate::soundness::lemma_seed_all_stops;
use crate::soundness::lemma_seed_all_tallied;
use crate::soundness::lemma_seed_set;
use crate::soundness::lemma_seed_step;
use crate::soundness::lemma_step;
use crate::soundness::lemma_unpainted_finite;
use crate::soundness::seeding;
use crate::soundness::settled;
use crate::soundness::taken;
use crate::soundness::tallied;
use crate::soundness::valid;
use crate::text::decimal;
use crate::text::numbered;
use std::collections::HashMap;
use std::collections::HashSet;
use vstd::prelude::*;
use vstd::std_specs::iter::IteratorSpec;

verus! {

/// Two infusions that were assigned to one IV although they must be kept
/// apart. `iv` counts the pre-configured IVs from zero.
#[derive(Debug)]
pub struct ConflictError {
    pub iv: u32,
    pub conflicting_items: (String, String),
}

/// An IV compatibility problem, reduced to graph colouring: each infusion
/// is a node, incompatible infusions are joined by an edge, and the nodes
/// of one colour are the infusions that go into one IV.
pub struct CompatibilityProblem {
    infusions: HashMap<u32, Infusion>,
    graph: ConflictGraph,
    uncolored_nodes: Vec<u32>,
    possible_colors: HashMap<u32, HashSet<u32>>,
    adjacent_uncolored: HashMap<u32, usize>,
    color_usage: Vec<Vec<u32>>,
    color_max_count: Vec<i64>,
    colors: Vec<u32>,
    seeded: usize,
}

/// The options of the nodes as sets of colours.
pub open spec fn possible_view(m: Map<u32, HashSet<u32>>) -> Map<u32, Set<u32>> {
    m.map_values(|colors: HashSet<u32>| colors@)
}

/// The counters of the nodes as numbers.
pub open spec fn counts_view(m: Map<u32, usize>) -> Map<u32, int> {
    m.map_values(|k: usize| k as int)
}

/// The nodes of each colour as sequences.
pub open spec fn usage_view(v: Seq<Vec<u32>>) -> Seq<Seq<u32>> {
    v.map_values(|nodes: Vec<u32>| nodes@)
}

/// The bounds of the colours as numbers.
pub open spec fn bounds_view(v: Seq<i64>) -> Seq<int> {
    v.map_values(|k: i64| k as int)
}

/// The pre-configured IVs as sets of ids.
pub open spec fn seeds_view(ivs: Seq<HashSet<u32>>) -> Seq<Set<u32>> {
    ivs.map_values(|members: HashSet<u32>| members@)
}

/// Whether `assignment` gives, for each colour of `usage` and for no other,
/// the infusions that `catalog` holds under the ids painted with it, in
/// their order.
pub open spec fn assigns(
    assignment: Map<u32, Vec<&Infusion>>,
    catalog: Map<u32, InfusionView>,
    usage: Seq<Seq<u32>>,
) -> bool {
    &&& forall|c: u32| assignment.contains_key(c) <==> c < usage.len()
    &&& forall|c: u32| c < usage.len() ==> (#[trigger] assignment[c])@.len() == usage[c as int].len()
    &&& forall|c: u32, i: int|
        c < usage.len() && 0 <= i < usage[c as int].len() ==> (#[trigger] assignment[c]@[i])@
            == catalog[usage[c as int][i]]
}

/// The key that the waiting nodes are sorted by, as the machine holds it:
/// the first component falls as the number of options grows.
pub open spec fn sort_key(
    possible: Map<u32, HashSet<u32>>,
    adjacent: Map<u32, usize>,
    n: u32,
) -> (int, int, int) {
    (usize::MAX - possible[n]@.len(), adjacent[n] as int, n as int)
}

fn node_key(
    possible: &HashMap<u32, HashSet<u32>>,
    adjacent: &HashMap<u32, usize>,
    n: u32,
) -> (key: (usize, usize, u32))
    requires
        possible@.contains_key(n),
        adjacent@.contains_key(n),
    ensures
        (key.0 as int, key.1 as int, key.2 as int) == sort_key(possible@, adjacent@, n),
{
    broadcast use vstd::std_specs::hash::group_hash_axioms;

    let options = possible.get(&n).unwrap().len();
    let open = *adjacent.get(&n).unwrap();
    (usize::MAX - options, open, n)
}

/// `slice::sort_unstable_by_key` on the waiting nodes: the vector holds the
/// same nodes as before, and their keys ascend, a key being a triple that
/// is ordered by its first component, then its second, then its third.
#[verifier::external_body]
fn sort_by_key(
    nodes: &mut Vec<u32>,
    possible: &HashMap<u32, HashSet<u32>>,
    adjacent: &HashMap<u32, usize>,
)
    requires
        forall|i: int|
            0 <= i < old(nodes)@.len() ==> possible@.contains_key(#[trigger] old(nodes)@[i])
                && adjacent@.contains_key(old(nodes)@[i]),
    ensures
        final(nodes)@.to_multiset() == old(nodes)@.to_multiset(),
        forall|i: int, j: int|
            0 <= i < j < final(nodes)@.len() ==> key_le(
                sort_key(possible@, adjacent@, #[trigger] final(nodes)@[i]),
                sort_key(possible@, adjacent@, #[trigger] final(nodes)@[j]),
            ),
{
    nodes.sort_unstable_by_key(|n| node_key(possible, adjacent, *n));
}

impl ConflictError {
    /// Whether this error reports `clash`, with the names that `catalog`
    /// gives the two infusions.
    pub open spec fn reports(&self, catalog: Map<u32, InfusionView>, clash: Clash) -> bool {
        &&& self.iv == clash.iv
        &&& self.conflicting_items.0@ == catalog[clash.node].name
        &&& self.conflicting_items.1@ == catalog[clash.other].name
    }
}

impl ConflictError {
    /// The number of the IV as it is shown: the first IV is number one.
    pub fn iv_number(&self) -> (number: u64)
        ensures
            number == self.iv + 1,
    {
        (self.iv as u64) + 1
    }

    /// The error in words.
    pub fn to_string(&self) -> (text: String)
        ensures
            text@ == "There are incompatible infusions in IV #"@ + decimal((self.iv + 1) as nat),
    {
        numbered("There are incompatible infusions in IV #", self.iv_number())
    }
}

/// Whether `id` occurs in `ids`.
fn holds(ids: &Vec<u32>, id: u32) -> (found: bool)
    ensures
        found == ids@.contains(id),
{
    let mut i: usize = 0;
    while i < ids.len()
        invariant
            0 <= i <= ids.len(),
            forall|j: int| 0 <= j < i ==> ids@[j] != id,
        decreases ids.len() - i,
    {
        if ids[i] == id {
            return true;
        }
        i += 1;
    }
    false
}

/// The first of `neighbors` that occurs in `painted`.
fn first_taken(neighbors: &Vec<u32>, painted: &Vec<u32>) -> (hit: Option<u32>)
    ensures
        match hit {
            Some(m) => exists|i: int|
                0 <= i < neighbors@.len() && #[trigger] neighbors@[i] == m && painted@.contains(m)
                    && forall|j: int| 0 <= j < i ==> !painted@.contains(#[trigger] neighbors@[j]),
            None => forall|j: int|
                0 <= j < neighbors@.len() ==> !painted@.contains(#[trigger] neighbors@[j]),
        },
{
    let mut i: usize = 0;
    while i < neighbors.len()
        invariant
            0 <= i <= neighbors.len(),
            forall|j: int| 0 <= j < i ==> !painted@.contains(#[trigger] neighbors@[j]),
        decreases neighbors.len() - i,
    {
        if holds(painted, neighbors[i]) {
            return Some(neighbors[i]);
        }
        i += 1;
    }
    None
}

/// Counts one node less for every colour but `color` that `options` holds.
fn release_others(
    max_count: &mut Vec<i64>,
    options: &HashSet<u32>,
    colors: &Vec<u32>,
    color: u32,
)
    requires
        colors@.len() == old(max_count)@.len(),
        forall|i: int| 0 <= i < colors@.len() ==> colors@[i] == i,
        forall|k: int|
            0 <= k < old(max_count)@.len() && k != color && options@.contains(k as u32)
                ==> #[trigger] old(max_count)@[k] > -0x1_0000_0000,
    ensures
        final(max_count)@.len() == old(max_count)@.len(),
        forall|k: int|
            0 <= k < old(max_count)@.len() ==> #[trigger] final(max_count)@[k] == if k != color
                && options@.contains(k as u32) {
                old(max_count)@[k] - 1
            } else {
                old(max_count)@[k] as int
            },
{
    broadcast use vstd::std_specs::hash::group_hash_axioms;

    let mut i: usize = 0;
    while i < colors.len()
        invariant
            0 <= i <= colors.len(),
            colors@.len() == max_count@.len(),
            max_count@.len() == old(max_count)@.len(),
            forall|k: int| 0 <= k < colors@.len() ==> colors@[k] == k,
            forall|k: int|
                0 <= k < old(max_count)@.len() && k != color && options@.contains(k as u32)
                    ==> #[trigger] old(max_count)@[k] > -0x1_0000_0000,
            forall|k: int|
                0 <= k < i ==> #[trigger] max_count@[k] == if k != color && options@.contains(
                    k as u32,
                ) {
                    old(max_count)@[k] - 1
                } else {
                    old(max_count)@[k] as int
                },
            forall|k: int| i <= k < max_count@.len() ==> #[trigger] max_count@[k] == old(max_count)@[k],
        decreases colors.len() - i,
    {
        let other = colors[i];
        if other != color && options.contains(&other) {
            let bound = max_count[i];
            assert(old(max_count)@[i as int] > -0x1_0000_0000);
            max_count.set(i, bound - 1);
        }
        i += 1;
    }
}

/// Takes `color` from the options of each of `neighbors`, and counts one
/// node less for it for each that held it.
fn strike(
    possible: &mut HashMap<u32, HashSet<u32>>,
    max_count: &mut Vec<i64>,
    neighbors: &Vec<u32>,
    color: u32,
)
    requires
        neighbors@.no_duplicates(),
        forall|i: int| 0 <= i < neighbors@.len() ==> old(possible)@.contains_key(#[trigger] neighbors@[i]),
        color < old(max_count)@.len(),
        old(max_count)@[color as int] - neighbors@.filter(
            |m: u32| old(possible)@[m]@.contains(color),
        ).len() >= -0x1_0000_0000,
    ensures
        final(possible)@.dom() == old(possible)@.dom(),
        forall|m: u32| #[trigger]
            old(possible)@.contains_key(m) ==> final(possible)@[m]@ == if neighbors@.contains(m) {
                old(possible)@[m]@.remove(color)
            } else {
                old(possible)@[m]@
            },
        final(max_count)@.len() == old(max_count)@.len(),
        forall|k: int|
            0 <= k < old(max_count)@.len() && k != color ==> #[trigger] final(max_count)@[k] == old(
                max_count,
            )@[k],
        final(max_count)@[color as int] == old(max_count)@[color as int] - neighbors@.filter(
            |m: u32| old(possible)@[m]@.contains(color),
        ).len(),
{
    broadcast use vstd::std_specs::hash::group_hash_axioms;

    let ghost given = possible@;
    let ghost held = |m: u32| given[m]@.contains(color);
    let mut i: usize = 0;
    while i < neighbors.len()
        invariant
            0 <= i <= neighbors.len(),
            neighbors@.no_duplicates(),
            given == old(possible)@,
            held == (|m: u32| given[m]@.contains(color)),
            forall|k: int| 0 <= k < neighbors@.len() ==> given.contains_key(#[trigger] neighbors@[k]),
            possible@.dom() == given.dom(),
            forall|m: u32| #[trigger]
                given.contains_key(m) ==> possible@[m]@ == if neighbors@.take(i as int).contains(m) {
                    given[m]@.remove(color)
                } else {
                    given[m]@
                },
            max_count@.len() == old(max_count)@.len(),
            color < max_count@.len(),
            forall|k: int|
                0 <= k < max_count@.len() && k != color ==> #[trigger] max_count@[k] == old(
                    max_count,
                )@[k],
            max_count@[color as int] == old(max_count)@[color as int] - neighbors@.take(
                i as int,
            ).filter(held).len(),
            old(max_count)@[color as int] - neighbors@.filter(held).len() >= -0x1_0000_0000,
        decreases neighbors.len() - i,
    {
        let m = neighbors[i];
        let ghost before = possible@;
        proof {
            lemma_take_step(neighbors@, i as int, m);
            if neighbors@.take(i as int).contains(m) {
                let k = choose|k: int|
                    0 <= k < neighbors@.take(i as int).len() && neighbors@.take(i as int)[k] == m;
                assert(neighbors@[k] == neighbors@[i as int]);
            }
            assert(before[m]@ == given[m]@);
            neighbors@.take(i as int).lemma_filter_push(m, held);
            neighbors@.lemma_filter_take_len(held, i + 1);
        }
        let mut options = possible.remove(&m).unwrap();
        let had = options.remove(&color);
        possible.insert(m, options);
        if had {
            let bound = max_count[color as usize];
            max_count.set(color as usize, bound - 1);
        }
        proof {
            assert(possible@.dom() =~= given.dom());
            assert forall|x: u32| #[trigger] given.contains_key(x) implies possible@[x]@
                == if neighbors@.take(i + 1).contains(x) {
                given[x]@.remove(color)
            } else {
                given[x]@
            } by {
                lemma_take_step(neighbors@, i as int, x);
                if x != m {
                    assert(possible@[x] == before[x]);
                }
            }
        }
        i += 1;
    }
    proof {
        assert(neighbors@.take(neighbors@.len() as int) =~= neighbors@);
    }
}

/// Counts one uncoloured neighbour less for each of `neighbors`.
fn count_down(adjacent: &mut HashMap<u32, usize>, neighbors: &Vec<u32>)
    requires
        neighbors@.no_duplicates(),
        forall|i: int|
            0 <= i < neighbors@.len() ==> old(adjacent)@.contains_key(#[trigger] neighbors@[i])
                && old(adjacent)@[neighbors@[i]] >= 1,
    ensures
        final(adjacent)@.dom() == old(adjacent)@.dom(),
        forall|m: u32| #[trigger]
            old(adjacent)@.contains_key(m) ==> final(adjacent)@[m] == if neighbors@.contains(m) {
                old(adjacent)@[m] - 1
            } else {
                old(adjacent)@[m] as int
            },
{
    broadcast use vstd::std_specs::hash::group_hash_axioms;

    let ghost given = adjacent@;
    let mut i: usize = 0;
    while i < neighbors.len()
        invariant
            0 <= i <= neighbors.len(),
            neighbors@.no_duplicates(),
            given == old(adjacent)@,
            forall|k: int|
                0 <= k < neighbors@.len() ==> given.contains_key(#[trigger] neighbors@[k])
                    && given[neighbors@[k]] >= 1,
            adjacent@.dom() == given.dom(),
            forall|m: u32| #[trigger]
                given.contains_key(m) ==> adjacent@[m] == if neighbors@.take(i as int).contains(m) {
                    given[m] - 1
                } else {
                    given[m] as int
                },
        decreases neighbors.len() - i,
    {
        let m = neighbors[i];
        let ghost before = adjacent@;
        proof {
            lemma_take_step(neighbors@, i as int, m);
            if neighbors@.take(i as int).contains(m) {
                let k = choose|k: int|
                    0 <= k < neighbors@.take(i as int).len() && neighbors@.take(i as int)[k] == m;
                assert(neighbors@[k] == neighbors@[i as int]);
            }
        }
        let open = *adjacent.get(&m).unwrap();
        adjacent.insert(m, open - 1);
        proof {
            assert(adjacent@.dom() =~= given.dom());
            assert forall|x: u32| #[trigger] given.contains_key(x) implies adjacent@[x]
                == if neighbors@.take(i + 1).contains(x) {
                given[x] - 1
            } else {
                given[x] as int
            } by {
                lemma_take_step(neighbors@, i as int, x);
                if x != m {
                    assert(adjacent@[x] == before[x]);
                }
            }
        }
        i += 1;
    }
    proof {
        assert(neighbors@.take(neighbors@.len() as int) =~= neighbors@);
    }
}

impl CompatibilityProblem {
    /// The conflict graph that is coloured.
    pub closed spec fn graph(&self) -> GraphView {
        self.graph@
    }

    /// The catalogue that the graph was built from.
    pub closed spec fn catalog(&self) -> Map<u32, InfusionView> {
        catalog_view(self.infusions@)
    }

    /// The state of the colouring.
    pub closed spec fn coloring(&self) -> Coloring {
        Coloring {
            uncolored: self.uncolored_nodes@,
            possible: possible_view(self.possible_colors@),
            adjacent_uncolored: counts_view(self.adjacent_uncolored@),
            usage: usage_view(self.color_usage@),
            max_count: bounds_view(self.color_max_count@),
            seeded: self.seeded as int,
        }
    }

    /// What holds of a problem whatever the state of its colouring: the
    /// graph is the conflict graph of the catalogue, over all of it.
    pub closed spec fn wf(&self) -> bool {
        &&& self.graph@.models(catalog_view(self.infusions@), self.infusions@.dom())
        &&& self.colors@.len() == self.color_usage@.len()
        &&& forall|i: int| 0 <= i < self.colors@.len() ==> self.colors@[i] == i
    }

    /// Whether `other` is the same problem, in whatever state.
    pub closed spec fn same_problem(&self, other: &Self) -> bool {
        &&& self.infusions == other.infusions
        &&& self.graph == other.graph
    }

    /// Sets up the problem of putting all infusions of `infusions` on IVs.
    pub fn new(infusions: HashMap<u32, Infusion>) -> (problem: CompatibilityProblem)
        ensures
            problem.wf(),
            problem.catalog() == catalog_view(infusions@),
            problem.graph().models(catalog_view(infusions@), infusions@.dom()),
            problem.coloring() == fresh(problem.graph()),
    {
        let universe = sorted_keys(&infusions);
        let graph = ConflictGraph::new(&infusions, &universe);
        let mut problem = CompatibilityProblem {
            infusions,
            graph,
            uncolored_nodes: Vec::new(),
            possible_colors: HashMap::new(),
            adjacent_uncolored: HashMap::new(),
            color_usage: Vec::new(),
            color_max_count: Vec::new(),
            colors: Vec::new(),
            seeded: 0,
        };
        problem.reset();
        problem
    }

    /// Forgets every colour: the state is that of a problem just set up.
    fn reset(&mut self)
        requires
            old(self).graph@.models(
                catalog_view(old(self).infusions@),
                old(self).infusions@.dom(),
            ),
        ensures
            final(self).wf(),
            final(self).same_problem(old(self)),
            final(self).coloring() == fresh(final(self).graph()),
    {
        broadcast use vstd::std_specs::hash::group_hash_axioms;

        let nodes = self.graph.nodes();
        let mut possible: HashMap<u32, HashSet<u32>> = HashMap::new();
        let mut adjacent: HashMap<u32, usize> = HashMap::new();
        let mut i: usize = 0;
        while i < nodes.len()
            invariant
                0 <= i <= nodes.len(),
                nodes@ == self.graph@.nodes,
                possible@.dom() == nodes@.take(i as int).to_set(),
                adjacent@.dom() == nodes@.take(i as int).to_set(),
                forall|n: u32| #[trigger] possible@.contains_key(n) ==> possible@[n]@ == Set::<u32>::empty(),
                forall|n: u32| #[trigger]
                    adjacent@.contains_key(n) ==> adjacent@[n] == self.graph@.neighbors(n).len(),
            decreases nodes.len() - i,
        {
            let n = nodes[i];
            possible.insert(n, HashSet::new());
            adjacent.insert(n, self.graph.degree(n));
            proof {
                assert(nodes@.take(i + 1) =~= nodes@.take(i as int).push(n));
                nodes@.take(i as int).lemma_push_to_set_commute(n);
                assert(possible@.dom() =~= nodes@.take(i + 1).to_set());
                assert(adjacent@.dom() =~= nodes@.take(i + 1).to_set());
            }
            i += 1;
        }
        proof {
            assert(nodes@.take(nodes.len() as int) =~= nodes@);
        }
        self.uncolored_nodes = nodes;
        self.possible_colors = possible;
        self.adjacent_uncolored = adjacent;
        self.color_usage = Vec::new();
        self.color_max_count = Vec::new();
        self.colors = Vec::new();
        self.seeded = 0;
        proof {
            let s = final(self).coloring();
            let f = fresh(final(self).graph());
            assert(s.possible =~~= f.possible);
            assert(s.adjacent_uncolored =~~= f.adjacent_uncolored);
            assert(s.usage =~~= f.usage);
            assert(s.max_count =~~= f.max_count);
            assert(s =~~= f);
        }
    }
    /// Sorts the waiting nodes so that the node to paint next comes last:
    /// by the number of colours a node may still take, most first, then by
    /// the number of its uncoloured neighbours, fewest first, then by id.
    fn sort_nodes(&mut self)
        requires
            old(self).wf(),
            shaped(old(self).graph(), old(self).coloring()),
        ensures
            final(self).wf(),
            final(self).same_problem(old(self)),
            arranged(old(self).coloring(), final(self).coloring().uncolored),
            final(self).coloring() == (Coloring {
                uncolored: arrange(old(self).coloring()),
                ..old(self).coloring()
            }),
    {
        let ghost s = self.coloring();
        proof {
            assert forall|i: int| 0 <= i < self.uncolored_nodes@.len() implies self.possible_colors@.contains_key(
                #[trigger] self.uncolored_nodes@[i],
            ) && self.adjacent_uncolored@.contains_key(self.uncolored_nodes@[i]) by {
                let n = s.uncolored[i];
                assert(self.graph@.nodes.contains(n));
                assert(s.possible.dom().contains(n));
                assert(s.adjacent_uncolored.dom().contains(n));
            }
        }
        sort_by_key(&mut self.uncolored_nodes, &self.possible_colors, &self.adjacent_uncolored);
        proof {
            let order = self.uncolored_nodes@;
            assert forall|i: int, j: int| 0 <= i < j < order.len() implies key_le(
                priority(s, #[trigger] order[i]),
                priority(s, #[trigger] order[j]),
            ) by {
                broadcast use vstd::seq_lib::group_to_multiset_ensures;

                let a = order[i];
                let b = order[j];
                assert(key_le(
                    sort_key(self.possible_colors@, self.adjacent_uncolored@, a),
                    sort_key(self.possible_colors@, self.adjacent_uncolored@, b),
                ));
                assert(order.to_multiset().count(a) > 0);
                assert(order.to_multiset().count(b) > 0);
                assert(s.uncolored.contains(a));
                assert(s.uncolored.contains(b));
                assert(self.graph@.nodes.contains(a));
                assert(self.graph@.nodes.contains(b));
                assert(s.possible.dom().contains(a));
                assert(s.possible.dom().contains(b));
                assert(s.adjacent_uncolored.dom().contains(a));
                assert(s.adjacent_uncolored.dom().contains(b));
            }
            assert(arranged(s, order));
            lemma_arranged_unique(s, order, arrange(s));
            assert(final(self).coloring() =~~= (Coloring { uncolored: arrange(s), ..s }));
        }
    }

    /// Picks the colour for `node`: of the colours it may take, the one
    /// that the most nodes could still end up with, and of several such the
    /// one introduced last.
    fn select_color(&self, node: u32) -> (color: u32)
        requires
            self.wf(),
            shaped(self.graph(), self.coloring()),
            self.coloring().possible.contains_key(node),
            self.coloring().possible[node].len() > 0,
        ensures
            is_best_color(self.coloring(), node, color),
            color == best_color(self.coloring(), node),
    {
        broadcast use vstd::std_specs::hash::group_hash_axioms;

        let ghost s = self.coloring();
        let node_colors = self.possible_colors.get(&node).unwrap();
        let mut pairs: Vec<(u32, i64)> = Vec::new();
        let mut i: usize = 0;
        while i < self.colors.len()
            invariant
                0 <= i <= self.colors.len(),
                self.wf(),
                s == self.coloring(),
                shaped(self.graph(), s),
                self.possible_colors@.contains_key(node),
                node_colors == self.possible_colors@[node],
                ascending_firsts(pairs@),
                forall|k: int|
                    0 <= k < pairs@.len() ==> (#[trigger] pairs@[k]).0 < i && s.lists(
                        node,
                        pairs@[k].0,
                    ) && pairs@[k].1 == s.max_count[pairs@[k].0 as int],
                forall|c: u32|
                    c < i && #[trigger] s.lists(node, c) ==> pairs@.contains(
                        (c, s.max_count[c as int] as i64),
                    ),
            decreases self.colors.len() - i,
        {
            let color = self.colors[i];
            let ghost before = pairs@;
            if node_colors.contains(&color) {
                pairs.push((color, self.color_max_count[i]));
                proof {
                    assert forall|c: u32| c < i + 1 && #[trigger] s.lists(node, c) implies pairs@.contains(
                        (c, s.max_count[c as int] as i64),
                    ) by {
                        if c < i {
                            let k = choose|k: int|
                                0 <= k < before.len() && before[k] == (
                                    c,
                                    s.max_count[c as int] as i64,
                                );
                            assert(pairs@[k] == before[k]);
                        } else {
                            assert(pairs@[before.len() as int] == (
                                c,
                                s.max_count[c as int] as i64,
                            ));
                        }
                    }
                }
            } else {
                proof {
                    assert(!s.lists(node, color));
                }
            }
            i += 1;
        }
        proof {
            assert(!s.possible[node].is_empty()) by {
                if s.possible[node].is_empty() {
                    assert(s.possible[node] =~= Set::<u32>::empty());
                }
            }
            let some = choose|c: u32| s.possible[node].contains(c);
            assert(s.lists(node, some));
            assert(pairs@.contains((some, s.max_count[some as int] as i64)));
        }
        let ghost given = pairs@;
        let sorted = sorted_by_second(pairs);
        proof {
            lemma_last_of_sorted(given, sorted@);
        }
        let best = sorted[sorted.len() - 1];
        proof {
            assert(given.contains(best));
            let k = choose|k: int| 0 <= k < given.len() && given[k] == best;
            assert(s.lists(node, given[k].0));
            assert forall|other: u32| #[trigger]
                s.lists(node, other) && other < s.max_count.len() implies s.max_count[other as int]
                < s.max_count[best.0 as int] || (s.max_count[other as int]
                == s.max_count[best.0 as int] && other <= best.0) by {
                if s.lists(node, other) && other < s.max_count.len() {
                    assert(given.contains((other, s.max_count[other as int] as i64)));
                }
            }
            assert(is_best_color(s, node, best.0));
            let chosen = best_color(s, node);
            lemma_best_color_unique(s, node, best.0, chosen);
        }
        best.0
    }

    /// Introduces a new colour for the nodes that wait, and returns it.
    fn add_new_color(&mut self) -> (color: u32)
        requires
            old(self).wf(),
            shaped(old(self).graph(), old(self).coloring()),
            old(self).coloring().usage.len() < u32::MAX,
            old(self).coloring().uncolored.len() <= 0x1_0000_0000,
        ensures
            final(self).wf(),
            final(self).same_problem(old(self)),
            color == old(self).coloring().usage.len(),
            final(self).coloring() == with_new_color(old(self).coloring()),
    {
        broadcast use vstd::std_specs::hash::group_hash_axioms;

        let ghost s = self.coloring();
        let ghost given = self.possible_colors@;
        let color = self.colors.len() as u32;
        self.colors.push(color);
        self.color_usage.push(Vec::new());
        self.color_max_count.push(self.uncolored_nodes.len() as i64);
        let ghost opened = self.coloring();
        proof {
            let w = with_new_color(s);
            assert(opened.usage =~~= w.usage);
            assert(opened.max_count =~~= w.max_count);
            assert forall|k: int| 0 <= k < s.uncolored.len() implies given.contains_key(
                #[trigger] s.uncolored[k],
            ) by {
                assert(self.graph@.nodes.contains(s.uncolored[k]));
                assert(s.possible.dom().contains(s.uncolored[k]));
            }
        }

        let mut i: usize = 0;
        while i < self.uncolored_nodes.len()
            invariant
                0 <= i <= self.uncolored_nodes.len(),
                self.uncolored_nodes@ == s.uncolored,
                s.possible == possible_view(given),
                forall|k: int|
                    0 <= k < s.uncolored.len() ==> given.contains_key(#[trigger] s.uncolored[k]),
                self.possible_colors@.dom() == given.dom(),
                forall|n: u32| #[trigger]
                    given.contains_key(n) ==> self.possible_colors@[n]@ == if s.uncolored.take(
                        i as int,
                    ).contains(n) {
                        given[n]@.insert(color)
                    } else {
                        given[n]@
                    },
                self.infusions == old(self).infusions,
                self.graph == old(self).graph,
                self.colors@ == old(self).colors@.push(color),
                self.colors@.len() == self.color_usage@.len(),
                self.coloring().usage == with_new_color(s).usage,
                self.coloring().max_count == with_new_color(s).max_count,
                self.adjacent_uncolored == old(self).adjacent_uncolored,
                self.seeded == old(self).seeded,
            decreases self.uncolored_nodes.len() - i,
        {
            let n = self.uncolored_nodes[i];
            let ghost before = self.possible_colors@;
            let mut options = self.possible_colors.remove(&n).unwrap();
            options.insert(color);
            self.possible_colors.insert(n, options);
            proof {
                assert(self.possible_colors@.dom() =~= given.dom());
                assert forall|m: u32| #[trigger] given.contains_key(m) implies self.possible_colors@[m]@
                    == if s.uncolored.take(i + 1).contains(m) {
                    given[m]@.insert(color)
                } else {
                    given[m]@
                } by {
                    lemma_take_step(s.uncolored, i as int, m);
                    if m == n {
                        assert(before[n]@.insert(color) =~= given[n]@.insert(color));
                    } else {
                        assert(self.possible_colors@[m] == before[m]);
                    }
                }
            }
            i += 1;
        }
        proof {
            assert(s.uncolored.take(s.uncolored.len() as int) =~= s.uncolored);
            let t = final(self).coloring();
            let w = with_new_color(s);
            assert(t.possible =~~= w.possible);
            assert(t.adjacent_uncolored =~~= w.adjacent_uncolored);
            assert(t =~~= w);
        }
        color
    }
    /// Paints `node` with `color`, unless a neighbour of `node` has that
    /// colour already: then nothing changes, and the two are reported.
    fn color_node(&mut self, node: u32, color: u32) -> (res: Result<(), ConflictError>)
        requires
            old(self).wf(),
            shaped(old(self).graph(), old(self).coloring()),
            old(self).graph().nodes.contains(node),
            color < old(self).coloring().usage.len(),
            clash(old(self).graph(), old(self).coloring(), node, color as int) is None ==> in_range(
                paint(old(self).graph(), old(self).coloring(), node, color as int),
            ),
        ensures
            final(self).wf(),
            final(self).same_problem(old(self)),
            final(self).coloring().uncolored == old(self).coloring().uncolored,
            forall|m: u32| #[trigger]
                old(self).coloring().adjacent_uncolored.contains_key(m)
                    ==> final(self).coloring().adjacent_uncolored[m]
                    <= old(self).coloring().adjacent_uncolored[m],
            res is Ok && valid(old(self).graph(), old(self).coloring())
                && !old(self).coloring().painted(node)
                ==> valid(old(self).graph(), final(self).coloring()),
            match res {
                Ok(()) => try_paint(old(self).graph(), old(self).coloring(), node, color as int)
                    == Ok::<Coloring, Clash>(final(self).coloring()),
                Err(e) => final(self).coloring() == old(self).coloring() && match try_paint(
                    old(self).graph(),
                    old(self).coloring(),
                    node,
                    color as int,
                ) {
                    Err(found) => e.reports(old(self).catalog(), found),
                    Ok(_) => false,
                },
            },
    {
        broadcast use vstd::std_specs::hash::group_hash_axioms;

        let ghost g = self.graph@;
        let ghost s = self.coloring();
        let ghost c = color as int;
        let ghost taken = |m: u32| s.painted_with(m, c);
        let adjacent_nodes = self.graph.neighbors(node);
        proof {
            lemma_ascending_no_duplicates(adjacent_nodes@);
            assert(g.nodes.to_set().contains(node));
            assert forall|i: int| 0 <= i < adjacent_nodes@.len() implies g.adjacent(
                node,
                #[trigger] adjacent_nodes@[i],
            ) by {}
        }
        let hit = first_taken(&adjacent_nodes, &self.color_usage[color as usize]);
        proof {
            assert(self.color_usage@[c]@ == s.usage[c]);
            assert forall|j: int| 0 <= j < adjacent_nodes@.len() implies taken(
                #[trigger] adjacent_nodes@[j],
            ) == self.color_usage@[c]@.contains(adjacent_nodes@[j]) by {}
        }
        match hit {
            Some(other) => {
                proof {
                    let i = choose|i: int|
                        0 <= i < adjacent_nodes@.len() && #[trigger] adjacent_nodes@[i] == other
                            && self.color_usage@[c]@.contains(other) && forall|j: int|
                            0 <= j < i ==> !self.color_usage@[c]@.contains(
                                #[trigger] adjacent_nodes@[j],
                            );
                    assert forall|j: int| 0 <= j < i implies !taken(#[trigger] adjacent_nodes@[j]) by {}
                    lemma_first_kept(adjacent_nodes@, taken, i);
                    assert(clash(g, s, node, c) == Some(other));
                    assert(g.adjacent(node, other));
                    assert(g.nodes.to_set().contains(other));
                }
                let name1 = self.infusions.get(&node).unwrap().name().to_owned();
                let name2 = self.infusions.get(&other).unwrap().name().to_owned();
                return Err(ConflictError { iv: color, conflicting_items: (name1, name2) });
            },
            None => {
                proof {
                    lemma_none_kept(adjacent_nodes@, taken);
                    assert(clash(g, s, node, c) is None);
                }
            },
        }
        let ghost target = paint(g, s, node, c);
        let ghost listed = |m: u32| s.lists(m, color);

        self.color_usage[color as usize].push(node);
        proof {
            assert(s.possible.dom().contains(node));
            assert forall|k: int|
                0 <= k < self.color_max_count@.len() && k != color && self.possible_colors@[node]@.contains(
                    k as u32,
                ) implies #[trigger] self.color_max_count@[k] > -0x1_0000_0000 by {
                assert(s.lists(node, k as u32));
                assert(target.max_count[k] >= -0x1_0000_0000);
            }
        }
        release_others(
            &mut self.color_max_count,
            self.possible_colors.get(&node).unwrap(),
            &self.colors,
            color,
        );
        proof {
            let options = self.possible_colors@;
            let held = |m: u32| options[m]@.contains(color);
            assert forall|i: int| 0 <= i < adjacent_nodes@.len() implies options.contains_key(
                #[trigger] adjacent_nodes@[i],
            ) by {
                assert(g.adjacent(node, adjacent_nodes@[i]));
                assert(g.nodes.to_set().contains(adjacent_nodes@[i]));
                assert(s.possible.dom().contains(adjacent_nodes@[i]));
            }
            assert forall|i: int| 0 <= i < adjacent_nodes@.len() implies held(
                #[trigger] adjacent_nodes@[i],
            ) == listed(adjacent_nodes@[i]) by {
                assert(g.adjacent(node, adjacent_nodes@[i]));
                assert(g.nodes.to_set().contains(adjacent_nodes@[i]));
                assert(s.possible.dom().contains(adjacent_nodes@[i]));
            }
            lemma_filter_agree(adjacent_nodes@, held, listed);
            assert(target.max_count[c] >= -0x1_0000_0000);
            assert(rivals(g, s, node, c) == adjacent_nodes@.filter(listed).len());
        }
        strike(&mut self.possible_colors, &mut self.color_max_count, &adjacent_nodes, color);
        proof {
            assert forall|i: int|
                0 <= i < adjacent_nodes@.len() implies self.adjacent_uncolored@.contains_key(
                #[trigger] adjacent_nodes@[i],
            ) && self.adjacent_uncolored@[adjacent_nodes@[i]] >= 1 by {
                let m = adjacent_nodes@[i];
                assert(g.adjacent(node, m));
                assert(g.nodes.to_set().contains(m));
                assert(s.adjacent_uncolored.dom().contains(m));
                assert(target.adjacent_uncolored.contains_key(m));
                assert(target.adjacent_uncolored[m] == s.adjacent_uncolored[m] - 1);
                assert(target.adjacent_uncolored[m] >= 0);
            }
        }
        count_down(&mut self.adjacent_uncolored, &adjacent_nodes);
        proof {
            let t = final(self).coloring();
            assert(t.possible =~~= target.possible) by {
                assert(t.possible.dom() =~= target.possible.dom());
                assert forall|m: u32| #[trigger] target.possible.contains_key(m) implies t.possible[m]
                    == target.possible[m] by {
                    assert(old(self).possible_colors@.contains_key(m));
                }
            }
            assert(t.adjacent_uncolored =~~= target.adjacent_uncolored);
            assert(t.usage =~~= target.usage);
            assert(t.max_count =~~= target.max_count) by {
                assert forall|k: int| 0 <= k < target.max_count.len() implies t.max_count[k]
                    == target.max_count[k] by {
                    if k != c {
                        assert(s.lists(node, k as u32) == old(self).possible_colors@[node]@.contains(
                            k as u32,
                        ));
                    }
                }
            }
            assert(t =~~= target);
            if valid(g, s) && !s.painted(node) {
                lemma_clash_free(g, s, node, c);
                lemma_paint_valid(g, s, node, c);
            }
        }
        Ok(())
    }
    /// Seeds the pre-configured IVs in their order: each gets a colour of
    /// its own, and its members are painted with it, the largest id first.
    /// A member that is no node, or that an earlier IV holds, is passed
    /// over. The first member that must be kept apart from one painted
    /// before it ends the seeding.
    fn init_coloring(&mut self, ivs: &Vec<HashSet<u32>>) -> (res: Result<(), ConflictError>)
        requires
            old(self).wf(),
            settled(old(self).graph(), old(self).coloring()),
            old(self).coloring().seeded == old(self).coloring().usage.len(),
            old(self).coloring().usage.len() + ivs@.len() <= u32::MAX,
        ensures
            final(self).wf(),
            final(self).same_problem(old(self)),
            valid(old(self).graph(), final(self).coloring()),
            res is Ok && old(self).coloring() == fresh(old(self).graph()) ==> tallied(
                final(self).coloring(),
            ),
            match res {
                Ok(()) => seed_all(old(self).graph(), old(self).coloring(), seeds_view(ivs@))
                    == Ok::<Coloring, Clash>(final(self).coloring()),
                Err(e) => match seed_all(old(self).graph(), old(self).coloring(), seeds_view(ivs@)) {
                    Err(found) => e.reports(old(self).catalog(), found),
                    Ok(_) => false,
                },
            },
    {
        broadcast use vstd::std_specs::hash::group_hash_axioms;

        let ghost g = self.graph@;
        let ghost start = self.coloring();
        let ghost seeds = seeds_view(ivs@);
        let mut i: usize = 0;
        while i < ivs.len()
            invariant
                0 <= i <= ivs.len(),
                self.wf(),
                self.same_problem(old(self)),
                g == self.graph(),
                g == old(self).graph(),
                start == old(self).coloring(),
                seeds == seeds_view(ivs@),
                settled(g, self.coloring()),
                self.coloring().seeded == self.coloring().usage.len(),
                self.coloring().usage.len() == start.usage.len() + i,
                start.usage.len() + ivs@.len() <= u32::MAX,
                seed_all(g, start, seeds.take(i as int)) == Ok::<Coloring, Clash>(self.coloring()),
            decreases ivs.len() - i,
        {
            let ghost before = self.coloring();
            let ghost members = seeds[i as int];
            let members_now = &ivs[i];
            proof {
                assert(members_now@ == members);
                lemma_seed_all_next(g, start, seeds, i as int);
                lemma_open_seed(g, before, members);
                lemma_unpainted_finite(g, before);
            }
            let color = self.add_new_color();
            self.seeded = self.colors.len();
            let ghost opened = self.coloring();
            proof {
                assert(opened =~~= open_seed(before));
            }
            let ghost c = color as int;
            let mut k: usize = self.uncolored_nodes.len();
            while k > 0
                invariant
                    0 <= k <= self.uncolored_nodes.len(),
                    self.wf(),
                    self.same_problem(old(self)),
                    g == self.graph(),
                    g == old(self).graph(),
                    start == old(self).coloring(),
                    seeds == seeds_view(ivs@),
                    members_now@ == members,
                    c == color,
                    c == before.usage.len(),
                    self.coloring().usage.len() == c + 1,
                    seeding(g, self.coloring(), members, k as int),
                    seed_members(g, opened, members, c, opened.uncolored.len()) == seed_members(
                        g,
                        self.coloring(),
                        members,
                        c,
                        k as nat,
                    ),
                    seed_all(g, start, seeds.take(i + 1)) == seed_set(g, before, members),
                    opened == open_seed(before),
                    0 <= i < seeds.len(),
                decreases k,
            {
                k -= 1;
                let node = self.uncolored_nodes[k];
                let ghost here = self.coloring();
                proof {
                    lemma_seed_step(g, here, members, k + 1);
                    assert(g.nodes.contains(here.uncolored[k as int]));
                }
                if members_now.contains(&node) {
                    proof {
                        if clash(g, here, node, c) is None {
                            lemma_paint_valid(g, here, node, c);
                        }
                    }
                    match self.color_node(node, color) {
                        Ok(()) => {},
                        Err(e) => {
                            proof {
                                let found = try_paint(g, here, node, c)->Err_0;
                                assert(try_paint(g, here, node, c) is Err);
                                assert(here.uncolored[k as int] == node);
                                assert(seed_members(g, here, members, c, (k + 1) as nat) == Err::<
                                    Coloring,
                                    Clash,
                                >(found));
                                assert(seed_set(g, before, members) == Err::<Coloring, Clash>(found));
                                lemma_seed_all_stops(g, start, seeds, i + 1);
                                assert(seed_all(g, start, seeds) == Err::<Coloring, Clash>(found));
                                assert(self.catalog() == old(self).catalog());
                            }
                            return Err(e);
                        },
                    }
                }
            }
            let ghost done = self.coloring();
            let ghost keep = |n: u32| !members.contains(n);
            let mut rest: Vec<u32> = Vec::new();
            let mut j: usize = 0;
            while j < self.uncolored_nodes.len()
                invariant
                    0 <= j <= self.uncolored_nodes.len(),
                    self.coloring() == done,
                    self.uncolored_nodes@ == done.uncolored,
                    members_now@ == members,
                    keep == (|n: u32| !members.contains(n)),
                    rest@ == done.uncolored.take(j as int).filter(keep),
                decreases self.uncolored_nodes.len() - j,
            {
                let node = self.uncolored_nodes[j];
                proof {
                    lemma_take_step(done.uncolored, j as int, node);
                    done.uncolored.take(j as int).lemma_filter_push(node, keep);
                }
                if !members_now.contains(&node) {
                    rest.push(node);
                }
                j += 1;
            }
            proof {
                assert(done.uncolored.take(done.uncolored.len() as int) =~= done.uncolored);
            }
            self.uncolored_nodes = rest;
            proof {
                let after = self.coloring();
                assert(after =~~= (Coloring { uncolored: others(done.uncolored, members), ..done }));
                lemma_seed_set(g, before, members);
                assert(seed_set(g, before, members) == Ok::<Coloring, Clash>(after));
            }
            i += 1;
        }
        proof {
            assert(seeds.take(seeds.len() as int) =~= seeds);
            if start == fresh(g) {
                lemma_seed_all_tallied(g, seeds);
            }
        }
        Ok(())
    }

    /// For each colour, the infusions painted with it, in painting order.
    fn assignment(&self) -> (ivs: HashMap<u32, Vec<&Infusion>>)
        requires
            self.wf(),
            shaped(self.graph(), self.coloring()),
        ensures
            assigns(ivs@, self.catalog(), self.coloring().usage),
    {
        broadcast use vstd::std_specs::hash::group_hash_axioms;

        let ghost usage = self.coloring().usage;
        let ghost catalog = self.catalog();
        let mut output: HashMap<u32, Vec<&Infusion>> = HashMap::new();
        let mut c: usize = 0;
        while c < self.color_usage.len()
            invariant
                0 <= c <= self.color_usage.len(),
                self.wf(),
                shaped(self.graph(), self.coloring()),
                usage == self.coloring().usage,
                catalog == self.catalog(),
                assigns(output@, catalog, usage.take(c as int)),
            decreases self.color_usage.len() - c,
        {
            let ids = &self.color_usage[c];
            let mut iv_infusions: Vec<&Infusion> = Vec::new();
            let mut i: usize = 0;
            while i < ids.len()
                invariant
                    0 <= i <= ids.len(),
                    0 <= c < self.color_usage.len(),
                    self.wf(),
                    shaped(self.graph(), self.coloring()),
                    usage == self.coloring().usage,
                    catalog == self.catalog(),
                    ids@ == usage[c as int],
                    iv_infusions@.len() == i,
                    forall|k: int|
                        0 <= k < i ==> (#[trigger] iv_infusions@[k])@ == catalog[usage[c as int][k]],
                decreases ids.len() - i,
            {
                let id = ids[i];
                proof {
                    assert(self.graph@.nodes.contains(usage[c as int][i as int]));
                    assert(self.graph@.nodes.to_set().contains(id));
                }
                let infusion = self.infusions.get(&id).unwrap();
                iv_infusions.push(infusion);
                i += 1;
            }
            let ghost before = output@;
            output.insert(self.colors[c], iv_infusions);
            proof {
                let next = usage.take(c + 1);
                let prev = usage.take(c as int);
                assert forall|k: u32| output@.contains_key(k) <==> k < next.len() by {
                    assert(before.contains_key(k) <==> k < prev.len());
                }
                assert forall|k: u32| k < next.len() implies (#[trigger] output@[k])@.len()
                    == next[k as int].len() by {
                    if k < c {
                        assert(before[k]@.len() == prev[k as int].len());
                    }
                }
                assert forall|k: u32, i: int|
                    k < next.len() && 0 <= i < next[k as int].len() implies (
                #[trigger] output@[k]@[i])@ == catalog[next[k as int][i]] by {
                    if k < c {
                        assert(before[k]@[i]@ == catalog[prev[k as int][i]]);
                    }
                }
            }
            c += 1;
        }
        proof {
            assert(usage.take(usage.len() as int) =~= usage);
        }
        output
    }

    /// The nodes that wait for a colour, in the order in which they stand.
    pub fn uncolored_nodes(&self) -> (nodes: Vec<u32>)
        ensures
            nodes@ == self.coloring().uncolored,
    {
        let mut nodes: Vec<u32> = Vec::new();
        let mut i: usize = 0;
        while i < self.uncolored_nodes.len()
            invariant
                0 <= i <= self.uncolored_nodes.len(),
                nodes@ == self.uncolored_nodes@.take(i as int),
            decreases self.uncolored_nodes.len() - i,
        {
            nodes.push(self.uncolored_nodes[i]);
            proof {
                assert(self.uncolored_nodes@.take(i + 1) =~= self.uncolored_nodes@.take(
                    i as int,
                ).push(self.uncolored_nodes@[i as int]));
            }
            i += 1;
        }
        proof {
            assert(self.uncolored_nodes@.take(self.uncolored_nodes@.len() as int)
                =~= self.uncolored_nodes@);
        }
        nodes
    }

    /// The count of a colour: how many nodes could end up with it, as far
    /// as the bookkeeping goes; it may fall below zero. Nothing for a colour
    /// that is not in use.
    pub fn color_max_count(&self, color: u32) -> (bound: Option<i64>)
        ensures
            match bound {
                Some(count) => color < self.coloring().max_count.len() && count
                    == self.coloring().max_count[color as int],
                None => color >= self.coloring().max_count.len(),
            },
    {
        if (color as usize) < self.color_max_count.len() {
            Some(self.color_max_count[color as usize])
        } else {
            None
        }
    }

    /// How many neighbours of a node have no colour yet. Nothing for an id
    /// that is no node.
    pub fn adjacent_uncolored(&self, node: u32) -> (open: Option<usize>)
        ensures
            match open {
                Some(count) => self.coloring().adjacent_uncolored.contains_key(node) && count
                    == self.coloring().adjacent_uncolored[node],
                None => !self.coloring().adjacent_uncolored.contains_key(node),
            },
    {
        broadcast use vstd::std_specs::hash::group_hash_axioms;

        match self.adjacent_uncolored.get(&node) {
            Some(count) => Some(*count),
            None => None,
        }
    }

    /// The colours in use that a node lists as possible, smallest first.
    pub fn possible_colors(&self, node: u32) -> (colors: Vec<u32>)
        requires
            self.wf(),
        ensures
            ascending(colors@),
            forall|c: u32|
                colors@.contains(c) <==> self.coloring().lists(node, c) && c
                    < self.coloring().usage.len(),
    {
        broadcast use vstd::std_specs::hash::group_hash_axioms;

        let mut colors: Vec<u32> = Vec::new();
        let options = match self.possible_colors.get(&node) {
            Some(options) => options,
            None => {
                return colors;
            },
        };
        let mut i: usize = 0;
        while i < self.colors.len()
            invariant
                0 <= i <= self.colors.len(),
                self.wf(),
                self.possible_colors@.contains_key(node),
                options == self.possible_colors@[node],
                ascending(colors@),
                forall|k: int| 0 <= k < colors@.len() ==> colors@[k] < i,
                forall|c: u32| colors@.contains(c) <==> self.coloring().lists(node, c) && c < i,
            decreases self.colors.len() - i,
        {
            let color = self.colors[i];
            let ghost before = colors@;
            if options.contains(&color) {
                colors.push(color);
                proof {
                    assert forall|c: u32|
                        colors@.contains(c) <==> self.coloring().lists(node, c) && c < i + 1 by {
                        if colors@.contains(c) {
                            let k = choose|k: int| 0 <= k < colors@.len() && colors@[k] == c;
                            if k < before.len() {
                                assert(before[k] == c);
                                assert(before.contains(c));
                            }
                        }
                        if before.contains(c) {
                            let k = choose|k: int| 0 <= k < before.len() && before[k] == c;
                            assert(colors@[k] == c);
                        }
                        if c == color {
                            assert(colors@[before.len() as int] == c);
                        }
                    }
                }
            }
            i += 1;
        }
        colors
    }

    /// The number of infusions to place.
    pub fn node_count(&self) -> (count: usize)
        requires
            self.wf(),
        ensures
            count == self.graph().nodes.len(),
    {
        self.graph.nodes().len()
    }

    /// Whether the pre-configured IVs are as `solve` expects them: every
    /// member is an infusion of the problem, and none belongs to two IVs.
    pub fn seeds_valid(&self, ivs: &Vec<HashSet<u32>>) -> (valid: bool)
        requires
            self.wf(),
        ensures
            valid == seeds_valid(self.graph(), seeds_view(ivs@)),
    {
        broadcast use vstd::std_specs::hash::group_hash_axioms;

        let ghost g = self.graph@;
        let ghost seeds = seeds_view(ivs@);
        let mut i: usize = 0;
        while i < ivs.len()
            invariant
                0 <= i <= ivs.len(),
                self.wf(),
                g == self.graph(),
                seeds == seeds_view(ivs@),
                seeds_valid(g, seeds.take(i as int)),
            decreases ivs.len() - i,
        {
            let ghost members = seeds[i as int];
            let members_now = &ivs[i];
            let ghost all = members_now.iter().remaining();
            let ghost mut count: int = 0;
            for x in it: members_now.iter()
                invariant
                    it.seq() == all,
                    count == it.index(),
                    0 <= i < ivs.len(),
                    self.wf(),
                    g == self.graph(),
                    seeds == seeds_view(ivs@),
                    members == seeds[i as int],
                    all.unref().to_set() == members,
                    seeds_valid(g, seeds.take(i as int)),
                    forall|k: int|
                        0 <= k < count ==> g.nodes.contains(*#[trigger] all[k]) && forall|j: int|
                            0 <= j < i ==> !(#[trigger] seeds[j]).contains(*all[k]),
            {
                let id = *x;
                proof {
                    assert(all.unref()[count] == id);
                    assert(all.unref().to_set().contains(id));
                    assert(seeds[i as int].contains(id));
                }
                if !self.infusions.contains_key(&id) {
                    proof {
                        assert(!g.nodes.to_set().contains(id));
                        assert(!g.nodes.contains(id));
                    }
                    return false;
                }
                let mut j: usize = 0;
                while j < i
                    invariant
                        0 <= j <= i,
                        0 <= i < ivs.len(),
                        seeds == seeds_view(ivs@),
                        seeds[i as int].contains(id),
                        forall|l: int| 0 <= l < j ==> !(#[trigger] seeds[l]).contains(id),
                    decreases i - j,
                {
                    if ivs[j].contains(&id) {
                        proof {
                            assert(seeds[j as int].contains(id));
                        }
                        return false;
                    }
                    j += 1;
                }
                proof {
                    assert(g.nodes.to_set().contains(id));
                    count = count + 1;
                }
            }
            proof {
                assert(count == all.len());
                let next = seeds.take(i + 1);
                assert forall|a: int, y: u32| 0 <= a < next.len() && #[trigger] next[a].contains(
                    y,
                ) implies g.nodes.contains(y) by {
                    if a < i {
                        assert(seeds.take(i as int)[a].contains(y));
                    } else {
                        assert(all.unref().to_set().contains(y));
                        let k = choose|k: int| 0 <= k < all.unref().len() && all.unref()[k] == y;
                        assert(g.nodes.contains(*all[k]));
                    }
                }
                assert forall|a: int, b: int, y: u32|
                    0 <= b < a < next.len() && #[trigger] next[a].contains(
                        y,
                    ) implies !#[trigger] next[b].contains(y) by {
                    if a < i {
                        assert(seeds.take(i as int)[a].contains(y));
                        assert(!seeds.take(i as int)[b].contains(y));
                    } else {
                        assert(all.unref().to_set().contains(y));
                        let k = choose|k: int| 0 <= k < all.unref().len() && all.unref()[k] == y;
                        assert(!seeds[b].contains(*all[k]));
                    }
                }
            }
            i += 1;
        }
        proof {
            assert(seeds.take(seeds.len() as int) =~= seeds);
        }
        true
    }

    /// Puts every infusion on an IV so that no two on one IV must be kept
    /// apart. `ivs` holds the pre-configured IVs: colour `i` of the result
    /// is the IV `ivs[i]`, and holds its members; the colours after them
    /// are IVs to add. If two members of a pre-configured IV must be kept
    /// apart, they are reported, with the number of the IV.
    pub fn solve(&mut self, ivs: Vec<HashSet<u32>>) -> (res: Result<
        HashMap<u32, Vec<&Infusion>>,
        ConflictError,
    >)
        requires
            old(self).wf(),
            ivs@.len() + old(self).graph().nodes.len() <= u32::MAX,
        ensures
            final(self).wf(),
            final(self).same_problem(old(self)),
            valid(old(self).graph(), final(self).coloring()),
            res is Ok ==> final(self).coloring().uncolored.len() == 0,
            res is Ok <==> roomy(old(self).graph(), seeds_view(ivs@)),
            match res {
                Ok(assignment) => match solution(old(self).graph(), seeds_view(ivs@)) {
                    Ok(usage) => {
                        &&& assigns(assignment@, old(self).catalog(), usage)
                        &&& usage == final(self).coloring().usage
                        &&& colors_all(old(self).graph(), usage)
                        &&& colors_properly(old(self).graph(), usage)
                        &&& keeps_seeds(old(self).graph(), seeds_view(ivs@), usage)
                    },
                    Err(_) => false,
                },
                Err(e) => match solution(old(self).graph(), seeds_view(ivs@)) {
                    Ok(_) => false,
                    Err(found) => e.reports(old(self).catalog(), found) && refuses(
                        old(self).graph(),
                        seeds_view(ivs@),
                        found,
                    ),
                },
            },
    {
        broadcast use vstd::std_specs::hash::group_hash_axioms;

        self.reset();
        let ghost g = self.graph@;
        let ghost seeds = seeds_view(ivs@);
        proof {
            lemma_fresh_settled(g);
            law_solution(g, seeds);
        }
        match self.init_coloring(&ivs) {
            Ok(()) => {},
            Err(e) => {
                return Err(e);
            },
        }
        let ghost seeded = self.coloring();
        proof {
            lemma_seed_all(g, seeds);
        }
        while self.uncolored_nodes.len() > 0
            invariant
                self.wf(),
                self.same_problem(old(self)),
                g == self.graph(),
                settled(g, self.coloring()),
                self.coloring().usage.len() + self.coloring().uncolored.len() <= u32::MAX,
                run(g, seeded, seeded.uncolored.len()) == run(
                    g,
                    self.coloring(),
                    self.coloring().uncolored.len(),
                ),
            decreases self.uncolored_nodes.len(),
        {
            let ghost before = self.coloring();
            proof {
                lemma_round(g, before);
                lemma_step(g, before);
                lemma_run_unfold(g, before, before.uncolored.len());
            }
            self.sort_nodes();
            let node = self.uncolored_nodes.pop().unwrap();
            proof {
                assert(self.coloring() =~~= taken(before));
                assert(g.nodes.to_set().contains(node));
                lemma_unpainted_finite(g, before);
            }
            let color = if self.possible_colors.get(&node).unwrap().len() == 0 {
                self.add_new_color()
            } else {
                self.select_color(node)
            };
            proof {
                let here = self.coloring();
                lemma_paint_valid(g, here, node, color as int);
                lemma_clash_free(g, here, node, color as int);
            }
            match self.color_node(node, color) {
                Ok(()) => {},
                Err(e) => {
                    proof {
                        assert(false);
                    }
                    return Err(e);
                },
            }
            proof {
                assert(self.coloring() == step(g, before));
            }
        }
        proof {
            lemma_run_unfold(g, self.coloring(), 0);
        }
        Ok(self.assignment())
    }
}

/// The last of the sorted pairs is one of the given pairs, no given pair has
/// a larger second component, and of those with the same second component
/// none has a larger first.
proof fn lemma_last_of_sorted(given: Seq<(u32, i64)>, sorted: Seq<(u32, i64)>)
    requires
        given.len() > 0,
        ascending_firsts(given),
        forall|i: int, j: int| 0 <= i < j < sorted.len() ==> sorted[i].1 <= sorted[j].1,
        forall|key: i64| #[trigger] with_key(sorted, key) == with_key(given, key),
    ensures
        sorted.len() > 0,
        given.contains(sorted.last()),
        forall|p: (u32, i64)| #[trigger]
            given.contains(p) ==> p.1 < sorted.last().1 || (p.1 == sorted.last().1 && p.0
                <= sorted.last().0),
{
    broadcast use vstd::seq_lib::group_filter_ensures;

    let witness = given[0];
    let same = |p: (u32, i64)| p.1 == witness.1;
    assert(same(given[0]));
    assert(given.filter(same).contains(given[0]));
    assert(with_key(sorted, witness.1) == with_key(given, witness.1));
    assert(sorted.filter(same).len() > 0);
    sorted.lemma_filter_len(same);
    let last = sorted.last();
    let top = |p: (u32, i64)| p.1 == last.1;
    assert(with_key(sorted, last.1) == with_key(given, last.1));
    assert(sorted.filter(top).last() == last) by {
        reveal(Seq::filter);
    }
    assert(sorted.filter(top).contains(last));
    given.lemma_filter_contains_rev(top, last);
    lemma_filter_ascending_firsts(given, top);
    assert forall|p: (u32, i64)| #[trigger] given.contains(p) implies p.1 < last.1 || (p.1
        == last.1 && p.0 <= last.0) by {
        let k = choose|k: int| 0 <= k < given.len() && given[k] == p;
        let mine = |q: (u32, i64)| q.1 == p.1;
        assert(mine(given[k]));
        assert(given.filter(mine).contains(given[k]));
        assert(with_key(sorted, p.1) == with_key(given, p.1));
        sorted.lemma_filter_contains_rev(mine, p);
        let at = choose|at: int| 0 <= at < sorted.len() && sorted[at] == p;
        if at < sorted.len() - 1 {
            assert(sorted[at].1 <= sorted[sorted.len() - 1].1);
        }
        if p.1 == last.1 {
            assert(top(given[k]));
            assert(given.filter(top).contains(given[k]));
            let kept = given.filter(top);
            let pos = choose|pos: int| 0 <= pos < kept.len() && kept[pos] == p;
            if pos < kept.len() - 1 {
                assert(kept[pos].0 < kept[kept.len() - 1].0);
            }
        }
    }
}

} // verus!
