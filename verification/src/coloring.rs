use crate::graph::GraphView;
use vstd::prelude::*;
use vstd::relations::antisymmetric;
use vstd::relations::reflexive;
use vstd::relations::sorted_by;
use vstd::relations::strongly_connected;
use vstd::relations::total_ordering;
use vstd::relations::transitive;

verus! {

/// The state of a colouring in progress, as the contracts see it. Colours
/// are the numbers `0 .. usage.len()`.
#[verifier::ext_equal]
pub struct Coloring {
    /// The nodes still waiting for a colour.
    pub uncolored: Seq<u32>,
    /// For each node, the colours it lists as possible. A node that is
    /// painted keeps what it listed, but for what its neighbours take.
    pub possible: Map<u32, Set<u32>>,
    /// For each node, how many of its neighbours have no colour yet.
    pub adjacent_uncolored: Map<u32, int>,
    /// For each colour, the nodes painted with it, in painting order.
    pub usage: Seq<Seq<u32>>,
    /// For each colour, the count of how many nodes could end up with it.
    /// It may fall below zero.
    pub max_count: Seq<int>,
    /// How many of the colours stand for a pre-configured IV.
    pub seeded: int,
}

/// Two nodes that were put on one IV although they must be kept apart.
pub struct Clash {
    pub iv: int,
    pub node: u32,
    pub other: u32,
}

impl Coloring {
    /// Whether node `n` is painted with colour `c`.
    pub open spec fn painted_with(self, n: u32, c: int) -> bool {
        0 <= c < self.usage.len() && self.usage[c].contains(n)
    }

    /// Whether node `n` has a colour.
    pub open spec fn painted(self, n: u32) -> bool {
        exists|c: int| self.painted_with(n, c)
    }

    /// Whether node `n` still lists colour `c` as possible.
    pub open spec fn lists(self, n: u32, c: u32) -> bool {
        self.possible.contains_key(n) && self.possible[n].contains(c)
    }

    /// The nodes that still list colour `c`.
    pub open spec fn candidates(self, c: u32) -> Set<u32> {
        Set::new(|n: u32| self.lists(n, c))
    }
}

/// The state before anything is painted: every node waits, lists no
/// colour, and has all its neighbours uncoloured.
pub open spec fn fresh(g: GraphView) -> Coloring {
    Coloring {
        uncolored: g.nodes,
        possible: Map::new(|n: u32| g.nodes.contains(n), |n: u32| Set::<u32>::empty()),
        adjacent_uncolored: Map::new(
            |n: u32| g.nodes.contains(n),
            |n: u32| g.neighbors(n).len() as int,
        ),
        usage: Seq::empty(),
        max_count: Seq::empty(),
        seeded: 0,
    }
}

/// Introduces the next colour: nothing is painted with it, every waiting
/// node may take it, and as many nodes as wait could end up with it.
pub open spec fn with_new_color(s: Coloring) -> Coloring {
    let c = s.usage.len() as u32;
    Coloring {
        possible: Map::new(
            |n: u32| s.possible.contains_key(n),
            |n: u32|
                if s.uncolored.contains(n) {
                    s.possible[n].insert(c)
                } else {
                    s.possible[n]
                },
        ),
        usage: s.usage.push(Seq::empty()),
        max_count: s.max_count.push(s.uncolored.len() as int),
        ..s
    }
}

/// The first neighbour of `n`, if any, that is already painted `c`.
pub open spec fn clash(g: GraphView, s: Coloring, n: u32, c: int) -> Option<u32> {
    let taken = g.neighbors(n).filter(|m: u32| s.painted_with(m, c));
    if taken.len() > 0 {
        Some(taken[0])
    } else {
        None
    }
}

/// How many neighbours of `n` still list colour `c`.
pub open spec fn rivals(g: GraphView, s: Coloring, n: u32, c: int) -> int {
    g.neighbors(n).filter(|m: u32| s.lists(m, c as u32)).len() as int
}

/// The state after node `n` was painted `c`: `n` joins the colour, every
/// other colour that `n` lists could end up with one node less, each
/// neighbour gives up `c`, and each neighbour has one uncoloured neighbour
/// less. What `n` itself lists stays as it is.
pub open spec fn paint(g: GraphView, s: Coloring, n: u32, c: int) -> Coloring {
    Coloring {
        uncolored: s.uncolored,
        possible: Map::new(
            |m: u32| s.possible.contains_key(m),
            |m: u32|
                if g.adjacent(n, m) {
                    s.possible[m].remove(c as u32)
                } else {
                    s.possible[m]
                },
        ),
        adjacent_uncolored: Map::new(
            |m: u32| s.adjacent_uncolored.contains_key(m),
            |m: u32|
                if g.adjacent(n, m) {
                    s.adjacent_uncolored[m] - 1
                } else {
                    s.adjacent_uncolored[m]
                },
        ),
        usage: s.usage.update(c, s.usage[c].push(n)),
        max_count: Seq::new(
            s.max_count.len(),
            |k: int|
                if k == c {
                    s.max_count[k] - rivals(g, s, n, c)
                } else if s.lists(n, k as u32) {
                    s.max_count[k] - 1
                } else {
                    s.max_count[k]
                },
        ),
        seeded: s.seeded,
    }
}

/// Painting node `n` with colour `c`, refused when a neighbour of `n` has
/// that colour already.
pub open spec fn try_paint(g: GraphView, s: Coloring, n: u32, c: int) -> Result<Coloring, Clash> {
    match clash(g, s, n, c) {
        Some(m) => Err(Clash { iv: c, node: n, other: m }),
        None => Ok(paint(g, s, n, c)),
    }
}

/// Paints with colour `c` those of the first `k` waiting nodes that belong
/// to `members`, the last of them first, and stops at the first refusal.
pub open spec fn seed_members(
    g: GraphView,
    s: Coloring,
    members: Set<u32>,
    c: int,
    k: nat,
) -> Result<Coloring, Clash>
    decreases k,
{
    if k == 0 {
        Ok(s)
    } else {
        let n = s.uncolored[k - 1];
        if members.contains(n) {
            match try_paint(g, s, n, c) {
                Err(e) => Err(e),
                Ok(next) => seed_members(g, next, members, c, (k - 1) as nat),
            }
        } else {
            seed_members(g, s, members, c, (k - 1) as nat)
        }
    }
}

/// Introduces the colour of the next pre-configured IV.
pub open spec fn open_seed(s: Coloring) -> Coloring {
    Coloring { seeded: s.usage.len() as int + 1, ..with_new_color(s) }
}

/// The waiting nodes that are not among `members`, in their order.
pub open spec fn others(waiting: Seq<u32>, members: Set<u32>) -> Seq<u32> {
    waiting.filter(|n: u32| !members.contains(n))
}

/// Seeds one pre-configured IV: a new colour is introduced, the members
/// that wait are painted with it, and then they wait no longer.
pub open spec fn seed_set(g: GraphView, s: Coloring, members: Set<u32>) -> Result<Coloring, Clash> {
    let c = s.usage.len() as int;
    let opened = open_seed(s);
    match seed_members(g, opened, members, c, opened.uncolored.len()) {
        Err(e) => Err(e),
        Ok(done) => Ok(Coloring { uncolored: others(done.uncolored, members), ..done }),
    }
}

/// Seeds the pre-configured IVs in their order, and stops at the first
/// refusal.
pub open spec fn seed_all(g: GraphView, s: Coloring, seeds: Seq<Set<u32>>) -> Result<
    Coloring,
    Clash,
>
    decreases seeds.len(),
{
    if seeds.len() == 0 {
        Ok(s)
    } else {
        match seed_all(g, s, seeds.drop_last()) {
            Err(e) => Err(e),
            Ok(before) => seed_set(g, before, seeds.last()),
        }
    }
}

/// The key by which waiting nodes are ordered: more options first, then
/// fewer uncoloured neighbours, then the smaller id.
pub open spec fn priority(s: Coloring, n: u32) -> (int, int, int) {
    (-(s.possible[n].len() as int), s.adjacent_uncolored[n], n as int)
}

/// The order of keys: by the first component, then the second, then the
/// third.
pub open spec fn key_le(a: (int, int, int), b: (int, int, int)) -> bool {
    a.0 < b.0 || (a.0 == b.0 && (a.1 < b.1 || (a.1 == b.1 && a.2 <= b.2)))
}

/// Whether `order` holds the waiting nodes of `s` by ascending key.
pub open spec fn arranged(s: Coloring, order: Seq<u32>) -> bool {
    &&& order.to_multiset() == s.uncolored.to_multiset()
    &&& forall|i: int, j: int|
        0 <= i < j < order.len() ==> key_le(
            priority(s, #[trigger] order[i]),
            priority(s, #[trigger] order[j]),
        )
}

/// The waiting nodes of `s` by ascending key.
pub open spec fn arrange(s: Coloring) -> Seq<u32> {
    choose|order: Seq<u32>| arranged(s, order)
}

/// Whether `c` is the colour to give node `n`: of the colours that `n`
/// lists, the one with the largest bound, and of several such the largest.
pub open spec fn is_best_color(s: Coloring, n: u32, c: u32) -> bool {
    &&& s.lists(n, c)
    &&& c < s.max_count.len()
    &&& forall|other: u32| #[trigger]
        s.lists(n, other) && other < s.max_count.len() ==> s.max_count[other as int]
            < s.max_count[c as int] || (s.max_count[other as int] == s.max_count[c as int] && other
            <= c)
}

/// The colour to give node `n`.
pub open spec fn best_color(s: Coloring, n: u32) -> u32 {
    choose|c: u32| is_best_color(s, n, c)
}

/// One round of the main loop: the waiting node with the largest key is
/// taken, and painted with its best colour, or with a new one if it lists
/// none.
pub open spec fn step(g: GraphView, s: Coloring) -> Coloring {
    let order = arrange(s);
    let n = order.last();
    let taken = Coloring { uncolored: order.drop_last(), ..s };
    if taken.possible[n].len() == 0 {
        paint(g, with_new_color(taken), n, taken.usage.len() as int)
    } else {
        paint(g, taken, n, best_color(taken, n) as int)
    }
}

/// `rounds` rounds of the main loop.
pub open spec fn run(g: GraphView, s: Coloring, rounds: nat) -> Coloring
    decreases rounds,
{
    if rounds == 0 {
        s
    } else {
        run(g, step(g, s), (rounds - 1) as nat)
    }
}

/// What solving yields on graph `g` with the pre-configured IVs `seeds`:
/// for each colour the nodes painted with it, or the first refusal.
pub open spec fn solution(g: GraphView, seeds: Seq<Set<u32>>) -> Result<Seq<Seq<u32>>, Clash> {
    match seed_all(g, fresh(g), seeds) {
        Err(e) => Err(e),
        Ok(seeded) => Ok(run(g, seeded, seeded.uncolored.len()).usage),
    }
}

/// What holds of the shape of a colouring on graph `g`, whatever has been
/// painted: it speaks of the nodes of `g` and of the colours in use, and
/// no node waits twice.
pub open spec fn shaped(g: GraphView, s: Coloring) -> bool {
    &&& g.wf()
    &&& s.possible.dom() == g.nodes.to_set()
    &&& s.adjacent_uncolored.dom() == g.nodes.to_set()
    &&& s.max_count.len() == s.usage.len()
    &&& 0 <= s.seeded <= s.usage.len()
    &&& s.usage.len() <= 0x1_0000_0000
    &&& s.uncolored.no_duplicates()
    &&& s.uncolored.len() <= g.nodes.len()
    &&& forall|i: int| 0 <= i < s.uncolored.len() ==> g.nodes.contains(#[trigger] s.uncolored[i])
    &&& forall|n: u32| #[trigger] s.possible.contains_key(n) ==> s.possible[n].finite()
    &&& forall|n: u32, c: u32| #[trigger] s.lists(n, c) ==> c < s.usage.len()
    &&& forall|c: int, i: int|
        0 <= c < s.usage.len() && 0 <= i < s.usage[c].len() ==> g.nodes.contains(
            #[trigger] s.usage[c][i],
        )
}

/// Every counter of the colouring is in the range that the machine holds:
/// no bound has fallen below minus the number of ids there are, and no
/// count of neighbours below zero.
pub open spec fn in_range(s: Coloring) -> bool {
    &&& forall|k: int| 0 <= k < s.max_count.len() ==> #[trigger] s.max_count[k] >= -0x1_0000_0000
    &&& forall|n: u32| #[trigger]
        s.adjacent_uncolored.contains_key(n) ==> s.adjacent_uncolored[n] >= 0
}

/// The order of the waiting nodes by key is fixed by the state: no two
/// nodes have the same key.
pub proof fn lemma_arranged_unique(s: Coloring, first: Seq<u32>, second: Seq<u32>)
    requires
        arranged(s, first),
        arranged(s, second),
    ensures
        first == second,
{
    let leq = |a: u32, b: u32| key_le(priority(s, a), priority(s, b));
    assert(total_ordering(leq)) by {
        assert(reflexive(leq));
        assert(antisymmetric(leq));
        assert(transitive(leq));
        assert(strongly_connected(leq));
    }
    assert(sorted_by(first, leq));
    assert(sorted_by(second, leq));
    vstd::seq_lib::lemma_sorted_unique(first, second, leq);
}

/// The best colour of a node is fixed by the state.
pub proof fn lemma_best_color_unique(s: Coloring, n: u32, first: u32, second: u32)
    requires
        is_best_color(s, n, first),
        is_best_color(s, n, second),
    ensures
        first == second,
{
}

/// The members of the pre-configured IV `i` that seeding paints: those
/// that are nodes and belong to no IV before it.
pub open spec fn effective(g: GraphView, seeds: Seq<Set<u32>>, i: int) -> Set<u32> {
    Set::new(
        |x: u32|
            seeds[i].contains(x) && g.nodes.contains(x) && forall|j: int|
                0 <= j < i ==> !(#[trigger] seeds[j]).contains(x),
    )
}

/// Two of `members` must be kept apart.
pub open spec fn cramped(g: GraphView, members: Set<u32>) -> bool {
    exists|a: u32, b: u32| members.contains(a) && members.contains(b) && #[trigger] g.adjacent(a, b)
}

/// What is asked of the pre-configured IVs: every member is a node, and
/// none belongs to two of them.
pub open spec fn seeds_valid(g: GraphView, seeds: Seq<Set<u32>>) -> bool {
    &&& forall|i: int, x: u32|
        0 <= i < seeds.len() && #[trigger] seeds[i].contains(x) ==> g.nodes.contains(x)
    &&& forall|i: int, j: int, x: u32|
        0 <= j < i < seeds.len() && #[trigger] seeds[i].contains(x) ==> !#[trigger] seeds[j].contains(
            x,
        )
}

/// Every node of `g` has exactly one colour of `usage`, and nothing else
/// has one.
pub open spec fn colors_all(g: GraphView, usage: Seq<Seq<u32>>) -> bool {
    &&& forall|n: u32| #[trigger]
        g.nodes.contains(n) ==> exists|c: int| 0 <= c < usage.len() && (#[trigger] usage[c]).contains(n)
    &&& forall|c: int, i: int|
        0 <= c < usage.len() && 0 <= i < usage[c].len() ==> g.nodes.contains(#[trigger] usage[c][i])
    &&& forall|c: int| 0 <= c < usage.len() ==> (#[trigger] usage[c]).no_duplicates()
    &&& forall|n: u32, c: int, d: int|
        0 <= c < usage.len() && 0 <= d < usage.len() && #[trigger] usage[c].contains(n)
            && #[trigger] usage[d].contains(n) ==> c == d
}

/// No two nodes that share a colour of `usage` are adjacent in `g`.
pub open spec fn colors_properly(g: GraphView, usage: Seq<Seq<u32>>) -> bool {
    forall|c: int, a: u32, b: u32|
        0 <= c < usage.len() && (#[trigger] usage[c]).contains(a) && usage[c].contains(b)
            ==> !#[trigger] g.adjacent(a, b)
}

/// Each pre-configured IV has its colour in `usage`, which holds those of
/// its members that are nodes and belong to no IV before it; and every
/// colour after those is in use.
pub open spec fn keeps_seeds(g: GraphView, seeds: Seq<Set<u32>>, usage: Seq<Seq<u32>>) -> bool {
    &&& seeds.len() <= usage.len()
    &&& forall|i: int, x: u32|
        0 <= i < seeds.len() && #[trigger] effective(g, seeds, i).contains(x) ==> usage[i].contains(
            x,
        )
    &&& forall|c: int| seeds.len() <= c < usage.len() ==> (#[trigger] usage[c]).len() > 0
}

/// Whether `e` is the refusal that the pre-configured IVs call for: it
/// names the first of them of whose members two must be kept apart, and
/// two such members.
pub open spec fn refuses(g: GraphView, seeds: Seq<Set<u32>>, e: Clash) -> bool {
    &&& 0 <= e.iv < seeds.len()
    &&& effective(g, seeds, e.iv).contains(e.node)
    &&& effective(g, seeds, e.iv).contains(e.other)
    &&& g.adjacent(e.node, e.other)
    &&& forall|i: int| 0 <= i < e.iv ==> !cramped(g, #[trigger] effective(g, seeds, i))
}

/// No pre-configured IV has two members that must be kept apart.
pub open spec fn roomy(g: GraphView, seeds: Seq<Set<u32>>) -> bool {
    forall|i: int| 0 <= i < seeds.len() ==> !cramped(g, #[trigger] effective(g, seeds, i))
}

} // verus!
