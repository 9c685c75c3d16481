use crate::coloring::arrange;
use crate::coloring::arranged;
use crate::coloring::best_color;
use crate::coloring::clash;
use crate::coloring::Coloring;
use crate::coloring::cramped;
use crate::coloring::effective;
use crate::coloring::fresh;
use crate::coloring::in_range;
use crate::coloring::is_best_color;
use crate::coloring::key_le;
use crate::coloring::open_seed;
use crate::coloring::others;
use crate::coloring::paint;
use crate::coloring::priority;
use crate::coloring::rivals;
use crate::coloring::run;
use crate::coloring::seed_all;
use crate::coloring::seed_members;
use crate::coloring::seed_set;
use crate::coloring::shaped;
use crate::coloring::step;
use crate::coloring::with_new_color;
use crate::graph::GraphView;
use crate::order::ascending;
use crate::order::lemma_ascending_len;
use crate::order::lemma_ascending_no_duplicates;
use crate::order::lemma_filter_holds;
use crate::order::lemma_filter_len_as_set;
use crate::order::lemma_filter_no_duplicates;
use vstd::prelude::*;
use vstd::relations::antisymmetric;
use vstd::relations::reflexive;
use vstd::relations::strongly_connected;
use vstd::relations::total_ordering;
use vstd::relations::transitive;
use vstd::set_lib::lemma_set_subset_finite;

verus! {

/// The nodes that have no colour yet.
pub open spec fn unpainted(g: GraphView, s: Coloring) -> Set<u32> {
    Set::new(|n: u32| g.nodes.contains(n) && !s.painted(n))
}

/// The neighbours of `n` that have no colour yet.
pub open spec fn open_neighbors(g: GraphView, s: Coloring, n: u32) -> Set<u32> {
    Set::new(|m: u32| g.adjacent(n, m) && !s.painted(m))
}

/// Whether no neighbour of `n` is painted `c`.
pub open spec fn free(g: GraphView, s: Coloring, n: u32, c: int) -> bool {
    forall|m: u32| #[trigger] g.adjacent(n, m) ==> !s.painted_with(m, c)
}

/// No node is painted twice.
pub open spec fn painted_once(s: Coloring) -> bool {
    &&& forall|c: int| 0 <= c < s.usage.len() ==> (#[trigger] s.usage[c]).no_duplicates()
    &&& forall|n: u32, c1: int, c2: int|
        #[trigger] s.painted_with(n, c1) && #[trigger] s.painted_with(n, c2) ==> c1 == c2
}

/// No two adjacent nodes share a colour.
pub open spec fn proper(g: GraphView, s: Coloring) -> bool {
    forall|a: u32, b: u32, c: int|
        #[trigger] s.painted_with(a, c) && #[trigger] s.painted_with(b, c) ==> !g.adjacent(a, b)
}

/// A colour that a node lists is the colour of none of its neighbours.
pub open spec fn sound(g: GraphView, s: Coloring) -> bool {
    forall|n: u32, m: u32, c: u32|
        #[trigger] s.lists(n, c) && #[trigger] g.adjacent(n, m) ==> !s.painted_with(m, c as int)
}

/// A waiting node without a colour lists every colour in use that none of
/// its neighbours has.
pub open spec fn complete(g: GraphView, s: Coloring) -> bool {
    forall|i: int, c: int|
        0 <= i < s.uncolored.len() && 0 <= c < s.usage.len() && !s.painted(s.uncolored[i])
            && free(g, s, s.uncolored[i], c) ==> #[trigger] s.lists(s.uncolored[i], c as u32)
}

/// The count of a colour is no more than the number of nodes that list
/// it, and falls short of that number by no more than the number of nodes
/// that have a colour.
pub open spec fn bounded(g: GraphView, s: Coloring) -> bool {
    forall|c: int|
        0 <= c < s.usage.len() ==> #[trigger] s.max_count[c] <= s.candidates(c as u32).len()
            && s.max_count[c] - s.candidates(c as u32).len() >= unpainted(g, s).len()
            - g.nodes.len()
}

/// Each node's counter is the number of its neighbours without a colour.
pub open spec fn degrees(g: GraphView, s: Coloring) -> bool {
    forall|n: u32| #[trigger]
        g.nodes.contains(n) ==> s.adjacent_uncolored[n] == open_neighbors(g, s, n).len()
}

/// What holds of a colouring on graph `g` at every moment of solving.
pub open spec fn valid(g: GraphView, s: Coloring) -> bool {
    &&& shaped(g, s)
    &&& painted_once(s)
    &&& proper(g, s)
    &&& sound(g, s)
    &&& complete(g, s)
    &&& bounded(g, s)
    &&& degrees(g, s)
}

/// What holds of a colouring between two rounds: besides, the waiting
/// nodes are the nodes without a colour, and every colour that stands for
/// no pre-configured IV is in use.
pub open spec fn settled(g: GraphView, s: Coloring) -> bool {
    &&& valid(g, s)
    &&& forall|i: int| 0 <= i < s.uncolored.len() ==> !s.painted(#[trigger] s.uncolored[i])
    &&& forall|n: u32| #[trigger] g.nodes.contains(n) && !s.painted(n) ==> s.uncolored.contains(n)
    &&& forall|c: int| s.seeded <= c < s.usage.len() ==> (#[trigger] s.usage[c]).len() > 0
}

pub proof fn lemma_candidates_finite(g: GraphView, s: Coloring, c: u32)
    requires
        shaped(g, s),
    ensures
        s.candidates(c).finite(),
        s.candidates(c).subset_of(g.nodes.to_set()),
{
    vstd::seq_lib::seq_to_set_is_finite(g.nodes);
    assert(s.candidates(c).subset_of(g.nodes.to_set())) by {
        assert forall|n: u32| s.candidates(c).contains(n) implies g.nodes.to_set().contains(n) by {
            assert(s.possible.dom().contains(n));
        }
    }
    lemma_set_subset_finite(g.nodes.to_set(), s.candidates(c));
}

pub proof fn lemma_open_neighbors_finite(g: GraphView, s: Coloring, n: u32)
    ensures
        open_neighbors(g, s, n).finite(),
        open_neighbors(g, s, n).subset_of(g.neighbors(n).to_set()),
{
    vstd::seq_lib::seq_to_set_is_finite(g.neighbors(n));
    assert(open_neighbors(g, s, n).subset_of(g.neighbors(n).to_set()));
    lemma_set_subset_finite(g.neighbors(n).to_set(), open_neighbors(g, s, n));
}

pub proof fn lemma_unpainted_finite(g: GraphView, s: Coloring)
    requires
        g.wf(),
    ensures
        unpainted(g, s).finite(),
        unpainted(g, s).len() <= g.nodes.len(),
        g.nodes.len() <= 0x1_0000_0000,
{
    vstd::seq_lib::seq_to_set_is_finite(g.nodes);
    lemma_ascending_no_duplicates(g.nodes);
    g.nodes.unique_seq_to_set();
    assert(unpainted(g, s).subset_of(g.nodes.to_set()));
    vstd::set_lib::lemma_len_subset(unpainted(g, s), g.nodes.to_set());
    lemma_ascending_len(g.nodes);
}

/// Every counter of a valid colouring is in the range that the machine
/// holds.
pub proof fn lemma_valid_in_range(g: GraphView, s: Coloring)
    requires
        valid(g, s),
    ensures
        in_range(s),
{
    lemma_unpainted_finite(g, s);
    assert forall|k: int| 0 <= k < s.max_count.len() implies #[trigger] s.max_count[k]
        >= -0x1_0000_0000 by {
        assert(s.max_count[k] - s.candidates(k as u32).len() >= unpainted(g, s).len()
            - g.nodes.len());
    }
    assert forall|n: u32| #[trigger] s.adjacent_uncolored.contains_key(n) implies s.adjacent_uncolored[n]
        >= 0 by {
        assert(g.nodes.to_set().contains(n));
        assert(g.nodes.contains(n));
    }
}

/// The state before anything is painted is settled.
pub proof fn lemma_fresh_settled(g: GraphView)
    requires
        g.wf(),
    ensures
        settled(g, fresh(g)),
{
    let s = fresh(g);
    lemma_ascending_no_duplicates(g.nodes);
    assert(s.possible.dom() =~= g.nodes.to_set());
    assert(s.adjacent_uncolored.dom() =~= g.nodes.to_set());
    assert(shaped(g, s));
    assert forall|n: u32| !s.painted(n) by {}
    assert(degrees(g, s)) by {
        assert forall|n: u32| #[trigger] g.nodes.contains(n) implies s.adjacent_uncolored[n]
            == open_neighbors(g, s, n).len() by {
            assert(g.nodes.to_set().contains(n));
            assert(ascending(g.adj[n]));
            lemma_ascending_no_duplicates(g.neighbors(n));
            g.neighbors(n).unique_seq_to_set();
            assert(open_neighbors(g, s, n) =~= g.neighbors(n).to_set());
        }
    }
}

/// Whether node `n` may be painted `c`: it is a node without a colour, and
/// none of its neighbours has the colour.
pub open spec fn paintable(g: GraphView, s: Coloring, n: u32, c: int) -> bool {
    &&& valid(g, s)
    &&& g.nodes.contains(n)
    &&& !s.painted(n)
    &&& 0 <= c < s.usage.len()
    &&& free(g, s, n, c)
}

/// No neighbour of `n` has colour `c` exactly when painting `n` with `c`
/// is not refused.
pub proof fn lemma_clash_free(g: GraphView, s: Coloring, n: u32, c: int)
    ensures
        clash(g, s, n, c) is None <==> free(g, s, n, c),
        clash(g, s, n, c) matches Some(m) ==> g.adjacent(n, m) && s.painted_with(m, c),
{
    broadcast use vstd::seq_lib::group_filter_ensures;

    let taken = |m: u32| s.painted_with(m, c);
    let hits = g.neighbors(n).filter(taken);
    if hits.len() > 0 {
        assert(taken(hits[0]));
        assert(hits.contains(hits[0]));
        g.neighbors(n).lemma_filter_contains_rev(taken, hits[0]);
        assert(g.adjacent(n, hits[0]));
    } else {
        assert forall|m: u32| #[trigger] g.adjacent(n, m) implies !s.painted_with(m, c) by {
            if s.painted_with(m, c) {
                let i = choose|i: int| 0 <= i < g.neighbors(n).len() && g.neighbors(n)[i] == m;
                assert(taken(g.neighbors(n)[i]));
                assert(hits.contains(g.neighbors(n)[i]));
            }
        }
    }
}

/// What painting changes: who is painted, and who lists what.
pub proof fn lemma_paint_facts(g: GraphView, s: Coloring, n: u32, c: int)
    requires
        shaped(g, s),
        g.nodes.contains(n),
        0 <= c < s.usage.len(),
    ensures
        paint(g, s, n, c).usage.len() == s.usage.len(),
        paint(g, s, n, c).max_count.len() == s.max_count.len(),
        paint(g, s, n, c).possible.dom() == s.possible.dom(),
        paint(g, s, n, c).adjacent_uncolored.dom() == s.adjacent_uncolored.dom(),
        forall|x: u32, k: int| #[trigger]
            paint(g, s, n, c).painted_with(x, k) <==> s.painted_with(x, k) || (x == n && k == c),
        forall|x: u32| #[trigger] paint(g, s, n, c).painted(x) <==> s.painted(x) || x == n,
        forall|x: u32, k: u32| #[trigger]
            paint(g, s, n, c).lists(x, k) <==> s.lists(x, k) && !(g.adjacent(n, x) && k == c),
{
    let t = paint(g, s, n, c);
    assert(t.possible.dom() =~= s.possible.dom());
    assert(t.adjacent_uncolored.dom() =~= s.adjacent_uncolored.dom());
    assert forall|x: u32, k: int| #[trigger]
        t.painted_with(x, k) <==> s.painted_with(x, k) || (x == n && k == c) by {
        if 0 <= k < s.usage.len() {
            if k == c {
                let old_list = s.usage[c];
                let new_list = old_list.push(n);
                assert(t.usage[c] == new_list);
                if new_list.contains(x) {
                    let i = choose|i: int| 0 <= i < new_list.len() && new_list[i] == x;
                    if i < old_list.len() {
                        assert(old_list[i] == x);
                    }
                }
                if old_list.contains(x) {
                    let i = choose|i: int| 0 <= i < old_list.len() && old_list[i] == x;
                    assert(new_list[i] == x);
                }
                assert(new_list[old_list.len() as int] == n);
            } else {
                assert(t.usage[k] == s.usage[k]);
            }
        }
    }
    assert forall|x: u32| #[trigger] t.painted(x) <==> s.painted(x) || x == n by {
        if t.painted(x) {
            let k = choose|k: int| t.painted_with(x, k);
            assert(s.painted_with(x, k) || (x == n && k == c));
        }
        if s.painted(x) {
            let k = choose|k: int| s.painted_with(x, k);
            assert(t.painted_with(x, k));
        }
        if x == n {
            assert(t.painted_with(n, c));
        }
    }
    assert forall|x: u32, k: u32| #[trigger]
        t.lists(x, k) <==> s.lists(x, k) && !(g.adjacent(n, x) && k == c) by {}
}

proof fn lemma_paint_shaped(g: GraphView, s: Coloring, n: u32, c: int)
    requires
        paintable(g, s, n, c),
    ensures
        shaped(g, paint(g, s, n, c)),
{
    let t = paint(g, s, n, c);
    lemma_paint_facts(g, s, n, c);
    assert forall|x: u32| #[trigger] t.possible.contains_key(x) implies t.possible[x].finite() by {
        assert(s.possible.contains_key(x));
        assert(s.possible[x].finite());
    }
    assert forall|x: u32, k: u32| #[trigger] t.lists(x, k) implies k < t.usage.len() by {
        assert(s.lists(x, k));
    }
    assert forall|k: int, i: int|
        0 <= k < t.usage.len() && 0 <= i < t.usage[k].len() implies g.nodes.contains(
        #[trigger] t.usage[k][i],
    ) by {
        if k == c && i == s.usage[c].len() {
        } else {
            assert(t.usage[k][i] == s.usage[k][i]);
        }
    }
}

proof fn lemma_paint_painted_once(g: GraphView, s: Coloring, n: u32, c: int)
    requires
        paintable(g, s, n, c),
    ensures
        painted_once(paint(g, s, n, c)),
{
    let t = paint(g, s, n, c);
    lemma_paint_facts(g, s, n, c);
    assert forall|k: int| 0 <= k < t.usage.len() implies (#[trigger] t.usage[k]).no_duplicates() by {
        assert(s.usage[k].no_duplicates());
        if k == c {
            assert(!s.painted_with(n, c));
            let new_list = s.usage[c].push(n);
            assert forall|i: int, j: int|
                0 <= i < new_list.len() && 0 <= j < new_list.len() && i != j implies new_list[i]
                != new_list[j] by {
                if i < s.usage[c].len() && j < s.usage[c].len() {
                } else if i < s.usage[c].len() {
                    assert(s.usage[c].contains(s.usage[c][i]));
                } else {
                    assert(s.usage[c].contains(s.usage[c][j]));
                }
            }
        }
    }
    assert forall|x: u32, c1: int, c2: int|
        #[trigger] t.painted_with(x, c1) && #[trigger] t.painted_with(x, c2) implies c1 == c2 by {
        if x == n {
            assert(!s.painted_with(n, c1));
            assert(!s.painted_with(n, c2));
        } else {
            assert(s.painted_with(x, c1) && s.painted_with(x, c2));
        }
    }
}

proof fn lemma_paint_proper(g: GraphView, s: Coloring, n: u32, c: int)
    requires
        paintable(g, s, n, c),
    ensures
        proper(g, paint(g, s, n, c)),
{
    let t = paint(g, s, n, c);
    lemma_paint_facts(g, s, n, c);
    assert forall|a: u32, b: u32, k: int|
        #[trigger] t.painted_with(a, k) && #[trigger] t.painted_with(b, k) implies !g.adjacent(
        a,
        b,
    ) by {
        if g.adjacent(a, b) {
            assert(g.adjacent(b, a));
            if a == n && k == c && !s.painted_with(a, k) {
                assert(b != n);
                assert(s.painted_with(b, c));
            } else if b == n && k == c && !s.painted_with(b, k) {
                assert(a != n);
                assert(s.painted_with(a, c));
            } else {
                assert(s.painted_with(a, k) && s.painted_with(b, k));
            }
        }
    }
}

proof fn lemma_paint_sound(g: GraphView, s: Coloring, n: u32, c: int)
    requires
        paintable(g, s, n, c),
    ensures
        sound(g, paint(g, s, n, c)),
{
    let t = paint(g, s, n, c);
    lemma_paint_facts(g, s, n, c);
    assert forall|x: u32, m: u32, k: u32|
        #[trigger] t.lists(x, k) && #[trigger] g.adjacent(x, m) implies !t.painted_with(
        m,
        k as int,
    ) by {
        assert(s.lists(x, k));
        assert(!s.painted_with(m, k as int));
        if m == n && k == c {
            assert(g.adjacent(n, x));
        }
    }
}

proof fn lemma_paint_complete(g: GraphView, s: Coloring, n: u32, c: int)
    requires
        paintable(g, s, n, c),
    ensures
        complete(g, paint(g, s, n, c)),
{
    let t = paint(g, s, n, c);
    lemma_paint_facts(g, s, n, c);
    assert forall|i: int, k: int|
        0 <= i < t.uncolored.len() && 0 <= k < t.usage.len() && !t.painted(t.uncolored[i]) && free(
            g,
            t,
            t.uncolored[i],
            k,
        ) implies #[trigger] t.lists(t.uncolored[i], k as u32) by {
        let x = t.uncolored[i];
        assert(x == s.uncolored[i]);
        assert(!s.painted(x));
        assert(x != n);
        assert(free(g, s, x, k)) by {
            assert forall|m: u32| #[trigger] g.adjacent(x, m) implies !s.painted_with(m, k) by {
                assert(!t.painted_with(m, k));
            }
        }
        assert(s.lists(x, k as u32));
        if g.adjacent(n, x) && k == c {
            assert(g.adjacent(x, n));
            assert(t.painted_with(n, c));
        }
    }
}

proof fn lemma_paint_bounded(g: GraphView, s: Coloring, n: u32, c: int)
    requires
        paintable(g, s, n, c),
    ensures
        bounded(g, paint(g, s, n, c)),
{
    broadcast use vstd::set::axiom_set_remove_len;

    let t = paint(g, s, n, c);
    lemma_paint_facts(g, s, n, c);
    lemma_unpainted_finite(g, s);
    assert(unpainted(g, t) =~= unpainted(g, s).remove(n));
    assert(unpainted(g, s).contains(n));
    assert forall|k: int|
        0 <= k < t.usage.len() implies #[trigger] t.max_count[k] <= t.candidates(k as u32).len()
        && t.max_count[k] - t.candidates(k as u32).len() >= unpainted(g, t).len()
        - g.nodes.len() by {
        lemma_candidates_finite(g, s, k as u32);
        let before = s.candidates(k as u32);
        assert(s.max_count[k] <= before.len() && s.max_count[k] - before.len() >= unpainted(
            g,
            s,
        ).len() - g.nodes.len());
        if k != c {
            assert(t.candidates(k as u32) =~= before);
        } else {
            let listed = |m: u32| s.lists(m, c as u32);
            let rival_set = Set::new(|m: u32| g.neighbors(n).contains(m) && listed(m));
            assert(g.nodes.to_set().contains(n));
            assert(ascending(g.adj[n]));
            lemma_filter_len_as_set(g.neighbors(n), listed);
            assert(rival_set.len() == rivals(g, s, n, c));
            assert(before.intersect(rival_set) =~= rival_set);
            vstd::set_lib::lemma_set_difference_len(before, rival_set);
            assert(t.candidates(c as u32) =~= before.difference(rival_set));
        }
    }
}

proof fn lemma_paint_degrees(g: GraphView, s: Coloring, n: u32, c: int)
    requires
        paintable(g, s, n, c),
    ensures
        degrees(g, paint(g, s, n, c)),
{
    broadcast use vstd::set::axiom_set_remove_len;

    let t = paint(g, s, n, c);
    lemma_paint_facts(g, s, n, c);
    assert forall|x: u32| #[trigger] g.nodes.contains(x) implies t.adjacent_uncolored[x]
        == open_neighbors(g, t, x).len() by {
        lemma_open_neighbors_finite(g, s, x);
        let before = open_neighbors(g, s, x);
        assert(s.adjacent_uncolored[x] == before.len());
        assert(g.nodes.to_set().contains(x));
        assert(s.adjacent_uncolored.dom().contains(x));
        assert(open_neighbors(g, t, x) =~= before.remove(n));
        if g.adjacent(n, x) {
            assert(g.adjacent(x, n));
            assert(before.contains(n));
        } else {
            if g.adjacent(x, n) {
                assert(g.adjacent(n, x));
            }
            assert(!before.contains(n));
        }
    }
}

/// Painting a node that may be painted leaves the colouring valid.
pub proof fn lemma_paint_valid(g: GraphView, s: Coloring, n: u32, c: int)
    requires
        paintable(g, s, n, c),
    ensures
        valid(g, paint(g, s, n, c)),
        in_range(paint(g, s, n, c)),
{
    lemma_paint_shaped(g, s, n, c);
    lemma_paint_painted_once(g, s, n, c);
    lemma_paint_proper(g, s, n, c);
    lemma_paint_sound(g, s, n, c);
    lemma_paint_complete(g, s, n, c);
    lemma_paint_bounded(g, s, n, c);
    lemma_paint_degrees(g, s, n, c);
    lemma_valid_in_range(g, paint(g, s, n, c));
}

/// What a new colour changes: nothing is painted with it, and exactly the
/// waiting nodes list it.
pub proof fn lemma_new_color_facts(g: GraphView, s: Coloring)
    requires
        shaped(g, s),
        s.usage.len() < 0x1_0000_0000,
    ensures
        with_new_color(s).usage.len() == s.usage.len() + 1,
        with_new_color(s).max_count.len() == s.max_count.len() + 1,
        with_new_color(s).possible.dom() == s.possible.dom(),
        forall|k: int|
            0 <= k < s.usage.len() ==> #[trigger] with_new_color(s).usage[k] == s.usage[k],
        with_new_color(s).usage[s.usage.len() as int] == Seq::<u32>::empty(),
        forall|x: u32, k: int| #[trigger]
            with_new_color(s).painted_with(x, k) <==> s.painted_with(x, k),
        forall|x: u32| #[trigger] with_new_color(s).painted(x) <==> s.painted(x),
        forall|x: u32, k: u32| #[trigger]
            with_new_color(s).lists(x, k) <==> s.lists(x, k) || (k == s.usage.len()
                && s.uncolored.contains(x) && s.possible.contains_key(x)),
{
    let w = with_new_color(s);
    let c = s.usage.len() as int;
    assert(w.possible.dom() =~= s.possible.dom());
    assert forall|x: u32, k: int| #[trigger] w.painted_with(x, k) <==> s.painted_with(x, k) by {
        if 0 <= k < s.usage.len() {
            assert(w.usage[k] == s.usage[k]);
        }
    }
    assert forall|x: u32| #[trigger] w.painted(x) <==> s.painted(x) by {
        if w.painted(x) {
            let k = choose|k: int| w.painted_with(x, k);
            assert(s.painted_with(x, k));
        }
        if s.painted(x) {
            let k = choose|k: int| s.painted_with(x, k);
            assert(w.painted_with(x, k));
        }
    }
    assert forall|x: u32, k: u32| #[trigger]
        w.lists(x, k) <==> s.lists(x, k) || (k == s.usage.len() && s.uncolored.contains(x)
            && s.possible.contains_key(x)) by {
        if s.lists(x, k) {
            assert(k < s.usage.len());
        }
    }
}

/// Introducing a colour while no waiting node is painted leaves the
/// colouring valid.
pub proof fn lemma_new_color_valid(g: GraphView, s: Coloring)
    requires
        valid(g, s),
        s.usage.len() < 0x1_0000_0000,
        forall|i: int| 0 <= i < s.uncolored.len() ==> !s.painted(#[trigger] s.uncolored[i]),
    ensures
        valid(g, with_new_color(s)),
{
    let w = with_new_color(s);
    let c = s.usage.len() as int;
    lemma_new_color_facts(g, s);
    assert(shaped(g, w)) by {
        assert forall|x: u32| #[trigger] w.possible.contains_key(x) implies w.possible[x].finite() by {
            assert(s.possible.contains_key(x));
            assert(s.possible[x].finite());
        }
        assert forall|k: int, i: int|
            0 <= k < w.usage.len() && 0 <= i < w.usage[k].len() implies g.nodes.contains(
            #[trigger] w.usage[k][i],
        ) by {
            assert(w.usage[k][i] == s.usage[k][i]);
        }
    }
    assert(painted_once(w)) by {
        assert forall|k: int| 0 <= k < w.usage.len() implies (#[trigger] w.usage[k]).no_duplicates() by {
            if k < c {
                assert(s.usage[k].no_duplicates());
            }
        }
        assert forall|x: u32, c1: int, c2: int|
            #[trigger] w.painted_with(x, c1) && #[trigger] w.painted_with(x, c2) implies c1
            == c2 by {
            assert(s.painted_with(x, c1) && s.painted_with(x, c2));
        }
    }
    assert(proper(g, w)) by {
        assert forall|a: u32, b: u32, k: int|
            #[trigger] w.painted_with(a, k) && #[trigger] w.painted_with(b, k) implies !g.adjacent(
            a,
            b,
        ) by {
            assert(s.painted_with(a, k) && s.painted_with(b, k));
        }
    }
    assert(sound(g, w)) by {
        assert forall|x: u32, m: u32, k: u32|
            #[trigger] w.lists(x, k) && #[trigger] g.adjacent(x, m) implies !w.painted_with(
            m,
            k as int,
        ) by {
            if s.lists(x, k) {
                assert(!s.painted_with(m, k as int));
            }
        }
    }
    assert(complete(g, w)) by {
        assert forall|i: int, k: int|
            0 <= i < w.uncolored.len() && 0 <= k < w.usage.len() && !w.painted(w.uncolored[i])
                && free(g, w, w.uncolored[i], k) implies #[trigger] w.lists(
            w.uncolored[i],
            k as u32,
        ) by {
            let x = s.uncolored[i];
            assert(g.nodes.contains(x));
            assert(g.nodes.to_set().contains(x));
            assert(s.possible.dom().contains(x));
            if k < c {
                assert(free(g, s, x, k)) by {
                    assert forall|m: u32| #[trigger] g.adjacent(x, m) implies !s.painted_with(m, k) by {
                        assert(!w.painted_with(m, k));
                    }
                }
                assert(s.lists(x, k as u32));
            }
        }
    }
    assert(bounded(g, w)) by {
        lemma_unpainted_finite(g, s);
        assert(unpainted(g, w) =~= unpainted(g, s));
        assert forall|k: int|
            0 <= k < w.usage.len() implies #[trigger] w.max_count[k] <= w.candidates(
            k as u32,
        ).len() && w.max_count[k] - w.candidates(k as u32).len() >= unpainted(g, w).len()
            - g.nodes.len() by {
            if k < c {
                assert(w.candidates(k as u32) =~= s.candidates(k as u32));
                assert(s.max_count[k] <= s.candidates(k as u32).len() && s.max_count[k]
                    - s.candidates(k as u32).len() >= unpainted(g, s).len() - g.nodes.len());
            } else {
                s.uncolored.unique_seq_to_set();
                assert(w.candidates(c as u32) =~= s.uncolored.to_set()) by {
                    assert forall|x: u32| s.uncolored.to_set().contains(x) implies w.candidates(
                        c as u32,
                    ).contains(x) by {
                        let i = choose|i: int| 0 <= i < s.uncolored.len() && s.uncolored[i] == x;
                        assert(g.nodes.contains(s.uncolored[i]));
                        assert(g.nodes.to_set().contains(x));
                        assert(s.possible.dom().contains(x));
                    }
                }
            }
        }
    }
    assert(degrees(g, w)) by {
        assert forall|x: u32| #[trigger] g.nodes.contains(x) implies w.adjacent_uncolored[x]
            == open_neighbors(g, w, x).len() by {
            assert(open_neighbors(g, w, x) =~= open_neighbors(g, s, x));
        }
    }
}

/// A valid colouring stays valid when fewer nodes wait.
pub proof fn lemma_fewer_waiting_valid(g: GraphView, s: Coloring, waiting: Seq<u32>)
    requires
        valid(g, s),
        waiting.no_duplicates(),
        waiting.len() <= s.uncolored.len(),
        forall|i: int| 0 <= i < waiting.len() ==> s.uncolored.contains(#[trigger] waiting[i]),
    ensures
        valid(g, Coloring { uncolored: waiting, ..s }),
{
    let t = Coloring { uncolored: waiting, ..s };
    assert forall|x: u32| #[trigger] t.painted(x) <==> s.painted(x) by {
        if t.painted(x) {
            let k = choose|k: int| t.painted_with(x, k);
            assert(s.painted_with(x, k));
        }
        if s.painted(x) {
            let k = choose|k: int| s.painted_with(x, k);
            assert(t.painted_with(x, k));
        }
    }
    assert(shaped(g, t)) by {
        assert forall|i: int| 0 <= i < t.uncolored.len() implies g.nodes.contains(
            #[trigger] t.uncolored[i],
        ) by {
            let x = waiting[i];
            let j = choose|j: int| 0 <= j < s.uncolored.len() && s.uncolored[j] == x;
            assert(g.nodes.contains(s.uncolored[j]));
        }
        assert forall|x: u32, k: u32| #[trigger] t.lists(x, k) implies k < t.usage.len() by {
            assert(s.lists(x, k));
        }
    }
    assert(painted_once(t)) by {
        assert forall|x: u32, c1: int, c2: int|
            #[trigger] t.painted_with(x, c1) && #[trigger] t.painted_with(x, c2) implies c1
            == c2 by {
            assert(s.painted_with(x, c1) && s.painted_with(x, c2));
        }
    }
    assert(proper(g, t)) by {
        assert forall|a: u32, b: u32, k: int|
            #[trigger] t.painted_with(a, k) && #[trigger] t.painted_with(b, k) implies !g.adjacent(
            a,
            b,
        ) by {
            assert(s.painted_with(a, k) && s.painted_with(b, k));
        }
    }
    assert(sound(g, t)) by {
        assert forall|x: u32, m: u32, k: u32|
            #[trigger] t.lists(x, k) && #[trigger] g.adjacent(x, m) implies !t.painted_with(
            m,
            k as int,
        ) by {
            assert(s.lists(x, k));
            assert(!s.painted_with(m, k as int));
        }
    }
    assert(complete(g, t)) by {
        assert forall|i: int, k: int|
            0 <= i < t.uncolored.len() && 0 <= k < t.usage.len() && !t.painted(t.uncolored[i])
                && free(g, t, t.uncolored[i], k) implies #[trigger] t.lists(
            t.uncolored[i],
            k as u32,
        ) by {
            let x = waiting[i];
            let j = choose|j: int| 0 <= j < s.uncolored.len() && s.uncolored[j] == x;
            assert(!s.painted(s.uncolored[j]));
            assert(free(g, s, x, k)) by {
                assert forall|m: u32| #[trigger] g.adjacent(x, m) implies !s.painted_with(m, k) by {
                    assert(!t.painted_with(m, k));
                }
            }
            assert(s.lists(s.uncolored[j], k as u32));
        }
    }
    assert(bounded(g, t)) by {
        assert(unpainted(g, t) =~= unpainted(g, s));
        assert forall|k: int|
            0 <= k < t.usage.len() implies #[trigger] t.max_count[k] <= t.candidates(
            k as u32,
        ).len() && t.max_count[k] - t.candidates(k as u32).len() >= unpainted(g, t).len()
            - g.nodes.len() by {
            assert(t.candidates(k as u32) =~= s.candidates(k as u32));
            assert(s.max_count[k] <= s.candidates(k as u32).len() && s.max_count[k]
                - s.candidates(k as u32).len() >= unpainted(g, s).len() - g.nodes.len());
        }
    }
    assert(degrees(g, t)) by {
        assert forall|x: u32| #[trigger] g.nodes.contains(x) implies t.adjacent_uncolored[x]
            == open_neighbors(g, t, x).len() by {
            assert(open_neighbors(g, t, x) =~= open_neighbors(g, s, x));
        }
    }
}

/// What holds while the members of one pre-configured IV are painted, when
/// those of the first `k` waiting nodes are still to come: the members
/// after them have the newest colour, and nothing else has changed hands.
pub open spec fn seeding(g: GraphView, s: Coloring, members: Set<u32>, k: int) -> bool {
    &&& valid(g, s)
    &&& s.usage.len() > 0
    &&& s.seeded == s.usage.len()
    &&& 0 <= k <= s.uncolored.len()
    &&& forall|i: int|
        0 <= i < s.uncolored.len() ==> (s.painted(#[trigger] s.uncolored[i]) <==> i >= k
            && members.contains(s.uncolored[i]))
    &&& forall|n: u32| #[trigger] g.nodes.contains(n) && !s.painted(n) ==> s.uncolored.contains(n)
    &&& forall|x: u32| #[trigger]
        s.painted_with(x, s.usage.len() - 1) <==> members.contains(x) && exists|i: int|
            k <= i < s.uncolored.len() && s.uncolored[i] == x
}

/// Two of `members` that wait in `waiting` must be kept apart.
pub open spec fn crowded(g: GraphView, waiting: Seq<u32>, members: Set<u32>) -> bool {
    exists|a: u32, b: u32|
        members.contains(a) && members.contains(b) && waiting.contains(a) && waiting.contains(b)
            && #[trigger] g.adjacent(a, b)
}

/// Opening the colour of a pre-configured IV on a settled colouring starts
/// the seeding of its members.
pub proof fn lemma_open_seed(g: GraphView, s: Coloring, members: Set<u32>)
    requires
        settled(g, s),
        s.seeded == s.usage.len(),
        s.usage.len() < 0x1_0000_0000,
    ensures
        seeding(g, open_seed(s), members, s.uncolored.len() as int),
        open_seed(s).uncolored == s.uncolored,
        open_seed(s).usage.len() == s.usage.len() + 1,
        forall|k: int| 0 <= k < s.usage.len() ==> #[trigger] open_seed(s).usage[k] == s.usage[k],
{
    let w = with_new_color(s);
    let o = open_seed(s);
    let c = s.usage.len() as int;
    lemma_new_color_valid(g, s);
    lemma_new_color_facts(g, s);
    assert forall|x: u32| #[trigger] o.painted(x) <==> s.painted(x) by {
        if o.painted(x) {
            let k = choose|k: int| o.painted_with(x, k);
            assert(w.painted_with(x, k));
        }
        if s.painted(x) {
            let k = choose|k: int| s.painted_with(x, k);
            assert(w.painted_with(x, k));
            assert(o.painted_with(x, k));
        }
    }
    assert(shaped(g, o)) by {
        assert forall|x: u32, k: u32| #[trigger] o.lists(x, k) implies k < o.usage.len() by {
            assert(w.lists(x, k));
        }
    }
    assert(painted_once(o)) by {
        assert forall|x: u32, c1: int, c2: int|
            #[trigger] o.painted_with(x, c1) && #[trigger] o.painted_with(x, c2) implies c1
            == c2 by {
            assert(w.painted_with(x, c1) && w.painted_with(x, c2));
        }
    }
    assert(proper(g, o)) by {
        assert forall|a: u32, b: u32, k: int|
            #[trigger] o.painted_with(a, k) && #[trigger] o.painted_with(b, k) implies !g.adjacent(
            a,
            b,
        ) by {
            assert(w.painted_with(a, k) && w.painted_with(b, k));
        }
    }
    assert(sound(g, o)) by {
        assert forall|x: u32, m: u32, k: u32|
            #[trigger] o.lists(x, k) && #[trigger] g.adjacent(x, m) implies !o.painted_with(
            m,
            k as int,
        ) by {
            assert(w.lists(x, k));
            assert(!w.painted_with(m, k as int));
        }
    }
    assert(complete(g, o)) by {
        assert forall|i: int, k: int|
            0 <= i < o.uncolored.len() && 0 <= k < o.usage.len() && !o.painted(o.uncolored[i])
                && free(g, o, o.uncolored[i], k) implies #[trigger] o.lists(
            o.uncolored[i],
            k as u32,
        ) by {
            let x = o.uncolored[i];
            assert(!w.painted(w.uncolored[i]));
            assert(free(g, w, x, k)) by {
                assert forall|m: u32| #[trigger] g.adjacent(x, m) implies !w.painted_with(m, k) by {
                    assert(!o.painted_with(m, k));
                }
            }
            assert(w.lists(w.uncolored[i], k as u32));
        }
    }
    assert(bounded(g, o)) by {
        assert(unpainted(g, o) =~= unpainted(g, w));
        assert forall|k: int|
            0 <= k < o.usage.len() implies #[trigger] o.max_count[k] <= o.candidates(
            k as u32,
        ).len() && o.max_count[k] - o.candidates(k as u32).len() >= unpainted(g, o).len()
            - g.nodes.len() by {
            assert(o.candidates(k as u32) =~= w.candidates(k as u32));
            assert(w.max_count[k] <= w.candidates(k as u32).len() && w.max_count[k]
                - w.candidates(k as u32).len() >= unpainted(g, w).len() - g.nodes.len());
        }
    }
    assert(degrees(g, o)) by {
        assert forall|x: u32| #[trigger] g.nodes.contains(x) implies o.adjacent_uncolored[x]
            == open_neighbors(g, o, x).len() by {
            assert(open_neighbors(g, o, x) =~= open_neighbors(g, w, x));
        }
    }
    assert forall|i: int| 0 <= i < o.uncolored.len() implies (o.painted(#[trigger] o.uncolored[i])
        <==> i >= s.uncolored.len() && members.contains(o.uncolored[i])) by {
        assert(!s.painted(s.uncolored[i]));
    }
}

/// One step of seeding: the waiting node before position `k` is painted if
/// it is a member and nothing forbids it, and is passed over if it is no
/// member.
pub proof fn lemma_seed_step(g: GraphView, s: Coloring, members: Set<u32>, k: int)
    requires
        seeding(g, s, members, k),
        k > 0,
    ensures
        !members.contains(s.uncolored[k - 1]) ==> seeding(g, s, members, k - 1),
        members.contains(s.uncolored[k - 1]) && clash(
            g,
            s,
            s.uncolored[k - 1],
            s.usage.len() - 1,
        ) is None ==> paintable(g, s, s.uncolored[k - 1], s.usage.len() - 1) && seeding(
            g,
            paint(g, s, s.uncolored[k - 1], s.usage.len() - 1),
            members,
            k - 1,
        ),
{
    let n = s.uncolored[k - 1];
    let c = s.usage.len() - 1;
    assert(!s.painted(s.uncolored[k - 1]));
    if !members.contains(n) {
        assert forall|x: u32| #[trigger]
            s.painted_with(x, c) <==> members.contains(x) && exists|i: int|
                k - 1 <= i < s.uncolored.len() && s.uncolored[i] == x by {
            if members.contains(x) && exists|i: int|
                k - 1 <= i < s.uncolored.len() && s.uncolored[i] == x {
                let i = choose|i: int| k - 1 <= i < s.uncolored.len() && s.uncolored[i] == x;
                assert(i >= k);
            }
        }
    } else if clash(g, s, n, c) is None {
        lemma_clash_free(g, s, n, c);
        assert(g.nodes.contains(s.uncolored[k - 1]));
        assert(paintable(g, s, n, c));
        let t = paint(g, s, n, c);
        lemma_paint_valid(g, s, n, c);
        lemma_paint_facts(g, s, n, c);
        assert forall|i: int| 0 <= i < t.uncolored.len() implies (t.painted(#[trigger] t.uncolored[i])
            <==> i >= k - 1 && members.contains(t.uncolored[i])) by {
            assert(s.painted(s.uncolored[i]) <==> i >= k && members.contains(s.uncolored[i]));
            if s.uncolored[i] == n {
                assert(i == k - 1);
            }
        }
        assert forall|x: u32| #[trigger]
            t.painted_with(x, t.usage.len() - 1) <==> members.contains(x) && exists|i: int|
                k - 1 <= i < t.uncolored.len() && t.uncolored[i] == x by {
            if t.painted_with(x, c) {
                if x == n {
                    assert(t.uncolored[k - 1] == x);
                } else {
                    assert(s.painted_with(x, c));
                    let i = choose|i: int| k <= i < s.uncolored.len() && s.uncolored[i] == x;
                    assert(t.uncolored[i] == x);
                }
            }
            if members.contains(x) && exists|i: int|
                k - 1 <= i < t.uncolored.len() && t.uncolored[i] == x {
                let i = choose|i: int| k - 1 <= i < t.uncolored.len() && t.uncolored[i] == x;
                if i >= k {
                    assert(s.uncolored[i] == x);
                    assert(s.painted_with(x, c));
                }
            }
        }
    }
}

/// How the seeding of the members among the first `k` waiting nodes ends:
/// with all of them painted, or with two members that must be kept apart.
pub proof fn lemma_seed_members(g: GraphView, s: Coloring, members: Set<u32>, k: nat)
    requires
        seeding(g, s, members, k as int),
    ensures
        match seed_members(g, s, members, s.usage.len() - 1, k) {
            Ok(t) => {
                &&& seeding(g, t, members, 0)
                &&& t.uncolored == s.uncolored
                &&& t.usage.len() == s.usage.len()
                &&& forall|j: int| 0 <= j < s.usage.len() - 1 ==> #[trigger] t.usage[j] == s.usage[j]
            },
            Err(e) => {
                &&& e.iv == s.usage.len() - 1
                &&& members.contains(e.node)
                &&& members.contains(e.other)
                &&& s.uncolored.contains(e.node)
                &&& s.uncolored.contains(e.other)
                &&& g.adjacent(e.node, e.other)
            },
        },
    decreases k,
{
    let c = s.usage.len() - 1;
    if k > 0 {
        let n = s.uncolored[k - 1];
        lemma_seed_step(g, s, members, k as int);
        if members.contains(n) {
            lemma_clash_free(g, s, n, c);
            match clash(g, s, n, c) {
                Some(m) => {
                    assert(s.painted_with(m, c));
                    assert(s.uncolored.contains(s.uncolored[k - 1]));
                },
                None => {
                    let next = paint(g, s, n, c);
                    lemma_paint_facts(g, s, n, c);
                    lemma_seed_members(g, next, members, (k - 1) as nat);
                    match seed_members(g, next, members, c, (k - 1) as nat) {
                        Ok(t) => {
                            assert forall|j: int| 0 <= j < s.usage.len() - 1 implies #[trigger] t.usage[j]
                                == s.usage[j] by {
                                assert(next.usage[j] == s.usage[j]);
                            }
                        },
                        Err(e) => {},
                    }
                },
            }
        } else {
            lemma_seed_members(g, s, members, (k - 1) as nat);
        }
    }
}

/// How the seeding of one pre-configured IV ends on a settled colouring:
/// with a settled colouring in which the newest colour holds exactly the
/// members that waited, or with two such members that must be kept apart.
/// It ends well exactly when no two such members must be kept apart.
pub proof fn lemma_seed_set(g: GraphView, s: Coloring, members: Set<u32>)
    requires
        settled(g, s),
        s.seeded == s.usage.len(),
        s.usage.len() < 0x1_0000_0000,
    ensures
        match seed_set(g, s, members) {
            Ok(t) => {
                &&& settled(g, t)
                &&& t.seeded == t.usage.len()
                &&& t.usage.len() == s.usage.len() + 1
                &&& t.uncolored == others(s.uncolored, members)
                &&& forall|j: int| 0 <= j < s.usage.len() ==> #[trigger] t.usage[j] == s.usage[j]
                &&& forall|x: u32| #[trigger]
                    t.painted_with(x, s.usage.len() as int) <==> members.contains(x)
                        && s.uncolored.contains(x)
                &&& !crowded(g, s.uncolored, members)
            },
            Err(e) => {
                &&& e.iv == s.usage.len()
                &&& members.contains(e.node)
                &&& members.contains(e.other)
                &&& s.uncolored.contains(e.node)
                &&& s.uncolored.contains(e.other)
                &&& g.adjacent(e.node, e.other)
                &&& crowded(g, s.uncolored, members)
            },
        },
{
    let c = s.usage.len() as int;
    let opened = open_seed(s);
    lemma_open_seed(g, s, members);
    lemma_seed_members(g, opened, members, opened.uncolored.len());
    match seed_members(g, opened, members, c, opened.uncolored.len()) {
        Err(e) => {},
        Ok(done) => {
            let keep = |n: u32| !members.contains(n);
            let rest = others(done.uncolored, members);
            let t = Coloring { uncolored: rest, ..done };
            lemma_filter_no_duplicates(done.uncolored, keep);
            assert forall|i: int| 0 <= i < rest.len() implies done.uncolored.contains(
                #[trigger] rest[i],
            ) && !members.contains(rest[i]) by {
                assert(rest.contains(rest[i]));
                lemma_filter_holds(done.uncolored, keep, rest[i]);
            }
            done.uncolored.lemma_filter_len(keep);
            lemma_fewer_waiting_valid(g, done, rest);
            assert forall|x: u32| #[trigger] t.painted(x) <==> done.painted(x) by {
                if t.painted(x) {
                    let k = choose|k: int| t.painted_with(x, k);
                    assert(done.painted_with(x, k));
                }
                if done.painted(x) {
                    let k = choose|k: int| done.painted_with(x, k);
                    assert(t.painted_with(x, k));
                }
            }
            assert forall|i: int| 0 <= i < t.uncolored.len() implies !t.painted(
                #[trigger] t.uncolored[i],
            ) by {
                let x = rest[i];
                let j = choose|j: int| 0 <= j < done.uncolored.len() && done.uncolored[j] == x;
                assert(done.painted(done.uncolored[j]) <==> members.contains(done.uncolored[j]));
            }
            assert forall|n: u32| #[trigger] g.nodes.contains(n) && !t.painted(n) implies t.uncolored.contains(
                n,
            ) by {
                assert(done.uncolored.contains(n));
                let j = choose|j: int| 0 <= j < done.uncolored.len() && done.uncolored[j] == n;
                assert(done.painted(done.uncolored[j]) <==> members.contains(done.uncolored[j]));
                lemma_filter_holds(done.uncolored, keep, n);
            }
            assert forall|x: u32| #[trigger]
                t.painted_with(x, c) <==> members.contains(x) && s.uncolored.contains(x) by {
                assert(done.painted_with(x, done.usage.len() - 1) <==> members.contains(x)
                    && exists|i: int| 0 <= i < done.uncolored.len() && done.uncolored[i] == x);
            }
            assert forall|j: int| 0 <= j < s.usage.len() implies #[trigger] t.usage[j]
                == s.usage[j] by {
                assert(done.usage[j] == opened.usage[j]);
            }
            if crowded(g, s.uncolored, members) {
                let (a, b) = choose|a: u32, b: u32|
                    members.contains(a) && members.contains(b) && s.uncolored.contains(a)
                        && s.uncolored.contains(b) && #[trigger] g.adjacent(a, b);
                assert(t.painted_with(a, c));
                assert(t.painted_with(b, c));
                assert(done.painted_with(a, c));
                assert(done.painted_with(b, c));
            }
        },
    }
}

/// The waiting nodes can be arranged by key.
pub proof fn lemma_arrange_exists(s: Coloring)
    ensures
        arranged(s, arrange(s)),
{
    let leq = |a: u32, b: u32| key_le(priority(s, a), priority(s, b));
    assert(total_ordering(leq)) by {
        assert(reflexive(leq));
        assert(antisymmetric(leq));
        assert(transitive(leq));
        assert(strongly_connected(leq));
    }
    s.uncolored.lemma_sort_by_ensures(leq);
    let sorted = s.uncolored.sort_by(leq);
    assert(arranged(s, sorted)) by {
        assert forall|i: int, j: int| 0 <= i < j < sorted.len() implies key_le(
            priority(s, #[trigger] sorted[i]),
            priority(s, #[trigger] sorted[j]),
        ) by {
            assert(leq(sorted[i], sorted[j]));
        }
    }
}

/// The best of the colours below `k` that node `n` lists, if it lists any.
spec fn best_below(s: Coloring, n: u32, k: nat) -> Option<u32>
    decreases k,
{
    if k == 0 {
        None
    } else {
        let c = (k - 1) as u32;
        let before = best_below(s, n, (k - 1) as nat);
        if s.lists(n, c) {
            match before {
                Some(b) => if s.max_count[b as int] <= s.max_count[c as int] {
                    Some(c)
                } else {
                    Some(b)
                },
                None => Some(c),
            }
        } else {
            before
        }
    }
}

proof fn lemma_best_below(s: Coloring, n: u32, k: nat)
    requires
        k <= s.max_count.len(),
        k <= 0x1_0000_0000,
    ensures
        match best_below(s, n, k) {
            Some(b) => {
                &&& b < k
                &&& s.lists(n, b)
                &&& forall|other: u32| #[trigger]
                    s.lists(n, other) && other < k ==> s.max_count[other as int]
                        < s.max_count[b as int] || (s.max_count[other as int]
                        == s.max_count[b as int] && other <= b)
            },
            None => forall|other: u32| other < k ==> !#[trigger] s.lists(n, other),
        },
    decreases k,
{
    if k > 0 {
        lemma_best_below(s, n, (k - 1) as nat);
    }
}

/// A node that lists a colour has a best colour.
pub proof fn lemma_best_color_exists(g: GraphView, s: Coloring, n: u32)
    requires
        shaped(g, s),
        s.possible.contains_key(n),
        s.possible[n].len() > 0,
    ensures
        is_best_color(s, n, best_color(s, n)),
{
    lemma_best_below(s, n, s.max_count.len());
    assert(!(s.possible[n] =~= Set::<u32>::empty()));
    let some = choose|c: u32| s.possible[n].contains(c);
    assert(s.lists(n, some));
    match best_below(s, n, s.max_count.len()) {
        Some(b) => {
            assert(is_best_color(s, n, b));
        },
        None => {},
    }
}

/// The colouring after the node to paint next was taken from the waiting
/// nodes.
pub open spec fn taken(s: Coloring) -> Coloring {
    Coloring { uncolored: arrange(s).drop_last(), ..s }
}

/// What holds in the middle of a round: the node that was taken is a node
/// without a colour, and it may be painted with its best colour, or with a
/// new colour if it lists none.
pub proof fn lemma_round(g: GraphView, s: Coloring)
    requires
        settled(g, s),
        s.uncolored.len() > 0,
        s.usage.len() < 0x1_0000_0000,
    ensures
        arranged(s, arrange(s)),
        arrange(s).len() == s.uncolored.len(),
        s.uncolored.contains(arrange(s).last()),
        g.nodes.contains(arrange(s).last()),
        !s.painted(arrange(s).last()),
        valid(g, taken(s)),
        !arrange(s).drop_last().contains(arrange(s).last()),
        forall|x: u32| #[trigger]
            s.uncolored.contains(x) <==> arrange(s).drop_last().contains(x) || x == arrange(
                s,
            ).last(),
        s.possible[arrange(s).last()].len() == 0 ==> valid(g, with_new_color(taken(s)))
            && paintable(g, with_new_color(taken(s)), arrange(s).last(), s.usage.len() as int),
        s.possible[arrange(s).last()].len() > 0 ==> is_best_color(
            taken(s),
            arrange(s).last(),
            best_color(taken(s), arrange(s).last()),
        ) && paintable(
            g,
            taken(s),
            arrange(s).last(),
            best_color(taken(s), arrange(s).last()) as int,
        ),
{
    broadcast use vstd::seq_lib::group_to_multiset_ensures;

    let order = arrange(s);
    lemma_arrange_exists(s);
    s.uncolored.lemma_multiset_has_no_duplicates();
    order.lemma_multiset_has_no_duplicates_conv();
    assert(order.to_multiset().len() == order.len());
    assert(s.uncolored.to_multiset().len() == s.uncolored.len());
    assert(order.len() == s.uncolored.len());
    let n = order.last();
    let rest = order.drop_last();
    assert forall|x: u32| s.uncolored.contains(x) <==> order.contains(x) by {
        assert(order.contains(x) <==> order.to_multiset().count(x) > 0);
        assert(s.uncolored.contains(x) <==> s.uncolored.to_multiset().count(x) > 0);
    }
    assert(order.contains(order[order.len() - 1]));
    let at = choose|i: int| 0 <= i < s.uncolored.len() && s.uncolored[i] == n;
    assert(g.nodes.contains(s.uncolored[at]));
    assert(!s.painted(s.uncolored[at]));
    assert(!rest.contains(n)) by {
        if rest.contains(n) {
            let i = choose|i: int| 0 <= i < rest.len() && rest[i] == n;
            assert(order[i] == order[order.len() - 1]);
        }
    }
    assert forall|x: u32| #[trigger] s.uncolored.contains(x) <==> rest.contains(x) || x == n by {
        if order.contains(x) {
            let i = choose|i: int| 0 <= i < order.len() && order[i] == x;
            if i < order.len() - 1 {
                assert(rest[i] == x);
            }
        }
        if rest.contains(x) {
            let i = choose|i: int| 0 <= i < rest.len() && rest[i] == x;
            assert(order[i] == x);
        }
    }
    assert(rest.no_duplicates()) by {
        assert forall|i: int, j: int| 0 <= i < rest.len() && 0 <= j < rest.len() && i != j implies rest[i]
            != rest[j] by {
            assert(order[i] != order[j]);
        }
    }
    assert forall|i: int| 0 <= i < rest.len() implies s.uncolored.contains(#[trigger] rest[i]) by {
        assert(rest.contains(rest[i]));
    }
    lemma_fewer_waiting_valid(g, s, rest);
    let t = taken(s);
    assert forall|x: u32| #[trigger] t.painted(x) <==> s.painted(x) by {
        if t.painted(x) {
            let k = choose|k: int| t.painted_with(x, k);
            assert(s.painted_with(x, k));
        }
        if s.painted(x) {
            let k = choose|k: int| s.painted_with(x, k);
            assert(t.painted_with(x, k));
        }
    }
    assert(g.nodes.to_set().contains(n));
    assert(s.possible.dom().contains(n));
    assert(s.possible[n].finite());
    if s.possible[n].len() == 0 {
        let c = s.usage.len() as int;
        assert forall|i: int| 0 <= i < t.uncolored.len() implies !t.painted(
            #[trigger] t.uncolored[i],
        ) by {
            let x = rest[i];
            let j = choose|j: int| 0 <= j < s.uncolored.len() && s.uncolored[j] == x;
            assert(!s.painted(s.uncolored[j]));
        }
        lemma_new_color_valid(g, t);
        lemma_new_color_facts(g, t);
        let w = with_new_color(t);
        assert(free(g, w, n, c)) by {
            assert forall|m: u32| #[trigger] g.adjacent(n, m) implies !w.painted_with(m, c) by {
                assert(!t.painted_with(m, c));
            }
        }
        assert(paintable(g, w, n, c));
    } else {
        lemma_best_color_exists(g, t, n);
        let c = best_color(t, n);
        assert(t.lists(n, c));
        assert(c < t.usage.len());
        assert(free(g, t, n, c as int));
        assert(paintable(g, t, n, c as int));
    }
}

/// A round of the main loop takes a settled colouring to a settled
/// colouring in which one node fewer waits: the node that was taken has
/// joined a colour, at most one colour is new, and nothing else has moved.
pub proof fn lemma_step(g: GraphView, s: Coloring)
    requires
        settled(g, s),
        s.uncolored.len() > 0,
        s.usage.len() < 0x1_0000_0000,
    ensures
        settled(g, step(g, s)),
        step(g, s).uncolored.len() == s.uncolored.len() - 1,
        step(g, s).seeded == s.seeded,
        s.usage.len() <= step(g, s).usage.len() <= s.usage.len() + 1,
        forall|k: int|
            0 <= k < s.usage.len() ==> s.usage[k].is_prefix_of(#[trigger] step(g, s).usage[k]),
        forall|x: u32| #[trigger]
            step(g, s).painted(x) <==> s.painted(x) || x == arrange(s).last(),
        forall|x: u32, k: int| #[trigger] s.painted_with(x, k) ==> step(g, s).painted_with(x, k),
{
    lemma_round(g, s);
    let order = arrange(s);
    let n = order.last();
    let t = taken(s);
    let rest = order.drop_last();
    assert forall|x: u32| #[trigger] t.painted(x) <==> s.painted(x) by {
        if t.painted(x) {
            let k = choose|k: int| t.painted_with(x, k);
            assert(s.painted_with(x, k));
        }
        if s.painted(x) {
            let k = choose|k: int| s.painted_with(x, k);
            assert(t.painted_with(x, k));
        }
    }
    let r = step(g, s);
    if t.possible[n].len() == 0 {
        let w = with_new_color(t);
        let c = s.usage.len() as int;
        lemma_new_color_facts(g, t);
        lemma_paint_valid(g, w, n, c);
        lemma_paint_facts(g, w, n, c);
        assert(r == paint(g, w, n, c));
        assert forall|k: int| s.seeded <= k < r.usage.len() implies (#[trigger] r.usage[k]).len()
            > 0 by {
            if k < c {
                assert(r.usage[k] == w.usage[k]);
                assert(w.usage[k] == s.usage[k]);
            } else {
                assert(r.usage[c] == w.usage[c].push(n));
            }
        }
        assert forall|k: int| 0 <= k < s.usage.len() implies s.usage[k].is_prefix_of(
            #[trigger] r.usage[k],
        ) by {
            assert(r.usage[k] == w.usage[k]);
            assert(w.usage[k] == s.usage[k]);
        }
        assert forall|x: u32, k: int| #[trigger] s.painted_with(x, k) implies r.painted_with(x, k) by {
            assert(t.painted_with(x, k));
            assert(w.painted_with(x, k));
        }
        assert forall|x: u32| #[trigger] r.painted(x) <==> s.painted(x) || x == n by {
            assert(w.painted(x) <==> t.painted(x));
        }
    } else {
        let c = best_color(t, n) as int;
        lemma_paint_valid(g, t, n, c);
        lemma_paint_facts(g, t, n, c);
        assert(r == paint(g, t, n, c));
        assert forall|k: int| s.seeded <= k < r.usage.len() implies (#[trigger] r.usage[k]).len()
            > 0 by {
            assert(s.usage[k].len() > 0);
            if k == c {
                assert(r.usage[c] == s.usage[c].push(n));
            } else {
                assert(r.usage[k] == s.usage[k]);
            }
        }
        assert forall|k: int| 0 <= k < s.usage.len() implies s.usage[k].is_prefix_of(
            #[trigger] r.usage[k],
        ) by {
            if k == c {
                assert(r.usage[c] == s.usage[c].push(n));
            } else {
                assert(r.usage[k] == s.usage[k]);
            }
        }
        assert forall|x: u32, k: int| #[trigger] s.painted_with(x, k) implies r.painted_with(x, k) by {
            assert(t.painted_with(x, k));
        }
        assert forall|x: u32| #[trigger] r.painted(x) <==> s.painted(x) || x == n by {}
    }
    assert(r.uncolored == rest);
    assert forall|i: int| 0 <= i < r.uncolored.len() implies !r.painted(#[trigger] r.uncolored[i]) by {
        let x = rest[i];
        assert(rest.contains(x));
        assert(s.uncolored.contains(x));
        let j = choose|j: int| 0 <= j < s.uncolored.len() && s.uncolored[j] == x;
        assert(!s.painted(s.uncolored[j]));
    }
    assert forall|x: u32| #[trigger] g.nodes.contains(x) && !r.painted(x) implies r.uncolored.contains(
        x,
    ) by {
        assert(!s.painted(x));
        assert(s.uncolored.contains(x));
    }
}

/// A refusal while the first of the pre-configured IVs are seeded is the
/// refusal that seeding all of them ends with.
pub proof fn lemma_seed_all_stops(g: GraphView, s: Coloring, seeds: Seq<Set<u32>>, i: int)
    requires
        0 <= i <= seeds.len(),
        seed_all(g, s, seeds.take(i)) is Err,
    ensures
        seed_all(g, s, seeds) == seed_all(g, s, seeds.take(i)),
    decreases seeds.len() - i,
{
    if i < seeds.len() {
        assert(seeds.take(i + 1).drop_last() =~= seeds.take(i));
        lemma_seed_all_stops(g, s, seeds, i + 1);
    } else {
        assert(seeds.take(i) =~= seeds);
    }
}

/// Seeding one more pre-configured IV after the first `i`.
pub proof fn lemma_seed_all_next(g: GraphView, s: Coloring, seeds: Seq<Set<u32>>, i: int)
    requires
        0 <= i < seeds.len(),
    ensures
        seed_all(g, s, seeds.take(i + 1)) == match seed_all(g, s, seeds.take(i)) {
            Err(e) => Err(e),
            Ok(before) => seed_set(g, before, seeds[i]),
        },
{
    assert(seeds.take(i + 1).drop_last() =~= seeds.take(i));
    assert(seeds.take(i + 1).last() == seeds[i]);
}

/// Running no round changes nothing, and running one more round is a step
/// followed by the rest.
pub proof fn lemma_run_unfold(g: GraphView, s: Coloring, rounds: nat)
    ensures
        rounds == 0 ==> run(g, s, rounds) == s,
        rounds > 0 ==> run(g, s, rounds) == run(g, step(g, s), (rounds - 1) as nat),
{
}

/// A node that belongs to one of the first `i` pre-configured IVs is
/// painted by the seeding of one of them.
proof fn lemma_effective_first(g: GraphView, seeds: Seq<Set<u32>>, i: int, x: u32)
    requires
        0 <= i <= seeds.len(),
        g.nodes.contains(x),
        exists|j: int| 0 <= j < i && (#[trigger] seeds[j]).contains(x),
    ensures
        exists|j: int| 0 <= j < i && #[trigger] effective(g, seeds, j).contains(x),
    decreases i,
{
    let j = choose|j: int| 0 <= j < i && (#[trigger] seeds[j]).contains(x);
    if exists|l: int| 0 <= l < j && (#[trigger] seeds[l]).contains(x) {
        lemma_effective_first(g, seeds, j, x);
    } else {
        assert(effective(g, seeds, j).contains(x));
    }
}

/// How seeding ends: well, with a settled colouring in which each
/// pre-configured IV has its colour, and holds those of its members that
/// are nodes and belong to no IV before it; or at the first IV of whose
/// such members two must be kept apart, with two of them.
pub proof fn lemma_seed_all(g: GraphView, seeds: Seq<Set<u32>>)
    requires
        g.wf(),
        seeds.len() <= 0xFFFF_FFFF,
    ensures
        match seed_all(g, fresh(g), seeds) {
            Ok(t) => {
                &&& settled(g, t)
                &&& t.seeded == seeds.len()
                &&& t.usage.len() == seeds.len()
                &&& t.uncolored.len() <= g.nodes.len()
                &&& forall|i: int, x: u32|
                    0 <= i < seeds.len() ==> (#[trigger] t.painted_with(x, i) <==> effective(
                        g,
                        seeds,
                        i,
                    ).contains(x))
                &&& forall|i: int|
                    0 <= i < seeds.len() ==> !cramped(g, #[trigger] effective(g, seeds, i))
            },
            Err(e) => {
                &&& 0 <= e.iv < seeds.len()
                &&& effective(g, seeds, e.iv).contains(e.node)
                &&& effective(g, seeds, e.iv).contains(e.other)
                &&& g.adjacent(e.node, e.other)
                &&& forall|i: int| 0 <= i < e.iv ==> !cramped(g, #[trigger] effective(g, seeds, i))
            },
        },
    decreases seeds.len(),
{
    lemma_fresh_settled(g);
    if seeds.len() > 0 {
        let front = seeds.drop_last();
        let last = seeds.len() - 1;
        let members = seeds.last();
        lemma_seed_all(g, front);
        assert forall|i: int| 0 <= i < front.len() implies #[trigger] effective(g, front, i)
            == effective(g, seeds, i) by {
            assert forall|x: u32| effective(g, front, i).contains(x) == effective(
                g,
                seeds,
                i,
            ).contains(x) by {
                assert(front[i] == seeds[i]);
                if effective(g, front, i).contains(x) {
                    assert forall|j: int| 0 <= j < i implies !(#[trigger] seeds[j]).contains(x) by {
                        assert(front[j] == seeds[j]);
                    }
                }
                if effective(g, seeds, i).contains(x) {
                    assert forall|j: int| 0 <= j < i implies !(#[trigger] front[j]).contains(x) by {
                        assert(front[j] == seeds[j]);
                    }
                }
            }
            assert(effective(g, front, i) =~= effective(g, seeds, i));
        }
        match seed_all(g, fresh(g), front) {
            Ok(before) => {
                lemma_seed_set(g, before, members);
                assert forall|x: u32|
                    members.contains(x) && before.uncolored.contains(x) <==> effective(
                        g,
                        seeds,
                        last,
                    ).contains(x) by {
                    if members.contains(x) && before.uncolored.contains(x) {
                        let at = choose|at: int|
                            0 <= at < before.uncolored.len() && before.uncolored[at] == x;
                        assert(g.nodes.contains(before.uncolored[at]));
                        assert(!before.painted(before.uncolored[at]));
                        if exists|j: int| 0 <= j < last && (#[trigger] seeds[j]).contains(x) {
                            lemma_effective_first(g, seeds, last, x);
                            let j = choose|j: int|
                                0 <= j < last && #[trigger] effective(g, seeds, j).contains(x);
                            assert(effective(g, front, j) == effective(g, seeds, j));
                            assert(before.painted_with(x, j));
                        }
                    }
                    if effective(g, seeds, last).contains(x) {
                        if before.painted(x) {
                            let j = choose|j: int| before.painted_with(x, j);
                            assert(effective(g, front, j).contains(x));
                            assert(front[j] == seeds[j]);
                        }
                        assert(before.uncolored.contains(x));
                    }
                }
                match seed_set(g, before, members) {
                    Ok(t) => {
                        before.uncolored.lemma_filter_len(|n: u32| !members.contains(n));
                        assert forall|i: int, x: u32| 0 <= i < seeds.len() implies (
                        #[trigger] t.painted_with(x, i) <==> effective(g, seeds, i).contains(x)) by {
                            if i < last {
                                assert(t.usage[i] == before.usage[i]);
                                assert(before.painted_with(x, i) <==> effective(g, front, i).contains(
                                    x,
                                ));
                                assert(effective(g, front, i) == effective(g, seeds, i));
                            }
                        }
                        assert forall|i: int| 0 <= i < seeds.len() implies !cramped(
                            g,
                            #[trigger] effective(g, seeds, i),
                        ) by {
                            if i < last {
                                assert(effective(g, front, i) == effective(g, seeds, i));
                            } else if cramped(g, effective(g, seeds, i)) {
                                let (a, b) = choose|a: u32, b: u32|
                                    effective(g, seeds, i).contains(a) && effective(
                                        g,
                                        seeds,
                                        i,
                                    ).contains(b) && #[trigger] g.adjacent(a, b);
                                assert(members.contains(a) && before.uncolored.contains(a));
                                assert(members.contains(b) && before.uncolored.contains(b));
                                assert(crowded(g, before.uncolored, members));
                            }
                        }
                    },
                    Err(e) => {
                        assert(members.contains(e.node) && before.uncolored.contains(e.node));
                        assert(members.contains(e.other) && before.uncolored.contains(e.other));
                        assert forall|i: int| 0 <= i < e.iv implies !cramped(
                            g,
                            #[trigger] effective(g, seeds, i),
                        ) by {
                            assert(effective(g, front, i) == effective(g, seeds, i));
                        }
                    },
                }
            },
            Err(e) => {
                assert(effective(g, front, e.iv) == effective(g, seeds, e.iv));
                assert forall|i: int| 0 <= i < e.iv implies !cramped(
                    g,
                    #[trigger] effective(g, seeds, i),
                ) by {
                    assert(effective(g, front, i) == effective(g, seeds, i));
                }
            },
        }
    }
}

/// Rounds of the main loop take a settled colouring to a settled
/// colouring: as many nodes fewer wait as rounds were run, what was painted
/// stays painted, and every colour keeps its number and the nodes it held,
/// in their order.
pub proof fn lemma_run(g: GraphView, s: Coloring, rounds: nat)
    requires
        settled(g, s),
        rounds <= s.uncolored.len(),
        s.usage.len() + s.uncolored.len() <= 0xFFFF_FFFF,
    ensures
        settled(g, run(g, s, rounds)),
        run(g, s, rounds).uncolored.len() == s.uncolored.len() - rounds,
        run(g, s, rounds).seeded == s.seeded,
        s.usage.len() <= run(g, s, rounds).usage.len() <= s.usage.len() + rounds,
        forall|k: int|
            0 <= k < s.usage.len() ==> s.usage[k].is_prefix_of(#[trigger] run(g, s, rounds).usage[k]),
        forall|x: u32, k: int| #[trigger]
            s.painted_with(x, k) ==> run(g, s, rounds).painted_with(x, k),
    decreases rounds,
{
    if rounds > 0 {
        lemma_step(g, s);
        let next = step(g, s);
        lemma_run(g, next, (rounds - 1) as nat);
        let end = run(g, s, rounds);
        assert forall|k: int| 0 <= k < s.usage.len() implies s.usage[k].is_prefix_of(
            #[trigger] end.usage[k],
        ) by {
            assert(s.usage[k].is_prefix_of(next.usage[k]));
            assert(next.usage[k].is_prefix_of(end.usage[k]));
        }
        assert forall|x: u32, k: int| #[trigger] s.painted_with(x, k) implies end.painted_with(
            x,
            k,
        ) by {
            assert(next.painted_with(x, k));
        }
    }
}

/// The nodes without a colour that list colour `c`.
pub open spec fn live(s: Coloring, c: u32) -> Set<u32> {
    Set::new(|n: u32| s.lists(n, c) && !s.painted(n))
}

/// The count of every colour is the number of nodes painted with it plus
/// the number of nodes without a colour that list it.
pub open spec fn tallied(s: Coloring) -> bool {
    forall|c: int|
        0 <= c < s.usage.len() ==> #[trigger] s.max_count[c] == s.usage[c].len() + live(
            s,
            c as u32,
        ).len()
}

/// A painted node lists no colour that is newer than its own.
pub open spec fn aged(s: Coloring) -> bool {
    forall|m: u32, k: int, j: u32| #[trigger] s.painted_with(m, k) && #[trigger] s.lists(m, j) ==> j <= k
}

proof fn lemma_live_finite(g: GraphView, s: Coloring, c: u32)
    requires
        shaped(g, s),
    ensures
        live(s, c).finite(),
{
    lemma_candidates_finite(g, s, c);
    assert(live(s, c).subset_of(s.candidates(c)));
    lemma_set_subset_finite(s.candidates(c), live(s, c));
}

/// Painting a node with the newest colour, which it lists, keeps the counts
/// exact, as long as no painted node lists a colour newer than its own.
pub proof fn lemma_paint_newest_tallied(g: GraphView, s: Coloring, n: u32)
    requires
        paintable(g, s, n, s.usage.len() - 1),
        s.lists(n, (s.usage.len() - 1) as u32),
        tallied(s),
        aged(s),
    ensures
        tallied(paint(g, s, n, s.usage.len() - 1)),
        aged(paint(g, s, n, s.usage.len() - 1)),
{
    broadcast use vstd::set::axiom_set_remove_len;

    let c = s.usage.len() - 1;
    let t = paint(g, s, n, c);
    lemma_paint_facts(g, s, n, c);
    assert forall|m: u32, k: int, j: u32|
        #[trigger] t.painted_with(m, k) && #[trigger] t.lists(m, j) implies j <= k by {
        assert(s.lists(m, j));
        if s.painted_with(m, k) {
        } else {
            assert(j < s.usage.len());
        }
    }
    assert forall|k: int| 0 <= k < t.usage.len() implies #[trigger] t.max_count[k]
        == t.usage[k].len() + live(t, k as u32).len() by {
        lemma_live_finite(g, s, k as u32);
        let before = live(s, k as u32);
        assert(s.max_count[k] == s.usage[k].len() + before.len());
        assert(before.contains(n) == s.lists(n, k as u32));
        if k != c {
            assert(live(t, k as u32) =~= before.remove(n));
            assert(t.usage[k] == s.usage[k]);
        } else {
            let listed = |m: u32| s.lists(m, c as u32);
            let rival_set = Set::new(|m: u32| g.neighbors(n).contains(m) && listed(m));
            assert(g.nodes.to_set().contains(n));
            assert(ascending(g.adj[n]));
            lemma_filter_len_as_set(g.neighbors(n), listed);
            assert(rival_set.len() == rivals(g, s, n, c));
            assert(rival_set.subset_of(before)) by {
                assert forall|m: u32| rival_set.contains(m) implies before.contains(m) by {
                    if s.painted(m) {
                        let k2 = choose|k2: int| s.painted_with(m, k2);
                        assert(s.lists(m, c as u32));
                        assert(c <= k2);
                        assert(g.adjacent(n, m));
                        assert(!s.painted_with(m, c));
                    }
                }
            }
            assert(before.intersect(rival_set) =~= rival_set);
            vstd::set_lib::lemma_set_difference_len(before, rival_set);
            assert(!g.adjacent(n, n));
            assert(live(t, c as u32) =~= before.difference(rival_set).remove(n));
            assert(before.difference(rival_set).contains(n));
            assert(t.usage[c].len() == s.usage[c].len() + 1);
        }
    }
}

/// Introducing a colour while no waiting node is painted keeps the counts
/// exact.
pub proof fn lemma_new_color_tallied(g: GraphView, s: Coloring)
    requires
        valid(g, s),
        tallied(s),
        aged(s),
        s.usage.len() < 0x1_0000_0000,
        forall|i: int| 0 <= i < s.uncolored.len() ==> !s.painted(#[trigger] s.uncolored[i]),
    ensures
        tallied(open_seed(s)),
        aged(open_seed(s)),
{
    let w = with_new_color(s);
    let o = open_seed(s);
    let c = s.usage.len() as int;
    lemma_new_color_facts(g, s);
    assert forall|x: u32| #[trigger] o.painted(x) <==> s.painted(x) by {
        if o.painted(x) {
            let k = choose|k: int| o.painted_with(x, k);
            assert(w.painted_with(x, k));
        }
        if s.painted(x) {
            let k = choose|k: int| s.painted_with(x, k);
            assert(w.painted_with(x, k));
            assert(o.painted_with(x, k));
        }
    }
    assert forall|m: u32, k: int, j: u32|
        #[trigger] o.painted_with(m, k) && #[trigger] o.lists(m, j) implies j <= k by {
        assert(w.painted_with(m, k));
        assert(s.painted_with(m, k));
        assert(w.lists(m, j));
        if !s.lists(m, j) {
            let i = choose|i: int| 0 <= i < s.uncolored.len() && s.uncolored[i] == m;
            assert(!s.painted(s.uncolored[i]));
        }
    }
    assert forall|k: int| 0 <= k < o.usage.len() implies #[trigger] o.max_count[k]
        == o.usage[k].len() + live(o, k as u32).len() by {
        if k < c {
            let mine = live(o, k as u32);
            let theirs = live(s, k as u32);
            assert(mine =~= theirs) by {
                assert forall|x: u32| #[trigger] mine.contains(x) == theirs.contains(x) by {
                    assert(o.lists(x, k as u32) == w.lists(x, k as u32));
                }
            }
            assert(s.max_count[k] == s.usage[k].len() + live(s, k as u32).len());
            assert(o.usage[k] == s.usage[k]);
        } else {
            s.uncolored.unique_seq_to_set();
            assert(live(o, c as u32) =~= s.uncolored.to_set()) by {
                assert forall|x: u32| s.uncolored.to_set().contains(x) implies live(
                    o,
                    c as u32,
                ).contains(x) by {
                    let i = choose|i: int| 0 <= i < s.uncolored.len() && s.uncolored[i] == x;
                    assert(g.nodes.contains(s.uncolored[i]));
                    assert(!s.painted(s.uncolored[i]));
                    assert(g.nodes.to_set().contains(x));
                    assert(s.possible.dom().contains(x));
                    assert(w.lists(x, c as u32));
                }
                assert forall|x: u32| live(o, c as u32).contains(x) implies s.uncolored.to_set().contains(
                    x,
                ) by {
                    assert(w.lists(x, c as u32));
                    assert(!s.lists(x, c as u32));
                }
            }
        }
    }
}

/// The seeding of the members among the first `k` waiting nodes keeps the
/// counts exact.
pub proof fn lemma_seed_members_tallied(g: GraphView, s: Coloring, members: Set<u32>, k: nat)
    requires
        seeding(g, s, members, k as int),
        tallied(s),
        aged(s),
    ensures
        match seed_members(g, s, members, s.usage.len() - 1, k) {
            Ok(t) => tallied(t) && aged(t),
            Err(_) => true,
        },
    decreases k,
{
    let c = s.usage.len() - 1;
    if k > 0 {
        let n = s.uncolored[k - 1];
        lemma_seed_step(g, s, members, k as int);
        if members.contains(n) {
            lemma_clash_free(g, s, n, c);
            if clash(g, s, n, c) is None {
                assert(!s.painted(s.uncolored[k - 1]));
                assert(s.lists(s.uncolored[k - 1], c as u32));
                lemma_paint_newest_tallied(g, s, n);
                lemma_paint_facts(g, s, n, c);
                lemma_seed_members_tallied(g, paint(g, s, n, c), members, (k - 1) as nat);
            }
        } else {
            lemma_seed_members_tallied(g, s, members, (k - 1) as nat);
        }
    }
}

/// The seeding of one pre-configured IV keeps the counts exact.
pub proof fn lemma_seed_set_tallied(g: GraphView, s: Coloring, members: Set<u32>)
    requires
        settled(g, s),
        s.seeded == s.usage.len(),
        s.usage.len() < 0x1_0000_0000,
        tallied(s),
        aged(s),
    ensures
        match seed_set(g, s, members) {
            Ok(t) => tallied(t) && aged(t),
            Err(_) => true,
        },
{
    let c = s.usage.len() as int;
    let opened = open_seed(s);
    lemma_open_seed(g, s, members);
    lemma_new_color_tallied(g, s);
    lemma_seed_members_tallied(g, opened, members, opened.uncolored.len());
    match seed_members(g, opened, members, c, opened.uncolored.len()) {
        Err(_) => {},
        Ok(done) => {
            let t = Coloring { uncolored: others(done.uncolored, members), ..done };
            assert forall|x: u32| #[trigger] t.painted(x) <==> done.painted(x) by {
                if t.painted(x) {
                    let k = choose|k: int| t.painted_with(x, k);
                    assert(done.painted_with(x, k));
                }
                if done.painted(x) {
                    let k = choose|k: int| done.painted_with(x, k);
                    assert(t.painted_with(x, k));
                }
            }
            assert forall|k: int| 0 <= k < t.usage.len() implies #[trigger] t.max_count[k]
                == t.usage[k].len() + live(t, k as u32).len() by {
                assert(live(t, k as u32) =~= live(done, k as u32));
                assert(done.max_count[k] == done.usage[k].len() + live(done, k as u32).len());
            }
            assert forall|m: u32, k: int, j: u32|
                #[trigger] t.painted_with(m, k) && #[trigger] t.lists(m, j) implies j <= k by {
                assert(done.painted_with(m, k) && done.lists(m, j));
            }
        },
    }
}

/// Seeding keeps the counts exact: when it is done, the count of every
/// colour is the number of nodes painted with it plus the number of nodes
/// without a colour that list it.
pub proof fn lemma_seed_all_tallied(g: GraphView, seeds: Seq<Set<u32>>)
    requires
        g.wf(),
        seeds.len() <= 0xFFFF_FFFF,
    ensures
        match seed_all(g, fresh(g), seeds) {
            Ok(t) => tallied(t) && aged(t),
            Err(_) => true,
        },
    decreases seeds.len(),
{
    if seeds.len() > 0 {
        let front = seeds.drop_last();
        lemma_seed_all(g, front);
        lemma_seed_all_tallied(g, front);
        match seed_all(g, fresh(g), front) {
            Ok(before) => {
                lemma_seed_set_tallied(g, before, seeds.last());
            },
            Err(_) => {},
        }
    }
}

} // verus!
