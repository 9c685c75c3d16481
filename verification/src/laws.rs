use crate::coloring::arrange;
use crate::coloring::best_color;
use crate::coloring::Coloring;
use crate::coloring::colors_all;
use crate::coloring::colors_properly;
use crate::coloring::cramped;
use crate::coloring::effective;
use crate::coloring::fresh;
use crate::coloring::keeps_seeds;
use crate::coloring::paint;
use crate::coloring::refuses;
use crate::coloring::roomy;
use crate::coloring::run;
use crate::coloring::seeds_valid;
use crate::coloring::seed_all;
use crate::coloring::solution;
use crate::coloring::step;
use crate::db::catalog_of;
use crate::db::joins;
use crate::db::pairs_agree;
use crate::db::pairs_known;
use crate::db::same_counts;
use crate::db::well_formed;
use crate::db::with_pair;
use crate::db::with_pairs;
use crate::db::with_rows;
use crate::graph::GraphView;
use crate::infusion::InfusionView;
use crate::order::lemma_ascending_unique;
use crate::soundness::free;
use crate::soundness::lemma_paint_facts;
use crate::soundness::lemma_paint_valid;
use crate::soundness::lemma_round;
use crate::soundness::lemma_run;
use crate::soundness::lemma_seed_all;
use crate::soundness::lemma_seed_all_tallied;
use crate::soundness::lemma_step;
use crate::soundness::lemma_unpainted_finite;
use crate::soundness::live;
use crate::soundness::paintable;
use crate::soundness::proper;
use crate::soundness::settled;
use crate::soundness::sound;
use crate::soundness::taken;
use crate::soundness::unpainted;
use crate::soundness::valid;
use vstd::prelude::*;

verus! {

/// After a node was painted, no two adjacent nodes share a colour.
pub proof fn law_proper_coloring(g: GraphView, s: Coloring, n: u32, c: int)
    requires
        paintable(g, s, n, c),
    ensures
        proper(g, paint(g, s, n, c)),
        forall|a: u32, b: u32, k: int|
            0 <= k < paint(g, s, n, c).usage.len() && (#[trigger] paint(g, s, n, c).usage[k]).contains(
                a,
            ) && paint(g, s, n, c).usage[k].contains(b) ==> !#[trigger] g.adjacent(a, b),
{
    lemma_paint_valid(g, s, n, c);
    let t = paint(g, s, n, c);
    assert forall|a: u32, b: u32, k: int|
        0 <= k < t.usage.len() && (#[trigger] t.usage[k]).contains(a) && t.usage[k].contains(
            b,
        ) implies !#[trigger] g.adjacent(a, b) by {
        assert(t.painted_with(a, k) && t.painted_with(b, k));
    }
}

/// After a node was painted, a colour that a node still lists is the colour
/// of none of its neighbours.
pub proof fn law_possible_colors_sound(g: GraphView, s: Coloring, n: u32, c: int)
    requires
        paintable(g, s, n, c),
    ensures
        sound(g, paint(g, s, n, c)),
        forall|x: u32, m: u32, k: u32|
            paint(g, s, n, c).possible.contains_key(x) && #[trigger] paint(
                g,
                s,
                n,
                c,
            ).possible[x].contains(k) && #[trigger] g.adjacent(x, m) ==> !(k < paint(
                g,
                s,
                n,
                c,
            ).usage.len() && paint(g, s, n, c).usage[k as int].contains(m)),
{
    lemma_paint_valid(g, s, n, c);
    let t = paint(g, s, n, c);
    assert forall|x: u32, m: u32, k: u32|
        t.possible.contains_key(x) && #[trigger] t.possible[x].contains(k) && #[trigger] g.adjacent(
            x,
            m,
        ) implies !(k < t.usage.len() && t.usage[k as int].contains(m)) by {
        assert(t.lists(x, k));
        assert(!t.painted_with(m, k as int));
    }
}

/// When the pre-configured IVs are seeded, the count of every colour is
/// the number of nodes painted with it plus the number of waiting nodes
/// that list it. In the rounds that follow the count may fall behind: a
/// colour added for a node is counted without that node, and a painted
/// node that still lists a colour is counted out a second time when one of
/// its neighbours takes that colour.
pub proof fn law_max_count_accurate(g: GraphView, seeds: Seq<Set<u32>>, c: int)
    requires
        g.wf(),
        seeds.len() <= 0xFFFF_FFFF,
    ensures
        match seed_all(g, fresh(g), seeds) {
            Ok(t) => 0 <= c < t.usage.len() ==> t.max_count[c] == t.usage[c].len() + Set::new(
                |n: u32| t.uncolored.contains(n) && t.possible[n].contains(c as u32),
            ).len(),
            Err(_) => true,
        },
{
    lemma_seed_all(g, seeds);
    lemma_seed_all_tallied(g, seeds);
    match seed_all(g, fresh(g), seeds) {
        Ok(t) => {
            if 0 <= c < t.usage.len() {
                let waiting = Set::new(
                    |n: u32| t.uncolored.contains(n) && t.possible[n].contains(c as u32),
                );
                assert(t.max_count[c] == t.usage[c].len() + live(t, c as u32).len());
                assert(waiting =~= live(t, c as u32)) by {
                    assert forall|n: u32| waiting.contains(n) <==> live(t, c as u32).contains(
                        n,
                    ) by {
                        if waiting.contains(n) {
                            let i = choose|i: int| 0 <= i < t.uncolored.len() && t.uncolored[i] == n;
                            assert(g.nodes.contains(t.uncolored[i]));
                            assert(!t.painted(t.uncolored[i]));
                            assert(g.nodes.to_set().contains(n));
                            assert(t.possible.dom().contains(n));
                        }
                        if live(t, c as u32).contains(n) {
                            assert(t.possible.dom().contains(n));
                            assert(g.nodes.to_set().contains(n));
                            assert(g.nodes.contains(n));
                        }
                    }
                }
            }
        },
        Err(_) => {},
    }
}

/// At every moment of solving, the count of a colour is no more than the
/// number of nodes that list it, and falls short of that number by no more
/// than the number of nodes that have a colour.
pub proof fn law_max_count_bounded(g: GraphView, s: Coloring, c: int)
    requires
        valid(g, s),
        0 <= c < s.usage.len(),
    ensures
        s.max_count[c] <= s.candidates(c as u32).len(),
        s.max_count[c] >= s.candidates(c as u32).len() - (g.nodes.len() - unpainted(g, s).len()),
        unpainted(g, s).len() <= g.nodes.len(),
{
    lemma_unpainted_finite(g, s);
    assert(s.max_count[c] <= s.candidates(c as u32).len() && s.max_count[c] - s.candidates(
        c as u32,
    ).len() >= unpainted(g, s).len() - g.nodes.len());
}

/// Painting a node raises no node's count of uncoloured neighbours.
pub proof fn law_adjacent_uncolored_falls(g: GraphView, s: Coloring, n: u32, c: int, m: u32)
    requires
        paintable(g, s, n, c),
        g.nodes.contains(m),
    ensures
        paint(g, s, n, c).adjacent_uncolored[m] <= s.adjacent_uncolored[m],
        paint(g, s, n, c).adjacent_uncolored[m] >= 0,
{
    lemma_paint_valid(g, s, n, c);
    assert(g.nodes.to_set().contains(m));
    assert(s.adjacent_uncolored.dom().contains(m));
    assert(paint(g, s, n, c).adjacent_uncolored.contains_key(m));
}

/// Each round of the main loop leaves exactly one node fewer waiting.
pub proof fn law_round_shortens(g: GraphView, s: Coloring)
    requires
        settled(g, s),
        s.uncolored.len() > 0,
        s.usage.len() < 0x1_0000_0000,
    ensures
        step(g, s).uncolored.len() == s.uncolored.len() - 1,
        settled(g, step(g, s)),
{
    lemma_step(g, s);
}

/// A graph is fixed by its nodes and its edges: the order of the lists is
/// no choice.
pub proof fn law_graph_unique(first: GraphView, second: GraphView)
    requires
        first.wf(),
        second.wf(),
        first.nodes.to_set() == second.nodes.to_set(),
        forall|a: u32, b: u32| first.adjacent(a, b) == second.adjacent(a, b),
    ensures
        first == second,
{
    lemma_ascending_unique(first.nodes, second.nodes);
    assert(first.adj.dom() =~= second.adj.dom());
    assert forall|n: u32| #[trigger] first.adj.contains_key(n) implies first.adj[n]
        == second.adj[n] by {
        assert(second.adj.contains_key(n));
        assert(first.adj[n].to_set() =~= second.adj[n].to_set()) by {
            assert forall|m: u32| first.adj[n].contains(m) == second.adj[n].contains(m) by {
                assert(first.adjacent(n, m) == second.adjacent(n, m));
            }
        }
        lemma_ascending_unique(first.adj[n], second.adj[n]);
    }
    assert(first.adj =~= second.adj);
    assert(first =~~= second);
}

/// The same catalogue, the same infusions to place and the same
/// pre-configured IVs give the same graph, and the same answer.
pub proof fn law_deterministic(
    catalog: Map<u32, InfusionView>,
    universe: Set<u32>,
    first: GraphView,
    second: GraphView,
    seeds: Seq<Set<u32>>,
)
    requires
        first.models(catalog, universe),
        second.models(catalog, universe),
    ensures
        first == second,
        solution(first, seeds) == solution(second, seeds),
{
    law_graph_unique(first, second);
}

/// What solving yields. If no pre-configured IV has two members that must
/// be kept apart, every node gets exactly one colour, no two adjacent
/// nodes share one, each pre-configured IV keeps its members, and every
/// colour after those of the IVs is in use. If not, the first such IV is
/// refused, with two such members.
pub proof fn law_solution(g: GraphView, seeds: Seq<Set<u32>>)
    requires
        g.wf(),
        seeds.len() + g.nodes.len() <= 0xFFFF_FFFF,
    ensures
        solution(g, seeds) is Ok <==> roomy(g, seeds),
        match solution(g, seeds) {
            Ok(usage) => colors_all(g, usage) && colors_properly(g, usage) && keeps_seeds(
                g,
                seeds,
                usage,
            ),
            Err(e) => refuses(g, seeds, e),
        },
{
    lemma_seed_all(g, seeds);
    match seed_all(g, fresh(g), seeds) {
        Ok(seeded) => {
            lemma_run(g, seeded, seeded.uncolored.len());
            let end = run(g, seeded, seeded.uncolored.len());
            let usage = end.usage;
            assert(end.uncolored.len() == 0);
            assert forall|n: u32| #[trigger] g.nodes.contains(n) implies exists|c: int|
                0 <= c < usage.len() && (#[trigger] usage[c]).contains(n) by {
                if !end.painted(n) {
                    assert(end.uncolored.contains(n));
                }
                let c = choose|c: int| end.painted_with(n, c);
                assert(usage[c].contains(n));
            }
            assert forall|n: u32, c: int, d: int|
                0 <= c < usage.len() && 0 <= d < usage.len() && #[trigger] usage[c].contains(n)
                    && #[trigger] usage[d].contains(n) implies c == d by {
                assert(end.painted_with(n, c) && end.painted_with(n, d));
            }
            assert forall|c: int, a: u32, b: u32|
                0 <= c < usage.len() && (#[trigger] usage[c]).contains(a) && usage[c].contains(
                    b,
                ) implies !#[trigger] g.adjacent(a, b) by {
                assert(end.painted_with(a, c) && end.painted_with(b, c));
            }
            assert forall|i: int, x: u32|
                0 <= i < seeds.len() && #[trigger] effective(g, seeds, i).contains(
                    x,
                ) implies usage[i].contains(x) by {
                assert(seeded.painted_with(x, i));
                assert(end.painted_with(x, i));
            }
        },
        Err(e) => {
            if roomy(g, seeds) {
                assert(!cramped(g, effective(g, seeds, e.iv)));
            }
        },
    }
}

/// Where every member of a pre-configured IV is a node and none belongs to
/// two of them, each member is on its IV in the answer.
pub proof fn law_seeds_preserved(g: GraphView, seeds: Seq<Set<u32>>, i: int, x: u32)
    requires
        g.wf(),
        seeds.len() + g.nodes.len() <= 0xFFFF_FFFF,
        seeds_valid(g, seeds),
        0 <= i < seeds.len(),
        seeds[i].contains(x),
    ensures
        match solution(g, seeds) {
            Ok(usage) => i < usage.len() && usage[i].contains(x),
            Err(_) => true,
        },
{
    law_solution(g, seeds);
    assert(effective(g, seeds, i).contains(x));
}

/// A pair with its two infusions in the other order.
pub open spec fn swapped(pair: (u32, u32, u32, u32, u32)) -> (u32, u32, u32, u32, u32) {
    (pair.1, pair.0, pair.2, pair.3, pair.4)
}

proof fn lemma_with_pair_swapped(catalog: Map<u32, InfusionView>, pair: (u32, u32, u32, u32, u32))
    requires
        pair.0 != pair.1,
    ensures
        with_pair(catalog, swapped(pair)) == with_pair(catalog, pair),
{
    assert(with_pair(catalog, swapped(pair)) =~= with_pair(catalog, pair));
}

proof fn lemma_with_pairs_swapped(
    catalog: Map<u32, InfusionView>,
    pairs: Seq<(u32, u32, u32, u32, u32)>,
    i: int,
)
    requires
        0 <= i < pairs.len(),
        pairs[i].0 != pairs[i].1,
    ensures
        with_pairs(catalog, pairs.update(i, swapped(pairs[i]))) == with_pairs(catalog, pairs),
    decreases pairs.len(),
{
    let other = pairs.update(i, swapped(pairs[i]));
    if i == pairs.len() - 1 {
        assert(other.drop_last() =~= pairs.drop_last());
        lemma_with_pair_swapped(with_pairs(catalog, pairs.drop_last()), pairs[i]);
    } else {
        assert(other.drop_last() =~= pairs.drop_last().update(i, swapped(pairs[i])));
        assert(pairs.drop_last()[i] == pairs[i]);
        lemma_with_pairs_swapped(catalog, pairs.drop_last(), i);
    }
}

/// Which of the two infusions of a pair is named first makes no
/// difference: the rows and pairs are a catalogue or not as before, and the
/// catalogue is the same. So are the graph, and the answer.
pub proof fn law_symmetry(
    rows: Seq<(u32, Seq<char>, u32)>,
    pairs: Seq<(u32, u32, u32, u32, u32)>,
    i: int,
)
    requires
        0 <= i < pairs.len(),
    ensures
        well_formed(rows, pairs.update(i, swapped(pairs[i]))) == well_formed(rows, pairs),
        well_formed(rows, pairs) ==> catalog_of(rows, pairs.update(i, swapped(pairs[i])))
            == catalog_of(rows, pairs),
{
    let other = pairs.update(i, swapped(pairs[i]));
    assert(pairs_known(rows, other) == pairs_known(rows, pairs)) by {
        if pairs_known(rows, pairs) {
            assert forall|k: int| 0 <= k < other.len() implies (#[trigger] other[k]).0 != other[k].1
                && with_rows(rows).contains_key(other[k].0) && with_rows(rows).contains_key(
                other[k].1,
            ) by {
                assert(pairs[k].0 != pairs[k].1);
            }
        }
        if pairs_known(rows, other) {
            assert forall|k: int| 0 <= k < pairs.len() implies (#[trigger] pairs[k]).0 != pairs[k].1
                && with_rows(rows).contains_key(pairs[k].0) && with_rows(rows).contains_key(
                pairs[k].1,
            ) by {
                assert(other[k].0 != other[k].1);
            }
        }
    }
    assert(pairs_agree(other) == pairs_agree(pairs)) by {
        if pairs_agree(pairs) {
            assert forall|a: int, b: int|
                0 <= a < b < other.len() && joins(
                    #[trigger] other[a],
                    (#[trigger] other[b]).0,
                    other[b].1,
                ) implies same_counts(other[a], other[b]) by {
                assert(joins(pairs[a], pairs[b].0, pairs[b].1));
                assert(same_counts(pairs[a], pairs[b]));
            }
        }
        if pairs_agree(other) {
            assert forall|a: int, b: int|
                0 <= a < b < pairs.len() && joins(
                    #[trigger] pairs[a],
                    (#[trigger] pairs[b]).0,
                    pairs[b].1,
                ) implies same_counts(pairs[a], pairs[b]) by {
                assert(joins(other[a], other[b].0, other[b].1));
                assert(same_counts(other[a], other[b]));
            }
        }
    }
    if well_formed(rows, pairs) {
        assert(pairs[i].0 != pairs[i].1);
        lemma_with_pairs_swapped(with_rows(rows), pairs, i);
    }
}

/// Where every node is a member of a pre-configured IV, the answer has
/// exactly the pre-configured IVs. So an empty problem without
/// pre-configured IVs has an empty answer.
pub proof fn law_seeded_only(g: GraphView, seeds: Seq<Set<u32>>)
    requires
        g.wf(),
        seeds.len() + g.nodes.len() <= 0xFFFF_FFFF,
        forall|n: u32| #[trigger]
            g.nodes.contains(n) ==> exists|i: int|
                0 <= i < seeds.len() && (#[trigger] seeds[i]).contains(n),
    ensures
        match solution(g, seeds) {
            Ok(usage) => usage.len() == seeds.len(),
            Err(_) => true,
        },
{
    law_solution(g, seeds);
    match solution(g, seeds) {
        Ok(usage) => {
            if usage.len() > seeds.len() {
                let c = seeds.len() as int;
                assert(usage[c].len() > 0);
                let n = usage[c][0];
                assert(usage[c].contains(n));
                assert(g.nodes.contains(usage[c][0]));
                lemma_first_seed(g, seeds, n);
                let i = choose|i: int| 0 <= i < seeds.len() && effective(g, seeds, i).contains(n);
                assert(usage[i].contains(n));
            }
        },
        Err(_) => {},
    }
}

/// A node that is a member of a pre-configured IV is painted by the
/// seeding of the first IV that it is a member of.
proof fn lemma_first_seed(g: GraphView, seeds: Seq<Set<u32>>, n: u32)
    requires
        g.nodes.contains(n),
        exists|i: int| 0 <= i < seeds.len() && (#[trigger] seeds[i]).contains(n),
    ensures
        exists|i: int| 0 <= i < seeds.len() && #[trigger] effective(g, seeds, i).contains(n),
    decreases seeds.len(),
{
    let i = choose|i: int| 0 <= i < seeds.len() && (#[trigger] seeds[i]).contains(n);
    if exists|j: int| 0 <= j < i && (#[trigger] seeds[j]).contains(n) {
        let front = seeds.take(i);
        let j = choose|j: int| 0 <= j < i && (#[trigger] seeds[j]).contains(n);
        assert(front[j].contains(n));
        lemma_first_seed(g, front, n);
        let k = choose|k: int| 0 <= k < front.len() && #[trigger] effective(g, front, k).contains(n);
        assert(front[k] == seeds[k]);
        assert forall|l: int| 0 <= l < k implies !(#[trigger] seeds[l]).contains(n) by {
            assert(front[l] == seeds[l]);
        }
        assert(effective(g, seeds, k).contains(n));
    } else {
        assert(effective(g, seeds, i).contains(n));
    }
}

/// A node without neighbours joins a colour that is in use, if there is
/// one: no colour is added for it.
pub proof fn law_lone_node_joins(g: GraphView, s: Coloring)
    requires
        settled(g, s),
        s.uncolored.len() > 0,
        0 < s.usage.len() < 0x1_0000_0000,
        g.neighbors(arrange(s).last()).len() == 0,
    ensures
        step(g, s).usage.len() == s.usage.len(),
{
    lemma_round(g, s);
    let n = arrange(s).last();
    let at = choose|i: int| 0 <= i < s.uncolored.len() && s.uncolored[i] == n;
    assert(free(g, s, s.uncolored[at], 0)) by {
        assert forall|m: u32| #[trigger] g.adjacent(n, m) implies !s.painted_with(m, 0) by {
            let k = choose|k: int| 0 <= k < g.neighbors(n).len() && g.neighbors(n)[k] == m;
        }
    }
    assert(!s.painted(s.uncolored[at]));
    let first = 0int;
    assert(s.lists(s.uncolored[at], first as u32));
    assert(g.nodes.to_set().contains(n));
    assert(s.possible.dom().contains(n));
    assert(s.possible[n].finite());
    assert(s.possible[n].contains(0u32));
    assert(s.possible[n].len() > 0);
    lemma_paint_facts(g, taken(s), n, best_color(taken(s), n) as int);
}

} // verus!
