use itertools::Itertools;
use std::collections::HashMap;
use vstd::prelude::*;
use vstd::std_specs::iter::IteratorSpec;

verus! {

/// A sequence of ids in strictly ascending order.
pub open spec fn ascending(s: Seq<u32>) -> bool {
    forall|i: int, j: int| 0 <= i < j < s.len() ==> s[i] < s[j]
}

/// A sequence of ids in ascending order, repetitions allowed.
pub open spec fn nondecreasing(s: Seq<u32>) -> bool {
    forall|i: int, j: int| 0 <= i < j < s.len() ==> s[i] <= s[j]
}

/// Sorts ids with `slice::sort_unstable`: afterwards the vector holds the
/// same ids, each as often as before, smallest first.
#[verifier::external_body]
pub(crate) fn sort_ids(ids: &mut Vec<u32>)
    ensures
        final(ids)@.to_multiset() == old(ids)@.to_multiset(),
        nondecreasing(final(ids)@),
{
    ids.sort_unstable();
}

/// A strictly ascending sequence holds nothing twice.
pub proof fn lemma_ascending_no_duplicates(s: Seq<u32>)
    requires
        ascending(s),
    ensures
        s.no_duplicates(),
{
    assert forall|i: int, j: int| 0 <= i < s.len() && 0 <= j < s.len() && i != j implies s[i]
        != s[j] by {
        if i < j {
            assert(s[i] < s[j]);
        } else {
            assert(s[j] < s[i]);
        }
    }
}

/// Two strictly ascending sequences with the same elements are the same
/// sequence.
pub proof fn lemma_ascending_unique(s: Seq<u32>, t: Seq<u32>)
    requires
        ascending(s),
        ascending(t),
        s.to_set() == t.to_set(),
    ensures
        s == t,
    decreases s.len(),
{
    lemma_ascending_no_duplicates(s);
    lemma_ascending_no_duplicates(t);
    s.unique_seq_to_set();
    t.unique_seq_to_set();
    assert(s.len() == t.len());
    if s.len() > 0 {
        let a = s.last();
        let b = t.last();
        assert(s.to_set().contains(a));
        assert(t.to_set().contains(b));
        assert(t.contains(a));
        assert(s.contains(b));
        let ia = choose|i: int| 0 <= i < t.len() && t[i] == a;
        let ib = choose|i: int| 0 <= i < s.len() && s[i] == b;
        assert(a <= b) by {
            if ia < t.len() - 1 {
                assert(t[ia] < t[t.len() - 1]);
            }
        }
        assert(b <= a) by {
            if ib < s.len() - 1 {
                assert(s[ib] < s[s.len() - 1]);
            }
        }
        let s1 = s.drop_last();
        let t1 = t.drop_last();
        assert(s1.to_set() =~= t1.to_set()) by {
            assert forall|x: u32| s1.to_set().contains(x) <==> t1.to_set().contains(x) by {
                if s1.contains(x) {
                    let i = choose|i: int| 0 <= i < s1.len() && s1[i] == x;
                    assert(s[i] == x);
                    assert(s[i] < s[s.len() - 1]);
                    assert(s.to_set().contains(x));
                    assert(t.contains(x));
                    let j = choose|j: int| 0 <= j < t.len() && t[j] == x;
                    assert(j < t.len() - 1);
                    assert(t1[j] == x);
                }
                if t1.contains(x) {
                    let i = choose|i: int| 0 <= i < t1.len() && t1[i] == x;
                    assert(t[i] == x);
                    assert(t[i] < t[t.len() - 1]);
                    assert(t.to_set().contains(x));
                    assert(s.contains(x));
                    let j = choose|j: int| 0 <= j < s.len() && s[j] == x;
                    assert(j < s.len() - 1);
                    assert(s1[j] == x);
                }
            }
        }
        lemma_ascending_unique(s1, t1);
        assert(s =~= s1.push(a));
        assert(t =~= t1.push(b));
    } else {
        assert(s =~= t);
    }
}

/// Keeping only some elements of a strictly ascending sequence leaves it
/// strictly ascending.
pub proof fn lemma_filter_ascending(s: Seq<u32>, keep: spec_fn(u32) -> bool)
    requires
        ascending(s),
    ensures
        ascending(s.filter(keep)),
    decreases s.len(),
{
    reveal(Seq::filter);
    if s.len() > 0 {
        let front = s.drop_last();
        lemma_filter_ascending(front, keep);
        let kept = front.filter(keep);
        if keep(s.last()) {
            assert forall|i: int, j: int| 0 <= i < j < kept.push(s.last()).len() implies kept.push(
                s.last(),
            )[i] < kept.push(s.last())[j] by {
                if j == kept.len() {
                    assert(kept.contains(kept[i]));
                    front.lemma_filter_contains_rev(keep, kept[i]);
                    let k = choose|k: int| 0 <= k < front.len() && front[k] == kept[i];
                    assert(s[k] < s[s.len() - 1]);
                } else {
                    assert(kept[i] < kept[j]);
                }
            }
        }
    }
}

/// Dropping repeated neighbours from a sorted vector leaves it strictly
/// ascending, with the same elements.
pub fn dedup_sorted(ids: &Vec<u32>) -> (out: Vec<u32>)
    requires
        nondecreasing(ids@),
    ensures
        ascending(out@),
        out@.to_set() == ids@.to_set(),
{
    let mut out: Vec<u32> = Vec::new();
    let mut i: usize = 0;
    while i < ids.len()
        invariant
            0 <= i <= ids.len(),
            nondecreasing(ids@),
            ascending(out@),
            out@.to_set() == ids@.take(i as int).to_set(),
            out@.len() > 0 ==> i > 0 && out@.last() == ids@[i - 1],
            i > 0 ==> out@.len() > 0,
        decreases ids.len() - i,
    {
        let x = ids[i];
        let ghost before = out@;
        if out.len() == 0 || out[out.len() - 1] != x {
            out.push(x);
            proof {
                assert forall|a: int, b: int| 0 <= a < b < out@.len() implies out@[a] < out@[b] by {
                    if b == out@.len() - 1 {
                        if a < before.len() {
                            assert(before[a] <= before.last());
                            assert(ids@[i - 1] <= ids@[i as int]);
                        }
                    } else {
                        assert(before[a] < before[b]);
                    }
                }
            }
        }
        proof {
            let pre = ids@.take(i as int);
            let nxt = ids@.take(i + 1);
            assert(nxt =~= pre.push(x));
            assert(out@.to_set() =~= nxt.to_set()) by {
                assert forall|y: u32| out@.to_set().contains(y) <==> nxt.to_set().contains(y) by {
                    if out@.contains(y) {
                        let k = choose|k: int| 0 <= k < out@.len() && out@[k] == y;
                        if k < before.len() {
                            assert(before.contains(y));
                            assert(before.to_set().contains(y));
                            assert(pre.contains(y));
                            let m = choose|m: int| 0 <= m < pre.len() && pre[m] == y;
                            assert(nxt[m] == y);
                        } else {
                            assert(nxt[i as int] == y);
                        }
                    }
                    if nxt.contains(y) {
                        let m = choose|m: int| 0 <= m < nxt.len() && nxt[m] == y;
                        if m < i {
                            assert(pre[m] == y);
                            assert(pre.to_set().contains(y));
                            assert(before.contains(y));
                            let k = choose|k: int| 0 <= k < before.len() && before[k] == y;
                            assert(out@[k] == y);
                        } else {
                            assert(out@.last() == y);
                        }
                    }
                }
            }
        }
        i += 1;
    }
    proof {
        assert(ids@.take(ids.len() as int) =~= ids@);
    }
    out
}

/// The keys of a map, smallest first.
pub fn sorted_keys<V>(m: &HashMap<u32, V>) -> (keys: Vec<u32>)
    ensures
        ascending(keys@),
        keys@.to_set() == m@.dom(),
{
    broadcast use vstd::std_specs::hash::group_hash_axioms;

    let mut keys: Vec<u32> = Vec::new();
    let ghost all = m.keys().remaining();
    for k in it: m.keys()
        invariant
            it.seq() == all,
            keys@.len() == it.index(),
            keys@ == all.take(keys@.len() as int).unref(),
    {
        keys.push(*k);
        proof {
            assert(all.take(it.index() + 1) =~= all.take(it.index()).push(k));
            assert(keys@ =~= all.take(it.index() + 1).unref());
        }
    }
    proof {
        assert(keys@.len() == all.len());
        assert(all.take(all.len() as int) =~= all);
        assert(keys@.to_set() == m@.dom());
    }
    let ghost unsorted = keys@;
    sort_ids(&mut keys);
    proof {
        broadcast use vstd::seq_lib::group_to_multiset_ensures;

        assert(keys@.to_set() =~= unsorted.to_set()) by {
            assert forall|x: u32| keys@.to_set().contains(x) <==> unsorted.to_set().contains(x) by {
                assert(keys@.contains(x) <==> keys@.to_multiset().count(x) > 0);
                assert(unsorted.contains(x) <==> unsorted.to_multiset().count(x) > 0);
            }
        }
        assert(unsorted.no_duplicates()) by {
            let r = all;
            assert(r.no_duplicates());
            assert forall|i: int, j: int|
                0 <= i < unsorted.len() && 0 <= j < unsorted.len() && i != j implies unsorted[i]
                != unsorted[j] by {
                assert(unsorted[i] == *r[i]);
                assert(unsorted[j] == *r[j]);
                assert(r[i] != r[j]);
            }
        }
        unsorted.lemma_multiset_has_no_duplicates();
        keys@.lemma_multiset_has_no_duplicates_conv();
        assert forall|i: int, j: int| 0 <= i < j < keys@.len() implies keys@[i] < keys@[j] by {
            assert(keys@[i] <= keys@[j]);
            assert(keys@[i] != keys@[j]);
        }
    }
    keys
}

/// The pairs of `s` whose second component is `key`, in their order.
pub open spec fn with_key(s: Seq<(u32, i64)>, key: i64) -> Seq<(u32, i64)> {
    s.filter(|p: (u32, i64)| p.1 == key)
}

/// `Itertools::sorted_by_key` on pairs, with the second component as the
/// key: the keys ascend, and the pairs of any one key stand as they stood.
#[verifier::external_body]
pub(crate) fn sorted_by_second(pairs: Vec<(u32, i64)>) -> (sorted: Vec<(u32, i64)>)
    ensures
        forall|i: int, j: int| 0 <= i < j < sorted@.len() ==> sorted@[i].1 <= sorted@[j].1,
        forall|key: i64| #[trigger] with_key(sorted@, key) == with_key(pairs@, key),
{
    pairs.into_iter().sorted_by_key(|p| p.1).collect()
}

/// Pairs whose first components ascend strictly.
pub open spec fn ascending_firsts(s: Seq<(u32, i64)>) -> bool {
    forall|i: int, j: int| 0 <= i < j < s.len() ==> s[i].0 < s[j].0
}

/// Keeping only some pairs of a sequence whose first components ascend
/// leaves them ascending.
pub proof fn lemma_filter_ascending_firsts(s: Seq<(u32, i64)>, keep: spec_fn((u32, i64)) -> bool)
    requires
        ascending_firsts(s),
    ensures
        ascending_firsts(s.filter(keep)),
    decreases s.len(),
{
    reveal(Seq::filter);
    if s.len() > 0 {
        let front = s.drop_last();
        lemma_filter_ascending_firsts(front, keep);
        let kept = front.filter(keep);
        if keep(s.last()) {
            assert forall|i: int, j: int| 0 <= i < j < kept.push(s.last()).len() implies kept.push(
                s.last(),
            )[i].0 < kept.push(s.last())[j].0 by {
                if j == kept.len() {
                    assert(kept.contains(kept[i]));
                    front.lemma_filter_contains_rev(keep, kept[i]);
                    let k = choose|k: int| 0 <= k < front.len() && front[k] == kept[i];
                    assert(s[k].0 < s[s.len() - 1].0);
                } else {
                    assert(kept[i].0 < kept[j].0);
                }
            }
        }
    }
}

/// An element is among the first `i + 1` of a sequence when it is among
/// the first `i` or is the one at `i`.
pub proof fn lemma_take_step<A>(s: Seq<A>, i: int, x: A)
    requires
        0 <= i < s.len(),
    ensures
        s.take(i + 1) == s.take(i).push(s[i]),
        s.take(i + 1).contains(x) <==> s.take(i).contains(x) || s[i] == x,
{
    let next = s.take(i + 1);
    let front = s.take(i);
    assert(next =~= front.push(s[i]));
    if next.contains(x) {
        let k = choose|k: int| 0 <= k < next.len() && next[k] == x;
        if k < i {
            assert(front[k] == x);
        }
    }
    if front.contains(x) {
        let k = choose|k: int| 0 <= k < front.len() && front[k] == x;
        assert(next[k] == x);
    }
    if s[i] == x {
        assert(next[i] == x);
    }
}

/// The first kept element of a sequence is the first element that is to be
/// kept.
pub proof fn lemma_first_kept<A>(s: Seq<A>, keep: spec_fn(A) -> bool, i: int)
    requires
        0 <= i < s.len(),
        keep(s[i]),
        forall|j: int| 0 <= j < i ==> !keep(#[trigger] s[j]),
    ensures
        s.filter(keep).len() > 0,
        s.filter(keep)[0] == s[i],
    decreases s.len(),
{
    reveal(Seq::filter);
    let front = s.drop_last();
    if i == s.len() - 1 {
        assert(front.all(|x: A| !keep(x))) by {
            assert forall|j: int| 0 <= j < front.len() implies !keep(#[trigger] front[j]) by {
                assert(front[j] == s[j]);
            }
        }
        front.lemma_all_neg_filter_empty(keep);
    } else {
        assert(front[i] == s[i]);
        assert forall|j: int| 0 <= j < i implies !keep(#[trigger] front[j]) by {
            assert(front[j] == s[j]);
        }
        lemma_first_kept(front, keep, i);
    }
}

/// Nothing is kept of a sequence none of whose elements is to be kept.
pub proof fn lemma_none_kept<A>(s: Seq<A>, keep: spec_fn(A) -> bool)
    requires
        forall|j: int| 0 <= j < s.len() ==> !keep(#[trigger] s[j]),
    ensures
        s.filter(keep).len() == 0,
{
    assert(s.all(|x: A| !keep(x)));
    s.lemma_all_neg_filter_empty(keep);
}

/// Two tests that agree on the elements of a sequence keep the same of it.
pub proof fn lemma_filter_agree<A>(s: Seq<A>, first: spec_fn(A) -> bool, second: spec_fn(A) -> bool)
    requires
        forall|j: int| 0 <= j < s.len() ==> first(#[trigger] s[j]) == second(s[j]),
    ensures
        s.filter(first) == s.filter(second),
    decreases s.len(),
{
    reveal(Seq::filter);
    if s.len() > 0 {
        let front = s.drop_last();
        assert forall|j: int| 0 <= j < front.len() implies first(#[trigger] front[j]) == second(
            front[j],
        ) by {
            assert(front[j] == s[j]);
        }
        lemma_filter_agree(front, first, second);
    }
}

/// As many elements of a strictly ascending sequence are kept as there are
/// elements of it that are to be kept.
pub proof fn lemma_filter_len_as_set(list: Seq<u32>, keep: spec_fn(u32) -> bool)
    requires
        ascending(list),
    ensures
        Set::new(|x: u32| list.contains(x) && keep(x)).finite(),
        list.filter(keep).len() == Set::new(|x: u32| list.contains(x) && keep(x)).len(),
{
    broadcast use vstd::seq_lib::group_filter_ensures;

    let kept = list.filter(keep);
    let target = Set::new(|x: u32| list.contains(x) && keep(x));
    lemma_filter_ascending(list, keep);
    lemma_ascending_no_duplicates(kept);
    kept.unique_seq_to_set();
    vstd::seq_lib::seq_to_set_is_finite(kept);
    assert(kept.to_set() =~= target) by {
        assert forall|x: u32| kept.to_set().contains(x) <==> target.contains(x) by {
            if kept.contains(x) {
                let i = choose|i: int| 0 <= i < kept.len() && kept[i] == x;
                assert(keep(kept[i]));
                list.lemma_filter_contains_rev(keep, x);
            }
            if list.contains(x) && keep(x) {
                let i = choose|i: int| 0 <= i < list.len() && list[i] == x;
                assert(keep(list[i]));
                assert(kept.contains(list[i]));
            }
        }
    }
}

/// Keeping only some elements of a sequence that holds nothing twice
/// leaves a sequence that holds nothing twice.
pub proof fn lemma_filter_no_duplicates<A>(s: Seq<A>, keep: spec_fn(A) -> bool)
    requires
        s.no_duplicates(),
    ensures
        s.filter(keep).no_duplicates(),
    decreases s.len(),
{
    reveal(Seq::filter);
    if s.len() > 0 {
        let front = s.drop_last();
        lemma_filter_no_duplicates(front, keep);
        let kept = front.filter(keep);
        if keep(s.last()) {
            let all = kept.push(s.last());
            assert forall|i: int, j: int|
                0 <= i < all.len() && 0 <= j < all.len() && i != j implies all[i] != all[j] by {
                if i < kept.len() && j < kept.len() {
                } else {
                    let inner = if i < kept.len() {
                        i
                    } else {
                        j
                    };
                    assert(kept.contains(kept[inner]));
                    front.lemma_filter_contains_rev(keep, kept[inner]);
                    let k = choose|k: int| 0 <= k < front.len() && front[k] == kept[inner];
                    assert(s[k] != s[s.len() - 1]);
                }
            }
        }
    }
}

/// What is kept of a sequence is what is in it and is to be kept.
pub proof fn lemma_filter_holds<A>(s: Seq<A>, keep: spec_fn(A) -> bool, x: A)
    ensures
        s.filter(keep).contains(x) <==> s.contains(x) && keep(x),
{
    broadcast use vstd::seq_lib::group_filter_ensures;

    let kept = s.filter(keep);
    if kept.contains(x) {
        let i = choose|i: int| 0 <= i < kept.len() && kept[i] == x;
        assert(keep(kept[i]));
        s.lemma_filter_contains_rev(keep, x);
    }
    if s.contains(x) && keep(x) {
        let i = choose|i: int| 0 <= i < s.len() && s[i] == x;
        assert(keep(s[i]));
        assert(kept.contains(s[i]));
    }
}

/// A strictly ascending sequence of ids is no longer than there are ids.
pub proof fn lemma_ascending_len(s: Seq<u32>)
    requires
        ascending(s),
    ensures
        s.len() <= 0x1_0000_0000,
        forall|i: int| 0 <= i < s.len() ==> #[trigger] s[i] >= i,
    decreases s.len(),
{
    if s.len() > 0 {
        let front = s.drop_last();
        lemma_ascending_len(front);
        assert forall|i: int| 0 <= i < s.len() implies #[trigger] s[i] >= i by {
            if i < front.len() {
                assert(front[i] >= i);
            } else if i > 0 {
                assert(front[i - 1] >= i - 1);
                assert(s[i - 1] < s[i]);
            }
        }
        assert(s[s.len() - 1] >= s.len() - 1);
    }
}

} // verus!
