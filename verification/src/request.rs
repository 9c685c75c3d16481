use crate::infusion::Infusion;
use crate::order::ascending;
use crate::order::dedup_sorted;
use crate::order::sorted_keys;
use crate::order::sort_ids;
use crate::solver::seeds_view;
use std::collections::HashMap;
use std::collections::HashSet;
use vstd::prelude::*;
use vstd::std_specs::iter::IteratorSpec;

verus! {

/// The error of serde_json, taken as it is: nothing is read from it.
#[verifier::external_type_specification]
#[verifier::external_body]
pub struct ExJsonError(serde_json::Error);

/// A request whose list of pre-configured IVs cannot be read, or does not
/// have the announced length.
#[derive(Debug, Clone, Copy, PartialEq, Eq, Structural)]
pub struct MalformedRequest;

/// The pre-configured IVs that a text stands for, read as JSON: an array
/// with, for each IV, the array of the ids of its infusions. Nothing, if
/// the text is no such JSON.
pub uninterp spec fn parsed_ivs(text: Seq<char>) -> Option<Seq<Set<u32>>>;

/// `serde_json::from_str` for a list of sets of ids.
#[verifier::external_body]
fn ivs_from_json(text: &str) -> (parsed: Result<Vec<HashSet<u32>>, serde_json::Error>)
    ensures
        match parsed {
            Ok(ivs) => parsed_ivs(text@) == Some(seeds_view(ivs@)),
            Err(_) => parsed_ivs(text@) is None,
        },
{
    serde_json::from_str(text)
}

/// Accepts the pre-configured IVs that were read, if there are as many as
/// announced.
pub fn accept_ivs(num_ivs: u32, parsed: Result<Vec<HashSet<u32>>, serde_json::Error>) -> (result:
    Result<Vec<HashSet<u32>>, MalformedRequest>)
    ensures
        match result {
            Ok(ivs) => parsed == Ok::<Vec<HashSet<u32>>, serde_json::Error>(ivs) && ivs@.len()
                == num_ivs,
            Err(_) => match parsed {
                Ok(ivs) => ivs@.len() != num_ivs,
                Err(_) => true,
            },
        },
{
    match parsed {
        Ok(ivs) => {
            if ivs.len() == num_ivs as usize {
                Ok(ivs)
            } else {
                Err(MalformedRequest)
            }
        },
        Err(_) => Err(MalformedRequest),
    }
}

/// Reads the pre-configured IVs of a request: `ivs` holds them as JSON,
/// and `num_ivs` says how many they are.
pub fn read_ivs(num_ivs: u32, ivs: &str) -> (result: Result<Vec<HashSet<u32>>, MalformedRequest>)
    ensures
        match result {
            Ok(read) => parsed_ivs(ivs@) == Some(seeds_view(read@)) && read@.len() == num_ivs,
            Err(_) => match parsed_ivs(ivs@) {
                Some(seeds) => seeds.len() != num_ivs,
                None => true,
            },
        },
{
    accept_ivs(num_ivs, ivs_from_json(ivs))
}

/// Whether `x` is on one of the first `k` pre-configured IVs.
pub open spec fn seeded_before(seeds: Seq<Set<u32>>, k: int, x: u32) -> bool {
    exists|i: int| 0 <= i < k && (#[trigger] seeds[i]).contains(x)
}

/// Whether `x` is among the first `k` of `elements`.
spec fn among(elements: Seq<&u32>, k: int, x: u32) -> bool {
    exists|m: int| 0 <= m < k && *(#[trigger] elements[m]) == x
}

/// The infusions that a request is about: those on its pre-configured IVs
/// and those to add, each once, smallest id first.
pub fn requested_ids(iv_data: &Vec<HashSet<u32>>, additional: &Vec<u32>) -> (ids: Vec<u32>)
    ensures
        ascending(ids@),
        forall|x: u32|
            ids@.contains(x) <==> seeded_before(seeds_view(iv_data@), iv_data@.len() as int, x)
                || additional@.contains(x),
{
    broadcast use vstd::std_specs::hash::group_hash_axioms;

    let ghost seeds = seeds_view(iv_data@);
    let mut all: Vec<u32> = Vec::new();
    let mut k: usize = 0;
    while k < iv_data.len()
        invariant
            0 <= k <= iv_data.len(),
            seeds == seeds_view(iv_data@),
            forall|x: u32| all@.contains(x) <==> seeded_before(seeds, k as int, x),
        decreases iv_data.len() - k,
    {
        let members = &iv_data[k];
        let ghost elements = members.iter().remaining();
        let ghost before = all@;
        let ghost mut count: int = 0;
        for id in it: members.iter()
            invariant
                it.seq() == elements,
                count == it.index(),
                0 <= k < iv_data.len(),
                seeds == seeds_view(iv_data@),
                forall|x: u32|
                    all@.contains(x) <==> seeded_before(seeds, k as int, x) || among(
                        elements,
                        count,
                        x,
                    ),
        {
            let ghost held = all@;
            all.push(*id);
            proof {
                assert forall|x: u32|
                    all@.contains(x) <==> seeded_before(seeds, k as int, x) || among(
                        elements,
                        count + 1,
                        x,
                    ) by {
                    if all@.contains(x) {
                        let i = choose|i: int| 0 <= i < all@.len() && all@[i] == x;
                        if i < held.len() {
                            assert(held[i] == x);
                            assert(held.contains(x));
                            if among(elements, count, x) {
                                let m = choose|m: int|
                                    0 <= m < count && *(#[trigger] elements[m]) == x;
                                assert(*elements[m] == x);
                            }
                        } else {
                            assert(*elements[count] == x);
                        }
                    }
                    if seeded_before(seeds, k as int, x) || among(elements, count, x) {
                        assert(held.contains(x));
                        let i = choose|i: int| 0 <= i < held.len() && held[i] == x;
                        assert(all@[i] == x);
                    }
                    if among(elements, count + 1, x) && !among(elements, count, x) {
                        let m = choose|m: int|
                            0 <= m < count + 1 && *(#[trigger] elements[m]) == x;
                        assert(m == count);
                        assert(all@[held.len() as int] == x);
                    }
                }
                count = count + 1;
            }
        }
        proof {
            assert(count == elements.len());
            assert(elements.unref().to_set() == seeds[k as int]);
            assert forall|x: u32| all@.contains(x) <==> seeded_before(seeds, k + 1, x) by {
                if among(elements, count, x) {
                    let m = choose|m: int| 0 <= m < count && *(#[trigger] elements[m]) == x;
                    assert(elements.unref()[m] == x);
                    assert(elements.unref().to_set().contains(x));
                    assert(seeds[k as int].contains(x));
                }
                if seeded_before(seeds, k as int, x) {
                    let i = choose|i: int| 0 <= i < k && (#[trigger] seeds[i]).contains(x);
                    assert(seeds[i].contains(x));
                }
                if seeded_before(seeds, k + 1, x) {
                    let i = choose|i: int| 0 <= i < k + 1 && (#[trigger] seeds[i]).contains(x);
                    if i < k {
                        assert(seeded_before(seeds, k as int, x));
                    } else {
                        assert(elements.unref().to_set().contains(x));
                        let m = choose|m: int|
                            0 <= m < elements.unref().len() && elements.unref()[m] == x;
                        assert(*elements[m] == x);
                        assert(among(elements, count, x));
                    }
                }
            }
        }
        k += 1;
    }
    let ghost seeded = all@;
    let mut j: usize = 0;
    while j < additional.len()
        invariant
            0 <= j <= additional.len(),
            seeds == seeds_view(iv_data@),
            forall|x: u32|
                all@.contains(x) <==> seeded_before(seeds, iv_data@.len() as int, x)
                    || additional@.take(j as int).contains(x),
        decreases additional.len() - j,
    {
        let ghost held = all@;
        all.push(additional[j]);
        proof {
            assert forall|x: u32|
                all@.contains(x) <==> seeded_before(seeds, iv_data@.len() as int, x)
                    || additional@.take(j + 1).contains(x) by {
                crate::order::lemma_take_step(additional@, j as int, x);
                if all@.contains(x) {
                    let i = choose|i: int| 0 <= i < all@.len() && all@[i] == x;
                    if i < held.len() {
                        assert(held[i] == x);
                        assert(held.contains(x));
                    }
                }
                if held.contains(x) {
                    let i = choose|i: int| 0 <= i < held.len() && held[i] == x;
                    assert(all@[i] == x);
                }
                if additional@[j as int] == x {
                    assert(all@[held.len() as int] == x);
                }
            }
        }
        j += 1;
    }
    let ghost unsorted = all@;
    proof {
        assert(additional@.take(additional@.len() as int) =~= additional@);
        assert forall|x: u32|
            unsorted.contains(x) <==> seeded_before(seeds, iv_data@.len() as int, x)
                || additional@.contains(x) by {}
    }
    sort_ids(&mut all);
    proof {
        broadcast use vstd::seq_lib::group_to_multiset_ensures;

        assert forall|x: u32| all@.contains(x) <==> unsorted.contains(x) by {
            assert(all@.contains(x) <==> all@.to_multiset().count(x) > 0);
            assert(unsorted.contains(x) <==> unsorted.to_multiset().count(x) > 0);
        }
    }
    let ids = dedup_sorted(&all);
    proof {
        assert forall|x: u32|
            ids@.contains(x) <==> seeded_before(seeds, iv_data@.len() as int, x)
                || additional@.contains(x) by {
            assert(ids@.to_set().contains(x) <==> all@.to_set().contains(x));
            assert(all@.contains(x) <==> unsorted.contains(x));
        }
    }
    ids
}

/// The IV numbers of a list of IVs with the names on them.
pub open spec fn numbers_of(ivs: Seq<(u32, Vec<String>)>) -> Seq<u32> {
    ivs.map_values(|iv: (u32, Vec<String>)| iv.0)
}

/// The answer for display: the IVs by ascending number, each with the
/// names of its infusions in the order in which they were put on it.
pub fn iv_names(results: &HashMap<u32, Vec<&Infusion>>) -> (ivs: Vec<(u32, Vec<String>)>)
    ensures
        ascending(numbers_of(ivs@)),
        numbers_of(ivs@).to_set() == results@.dom(),
        forall|k: int|
            0 <= k < ivs@.len() ==> (#[trigger] ivs@[k]).1@.len() == results@[ivs@[k].0]@.len(),
        forall|k: int, i: int|
            0 <= k < ivs@.len() && 0 <= i < ivs@[k].1@.len() ==> (#[trigger] ivs@[k].1@[i])@
                == results@[ivs@[k].0]@[i]@.name,
{
    broadcast use vstd::std_specs::hash::group_hash_axioms;

    let keys = sorted_keys(results);
    let mut ivs: Vec<(u32, Vec<String>)> = Vec::new();
    let mut k: usize = 0;
    while k < keys.len()
        invariant
            0 <= k <= keys.len(),
            keys@.to_set() == results@.dom(),
            numbers_of(ivs@) == keys@.take(k as int),
            forall|j: int|
                0 <= j < ivs@.len() ==> (#[trigger] ivs@[j]).1@.len() == results@[ivs@[j].0]@.len(),
            forall|j: int, i: int|
                0 <= j < ivs@.len() && 0 <= i < ivs@[j].1@.len() ==> (#[trigger] ivs@[j].1@[i])@
                    == results@[ivs@[j].0]@[i]@.name,
        decreases keys.len() - k,
    {
        let iv = keys[k];
        proof {
            assert(keys@.to_set().contains(keys@[k as int]));
        }
        let infusions = results.get(&iv).unwrap();
        let mut names: Vec<String> = Vec::new();
        let mut i: usize = 0;
        while i < infusions.len()
            invariant
                0 <= i <= infusions.len(),
                names@.len() == i,
                forall|m: int| 0 <= m < i ==> (#[trigger] names@[m])@ == infusions@[m]@.name,
            decreases infusions.len() - i,
        {
            names.push(infusions[i].name().to_owned());
            i += 1;
        }
        let ghost before = ivs@;
        ivs.push((iv, names));
        proof {
            assert(numbers_of(ivs@) =~= numbers_of(before).push(iv));
            assert(keys@.take(k + 1) =~= keys@.take(k as int).push(iv));
            assert forall|j: int| 0 <= j < ivs@.len() implies (#[trigger] ivs@[j]).1@.len()
                == results@[ivs@[j].0]@.len() by {
                if j < before.len() {
                    assert(ivs@[j] == before[j]);
                }
            }
            assert forall|j: int, i: int|
                0 <= j < ivs@.len() && 0 <= i < ivs@[j].1@.len() implies (#[trigger] ivs@[j].1@[i])@
                == results@[ivs@[j].0]@[i]@.name by {
                if j < before.len() {
                    assert(ivs@[j] == before[j]);
                }
            }
        }
        k += 1;
    }
    proof {
        assert(keys@.take(keys@.len() as int) =~= keys@);
    }
    ivs
}

} // verus!
