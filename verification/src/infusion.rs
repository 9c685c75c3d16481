use crate::order::ascending;
use crate::order::lemma_filter_ascending;
use crate::order::sorted_keys;
use std::collections::HashMap;
use std::rc::Rc;
use vstd::prelude::*;

verus! {

/// What kind of fluid an infusion is. The tag is carried for display only.
#[derive(Debug, Clone, Copy, PartialEq, Eq, Structural)]
pub enum InfusionType {
    Drug,
    Solution,
}

/// Whether two infusions may share an IV line.
#[derive(Clone, Copy, Debug, PartialEq, Eq, Structural)]
pub enum Compatibility {
    Compatible,
    Incompatible,
}

/// The verdict that a triple of evidence counts stands for: compatible only
/// when there is positive evidence and none to the contrary.
pub open spec fn verdict_of(compatible: u32, incompatible: u32, mixed: u32) -> Compatibility {
    if compatible > 0 && incompatible == 0 && mixed == 0 {
        Compatibility::Compatible
    } else {
        Compatibility::Incompatible
    }
}

/// The evidence recorded for one unordered pair of infusions.
#[derive(Debug)]
pub struct CompatibilityData {
    compatible: u32,
    incompatible: u32,
    mixed: u32,
    compatibility: Compatibility,
}

impl CompatibilityData {
    pub closed spec fn compatible_count(&self) -> u32 {
        self.compatible
    }

    pub closed spec fn incompatible_count(&self) -> u32 {
        self.incompatible
    }

    pub closed spec fn mixed_count(&self) -> u32 {
        self.mixed
    }

    pub closed spec fn verdict(&self) -> Compatibility {
        self.compatibility
    }

    /// The record that holds the given counts.
    pub closed spec fn of(compatible: u32, incompatible: u32, mixed: u32) -> CompatibilityData {
        CompatibilityData {
            compatible,
            incompatible,
            mixed,
            compatibility: verdict_of(compatible, incompatible, mixed),
        }
    }

    /// A record holds the counts it was made of, and the verdict that they
    /// stand for.
    pub proof fn lemma_of(compatible: u32, incompatible: u32, mixed: u32)
        ensures
            Self::of(compatible, incompatible, mixed).compatible_count() == compatible,
            Self::of(compatible, incompatible, mixed).incompatible_count() == incompatible,
            Self::of(compatible, incompatible, mixed).mixed_count() == mixed,
            Self::of(compatible, incompatible, mixed).verdict() == verdict_of(
                compatible,
                incompatible,
                mixed,
            ),
    {
    }

    pub fn new(compatible: u32, incompatible: u32, mixed: u32) -> (data: CompatibilityData)
        ensures
            data == Self::of(compatible, incompatible, mixed),
            data.compatible_count() == compatible,
            data.incompatible_count() == incompatible,
            data.mixed_count() == mixed,
            data.verdict() == verdict_of(compatible, incompatible, mixed),
    {
        let compatibility = if compatible > 0 && incompatible == 0 && mixed == 0 {
            Compatibility::Compatible
        } else {
            Compatibility::Incompatible
        };
        CompatibilityData { compatible, incompatible, mixed, compatibility }
    }
    /// Whether the two records hold the same.
    pub fn same_as(&self, other: &CompatibilityData) -> (same: bool)
        ensures
            same == (*self == *other),
    {
        self.compatible == other.compatible && self.incompatible == other.incompatible
            && self.mixed == other.mixed && self.compatibility == other.compatibility
    }

    pub fn compatible(&self) -> (count: u32)
        ensures
            count == self.compatible_count(),
    {
        self.compatible
    }

    pub fn incompatible(&self) -> (count: u32)
        ensures
            count == self.incompatible_count(),
    {
        self.incompatible
    }

    pub fn mixed(&self) -> (count: u32)
        ensures
            count == self.mixed_count(),
    {
        self.mixed
    }

    /// The verdict this record was filed under.
    pub fn compatibility(&self) -> (verdict: Compatibility)
        ensures
            verdict == self.verdict(),
    {
        self.compatibility
    }
}

/// What an infusion is, as the contracts see it: its identity and the
/// evidence it holds about its partners.
pub struct InfusionView {
    pub id: u32,
    pub name: Seq<char>,
    pub infusion_type: InfusionType,
    pub records: Map<u32, CompatibilityData>,
}

impl InfusionView {
    /// The verdict on sharing a line with `other`. A partner without a
    /// record counts as incompatible.
    pub open spec fn verdict_with(self, other: u32) -> Compatibility {
        if self.records.contains_key(other) {
            self.records[other].verdict()
        } else {
            Compatibility::Incompatible
        }
    }

    pub open spec fn compatible_with(self, other: u32) -> bool {
        self.verdict_with(other) == Compatibility::Compatible
    }

    /// Whether `other` is a different infusion that must not share a line
    /// with this one.
    pub open spec fn excludes(self, other: u32) -> bool {
        other != self.id && !self.compatible_with(other)
    }
}

/// One infusion of the catalogue.
#[derive(Debug)]
pub struct Infusion {
    id: u32,
    name: String,
    infusion_type: InfusionType,
    compatibility: HashMap<u32, Rc<CompatibilityData>>,
}

impl View for Infusion {
    type V = InfusionView;

    closed spec fn view(&self) -> InfusionView {
        InfusionView {
            id: self.id,
            name: self.name@,
            infusion_type: self.infusion_type,
            records: self.compatibility@.map_values(|r: Rc<CompatibilityData>| *r),
        }
    }
}

/// `Rc::clone`: another handle on the same record.
#[verifier::external_body]
fn share(data: &Rc<CompatibilityData>) -> (shared: Rc<CompatibilityData>)
    ensures
        *shared == **data,
{
    Rc::clone(data)
}

impl Infusion {
    pub fn new(id: u32, name: String, infusion_type: InfusionType) -> (infusion: Infusion)
        ensures
            infusion@ == (InfusionView {
                id,
                name: name@,
                infusion_type,
                records: Map::<u32, CompatibilityData>::empty(),
            }),
    {
        let infusion = Infusion { id, name, infusion_type, compatibility: HashMap::new() };
        proof {
            assert(infusion@.records =~= Map::<u32, CompatibilityData>::empty());
        }
        infusion
    }

    pub fn id(&self) -> (id: u32)
        ensures
            id == self@.id,
    {
        self.id
    }

    pub fn name(&self) -> (name: &str)
        ensures
            name@ == self@.name,
    {
        self.name.as_str()
    }

    pub fn infusion_type(&self) -> (infusion_type: InfusionType)
        ensures
            infusion_type == self@.infusion_type,
    {
        self.infusion_type
    }

    /// Files the evidence about the pair of this infusion and `other_id`,
    /// replacing what was filed for that partner before.
    pub fn add_compatibility_data(&mut self, other_id: u32, compat_data: &Rc<CompatibilityData>)
        ensures
            final(self)@ == (InfusionView {
                records: old(self)@.records.insert(other_id, **compat_data),
                ..old(self)@
            }),
    {
        broadcast use vstd::std_specs::hash::group_hash_axioms;

        self.compatibility.insert(other_id, share(compat_data));
        proof {
            assert(final(self)@.records =~= old(self)@.records.insert(other_id, **compat_data));
        }
    }

    /// The evidence on record about the pair of this infusion and `other`.
    pub fn record(&self, other: u32) -> (found: Option<&CompatibilityData>)
        ensures
            match found {
                Some(data) => self@.records.contains_key(other) && *data == self@.records[other],
                None => !self@.records.contains_key(other),
            },
    {
        broadcast use vstd::std_specs::hash::group_hash_axioms;

        match self.compatibility.get(&other) {
            Some(data) => Some(&**data),
            None => None,
        }
    }

    /// The verdict on sharing a line with `other`.
    pub fn verdict_with(&self, other: u32) -> (verdict: Compatibility)
        ensures
            verdict == self@.verdict_with(other),
    {
        broadcast use vstd::std_specs::hash::group_hash_axioms;

        match self.compatibility.get(&other) {
            Some(data) => data.compatibility,
            None => Compatibility::Incompatible,
        }
    }

    /// The partners on record as compatible, smallest id first.
    pub fn get_compatible(&self) -> (ids: Vec<u32>)
        ensures
            ascending(ids@),
            forall|j: u32| ids@.contains(j) <==> self@.compatible_with(j),
    {
        let keys = sorted_keys(&self.compatibility);
        let ghost keep = |j: u32| self@.compatible_with(j);
        let mut ids: Vec<u32> = Vec::new();
        let mut i: usize = 0;
        while i < keys.len()
            invariant
                0 <= i <= keys.len(),
                keep == (|j: u32| self@.compatible_with(j)),
                ids@ == keys@.take(i as int).filter(keep),
            decreases keys.len() - i,
        {
            let j = keys[i];
            proof {
                broadcast use Seq::lemma_filter_push;

                assert(keys@.take(i + 1) =~= keys@.take(i as int).push(j));
            }
            if self.verdict_with(j) == Compatibility::Compatible {
                ids.push(j);
            }
            i += 1;
        }
        proof {
            broadcast use vstd::seq_lib::group_filter_ensures;
            broadcast use Seq::lemma_filter_contains_rev;

            assert(keys@.take(keys.len() as int) =~= keys@);
            lemma_filter_ascending(keys@, keep);
            assert forall|j: u32| ids@.contains(j) <==> self@.compatible_with(j) by {
                if ids@.contains(j) {
                    let k = choose|k: int| 0 <= k < ids@.len() && ids@[k] == j;
                    assert(keep(ids@[k]));
                }
                if self@.compatible_with(j) {
                    assert(self.compatibility@.dom().contains(j));
                    assert(keys@.to_set().contains(j));
                    let k = choose|k: int| 0 <= k < keys@.len() && keys@[k] == j;
                    assert(keep(keys@[k]));
                    assert(keys@.filter(keep).contains(keys@[k]));
                }
            }
        }
        ids
    }

    /// Of the candidates in `all_ids`, in their order, those that must not
    /// share a line with this infusion. The infusion itself is never among
    /// them.
    pub fn get_incompatible(&self, all_ids: &Vec<&u32>) -> (ids: Vec<u32>)
        ensures
            ids@ == all_ids@.unref().filter(|j: u32| self@.excludes(j)),
    {
        let ghost keep = |j: u32| self@.excludes(j);
        let ghost all = all_ids@.unref();
        let mut ids: Vec<u32> = Vec::new();
        let mut i: usize = 0;
        while i < all_ids.len()
            invariant
                0 <= i <= all_ids.len(),
                all == all_ids@.unref(),
                keep == (|j: u32| self@.excludes(j)),
                ids@ == all.take(i as int).filter(keep),
                self.id == self@.id,
            decreases all_ids.len() - i,
        {
            let j = *all_ids[i];
            proof {
                broadcast use Seq::lemma_filter_push;

                assert(all.take(i + 1) =~= all.take(i as int).push(j));
            }
            if j != self.id && self.verdict_with(j) != Compatibility::Compatible {
                ids.push(j);
            }
            i += 1;
        }
        proof {
            assert(all.take(all_ids.len() as int) =~= all);
        }
        ids
    }
}

} // verus!
