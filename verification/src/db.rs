use crate::graph::catalog_view;
use crate::infusion::CompatibilityData;
use crate::infusion::Infusion;
use crate::infusion::InfusionType;
use crate::infusion::InfusionView;
use crate::text::decimal;
use crate::text::joined;
use crate::text::push_decimal;
use crate::text::string_of;
use std::collections::HashMap;
use std::rc::Rc;
use vstd::prelude::*;

verus! {

/// Why a catalogue could not be put together.
#[derive(Debug, Clone, Copy, PartialEq, Eq, Structural)]
pub enum CatalogError {
    /// A row names an unknown type, or a pair names an infusion that no row
    /// holds, or joins an infusion with itself, or appears twice with
    /// different counts.
    MalformedCatalog,
    /// An infusion was asked for that the store does not hold.
    UnknownInfusion,
}

/// The type that a type code of the store stands for.
pub open spec fn type_of(code: u32) -> Option<InfusionType> {
    if code == 1 {
        Some(InfusionType::Drug)
    } else if code == 2 {
        Some(InfusionType::Solution)
    } else {
        None
    }
}

pub fn infusion_type(code: u32) -> (found: Option<InfusionType>)
    ensures
        found == type_of(code),
{
    if code == 1 {
        Some(InfusionType::Drug)
    } else if code == 2 {
        Some(InfusionType::Solution)
    } else {
        None
    }
}

/// The rows of the store as the contracts see them: id, name, type code.
pub open spec fn rows_view(rows: Seq<(u32, String, u32)>) -> Seq<(u32, Seq<char>, u32)> {
    rows.map_values(|row: (u32, String, u32)| (row.0, row.1@, row.2))
}

/// The catalogue with the infusion of one more row, which replaces an
/// infusion of the same id.
pub open spec fn with_row(catalog: Map<u32, InfusionView>, row: (u32, Seq<char>, u32)) -> Map<
    u32,
    InfusionView,
> {
    catalog.insert(
        row.0,
        InfusionView {
            id: row.0,
            name: row.1,
            infusion_type: type_of(row.2)->0,
            records: Map::empty(),
        },
    )
}

pub open spec fn with_rows(rows: Seq<(u32, Seq<char>, u32)>) -> Map<u32, InfusionView>
    decreases rows.len(),
{
    if rows.len() == 0 {
        Map::empty()
    } else {
        with_row(with_rows(rows.drop_last()), rows.last())
    }
}

/// The catalogue with the evidence of one more pair, filed with both
/// infusions of the pair.
pub open spec fn with_pair(catalog: Map<u32, InfusionView>, pair: (u32, u32, u32, u32, u32)) -> Map<
    u32,
    InfusionView,
> {
    let data = CompatibilityData::of(pair.2, pair.3, pair.4);
    let one = catalog.insert(
        pair.0,
        InfusionView { records: catalog[pair.0].records.insert(pair.1, data), ..catalog[pair.0] },
    );
    one.insert(
        pair.1,
        InfusionView { records: one[pair.1].records.insert(pair.0, data), ..one[pair.1] },
    )
}

pub open spec fn with_pairs(
    catalog: Map<u32, InfusionView>,
    pairs: Seq<(u32, u32, u32, u32, u32)>,
) -> Map<u32, InfusionView>
    decreases pairs.len(),
{
    if pairs.len() == 0 {
        catalog
    } else {
        with_pair(with_pairs(catalog, pairs.drop_last()), pairs.last())
    }
}

/// The catalogue that the rows and pairs of the store describe.
pub open spec fn catalog_of(
    rows: Seq<(u32, Seq<char>, u32)>,
    pairs: Seq<(u32, u32, u32, u32, u32)>,
) -> Map<u32, InfusionView> {
    with_pairs(with_rows(rows), pairs)
}

/// Whether a pair is about the infusions `a` and `b`, in either order.
pub open spec fn joins(pair: (u32, u32, u32, u32, u32), a: u32, b: u32) -> bool {
    (pair.0 == a && pair.1 == b) || (pair.0 == b && pair.1 == a)
}

pub open spec fn same_counts(p: (u32, u32, u32, u32, u32), q: (u32, u32, u32, u32, u32)) -> bool {
    p.2 == q.2 && p.3 == q.3 && p.4 == q.4
}

/// Every row names a known type.
pub open spec fn rows_known(rows: Seq<(u32, Seq<char>, u32)>) -> bool {
    forall|i: int| 0 <= i < rows.len() ==> type_of((#[trigger] rows[i]).2) is Some
}

/// Every pair joins two different infusions that the rows hold.
pub open spec fn pairs_known(
    rows: Seq<(u32, Seq<char>, u32)>,
    pairs: Seq<(u32, u32, u32, u32, u32)>,
) -> bool {
    forall|i: int|
        0 <= i < pairs.len() ==> (#[trigger] pairs[i]).0 != pairs[i].1 && with_rows(
            rows,
        ).contains_key(pairs[i].0) && with_rows(rows).contains_key(pairs[i].1)
}

/// No pair appears twice with different counts.
pub open spec fn pairs_agree(pairs: Seq<(u32, u32, u32, u32, u32)>) -> bool {
    forall|i: int, j: int|
        0 <= i < j < pairs.len() && joins(#[trigger] pairs[i], (#[trigger] pairs[j]).0, pairs[j].1)
            ==> same_counts(pairs[i], pairs[j])
}

/// What makes rows and pairs a catalogue.
pub open spec fn well_formed(
    rows: Seq<(u32, Seq<char>, u32)>,
    pairs: Seq<(u32, u32, u32, u32, u32)>,
) -> bool {
    rows_known(rows) && pairs_known(rows, pairs) && pairs_agree(pairs)
}

/// The infusions are those of the rows, whatever pairs were filed.
proof fn lemma_with_pairs_dom(
    catalog: Map<u32, InfusionView>,
    pairs: Seq<(u32, u32, u32, u32, u32)>,
)
    requires
        forall|i: int|
            0 <= i < pairs.len() ==> catalog.contains_key((#[trigger] pairs[i]).0)
                && catalog.contains_key(pairs[i].1),
    ensures
        with_pairs(catalog, pairs).dom() == catalog.dom(),
    decreases pairs.len(),
{
    if pairs.len() > 0 {
        let front = pairs.drop_last();
        assert forall|i: int| 0 <= i < front.len() implies catalog.contains_key(
            (#[trigger] front[i]).0,
        ) && catalog.contains_key(front[i].1) by {
            assert(front[i] == pairs[i]);
        }
        lemma_with_pairs_dom(catalog, front);
        let before = with_pairs(catalog, front);
        assert(before.contains_key(pairs.last().0));
        assert(before.contains_key(pairs.last().1));
        assert(with_pair(before, pairs.last()).dom() =~= before.dom());
    }
}

/// Whether one of the first `i` pairs is about the infusions `a` and `b`.
#[verifier::opaque]
spec fn filed(pairs: Seq<(u32, u32, u32, u32, u32)>, i: int, a: u32, b: u32) -> bool {
    exists|k: int| 0 <= k < i && joins(#[trigger] pairs[k], a, b)
}

proof fn lemma_filed_witness(pairs: Seq<(u32, u32, u32, u32, u32)>, i: int, a: u32, b: u32) -> (k:
    int)
    requires
        filed(pairs, i, a, b),
    ensures
        0 <= k < i,
        joins(pairs[k], a, b),
{
    reveal(filed);
    choose|k: int| 0 <= k < i && joins(#[trigger] pairs[k], a, b)
}

proof fn lemma_filed(pairs: Seq<(u32, u32, u32, u32, u32)>, i: int, k: int, a: u32, b: u32)
    requires
        0 <= k < i,
        joins(pairs[k], a, b),
    ensures
        filed(pairs, i, a, b),
{
    reveal(filed);
}

/// What the records of a catalogue are while the first `i` pairs are
/// filed: each of those pairs is on record with both of its infusions, and
/// nothing else is on record.
spec fn tracks(
    catalog: Map<u32, InfusionView>,
    pairs: Seq<(u32, u32, u32, u32, u32)>,
    i: int,
) -> bool {
    &&& forall|k: int|
        0 <= k < i ==> on_record(catalog, #[trigger] pairs[k])
    &&& forall|a: u32, b: u32|
        catalog.contains_key(a) && #[trigger] catalog[a].records.contains_key(b) ==> filed(
            pairs,
            i,
            a,
            b,
        )
}

/// Whether both infusions of `p` hold its evidence.
spec fn on_record(catalog: Map<u32, InfusionView>, p: (u32, u32, u32, u32, u32)) -> bool {
    &&& catalog.contains_key(p.0)
    &&& catalog.contains_key(p.1)
    &&& catalog[p.0].records.contains_key(p.1)
    &&& catalog[p.0].records[p.1] == CompatibilityData::of(p.2, p.3, p.4)
    &&& catalog[p.1].records.contains_key(p.0)
    &&& catalog[p.1].records[p.0] == CompatibilityData::of(p.2, p.3, p.4)
}

proof fn lemma_with_rows_next(rows: Seq<(u32, Seq<char>, u32)>, i: int)
    requires
        0 <= i < rows.len(),
    ensures
        with_rows(rows.take(i + 1)) == with_row(with_rows(rows.take(i)), rows[i]),
{
    assert(rows.take(i + 1).drop_last() =~= rows.take(i));
}

proof fn lemma_with_pairs_next(
    catalog: Map<u32, InfusionView>,
    pairs: Seq<(u32, u32, u32, u32, u32)>,
    i: int,
)
    requires
        0 <= i < pairs.len(),
    ensures
        with_pairs(catalog, pairs.take(i + 1)) == with_pair(
            with_pairs(catalog, pairs.take(i)),
            pairs[i],
        ),
{
    assert(pairs.take(i + 1).drop_last() =~= pairs.take(i));
}

proof fn lemma_rows_dom(rows: Seq<(u32, Seq<char>, u32)>, id: u32)
    ensures
        with_rows(rows).contains_key(id) <==> exists|i: int|
            0 <= i < rows.len() && (#[trigger] rows[i]).0 == id,
        forall|a: u32, b: u32|
            with_rows(rows).contains_key(a) ==> !#[trigger] with_rows(rows)[a].records.contains_key(b),
    decreases rows.len(),
{
    if rows.len() > 0 {
        let front = rows.drop_last();
        lemma_rows_dom(front, id);
        if with_rows(rows).contains_key(id) {
            if id == rows.last().0 {
                assert(rows[rows.len() - 1].0 == id);
            } else {
                let i = choose|i: int| 0 <= i < front.len() && (#[trigger] front[i]).0 == id;
                assert(rows[i].0 == id);
            }
        }
        if exists|i: int| 0 <= i < rows.len() && (#[trigger] rows[i]).0 == id {
            let i = choose|i: int| 0 <= i < rows.len() && (#[trigger] rows[i]).0 == id;
            if i < front.len() {
                assert(front[i].0 == id);
            }
        }
    }
}

/// Whether the evidence of `pair` may be filed: its infusions hold no
/// evidence about each other yet, or hold the very same.
pub open spec fn fits(catalog: Map<u32, InfusionView>, pair: (u32, u32, u32, u32, u32)) -> bool {
    catalog[pair.0].records.contains_key(pair.1) ==> catalog[pair.0].records[pair.1]
        == CompatibilityData::of(pair.2, pair.3, pair.4)
}

/// Two pairs about the same infusions whose evidence is the same record
/// hold the same counts.
proof fn lemma_same_record(p: (u32, u32, u32, u32, u32), q: (u32, u32, u32, u32, u32))
    requires
        CompatibilityData::of(p.2, p.3, p.4) == CompatibilityData::of(q.2, q.3, q.4),
    ensures
        same_counts(p, q),
{
    CompatibilityData::lemma_of(p.2, p.3, p.4);
    CompatibilityData::lemma_of(q.2, q.3, q.4);
}

/// Two pairs whose evidence is not the same record differ in a count.
proof fn lemma_different_record(p: (u32, u32, u32, u32, u32), q: (u32, u32, u32, u32, u32))
    requires
        CompatibilityData::of(p.2, p.3, p.4) != CompatibilityData::of(q.2, q.3, q.4),
    ensures
        !same_counts(p, q),
{
}

/// Filing one more pair that fits keeps the records in step with the pairs.
proof fn lemma_tracks_next(
    before: Map<u32, InfusionView>,
    pairs: Seq<(u32, u32, u32, u32, u32)>,
    j: int,
)
    requires
        0 <= j < pairs.len(),
        tracks(before, pairs, j),
        pairs_agree(pairs.take(j)),
        pairs[j].0 != pairs[j].1,
        before.contains_key(pairs[j].0),
        before.contains_key(pairs[j].1),
        fits(before, pairs[j]),
    ensures
        tracks(with_pair(before, pairs[j]), pairs, j + 1),
        pairs_agree(pairs.take(j + 1)),
{
    let pair = pairs[j];
    let after = with_pair(before, pair);
    let next = pairs.take(j + 1);
    assert forall|k: int| 0 <= k < j && joins(#[trigger] pairs[k], pair.0, pair.1) implies same_counts(
        pairs[k],
        pair,
    ) by {
        assert(on_record(before, pairs[k]));
        lemma_same_record(pairs[k], pair);
    }
    assert forall|a: int, b: int|
        0 <= a < b < next.len() && joins(
            #[trigger] next[a],
            (#[trigger] next[b]).0,
            next[b].1,
        ) implies same_counts(next[a], next[b]) by {
        if b < j {
            assert(pairs.take(j)[a] == next[a]);
            assert(pairs.take(j)[b] == next[b]);
        } else {
            assert(next[a] == pairs[a]);
        }
    }
    assert forall|k: int| 0 <= k < j + 1 implies on_record(after, #[trigger] pairs[k]) by {
        if k < j {
            assert(on_record(before, pairs[k]));
            if joins(pairs[k], pair.0, pair.1) {
                assert(same_counts(pairs[k], pair));
            }
        }
    }
    assert forall|a: u32, b: u32|
        after.contains_key(a) && #[trigger] after[a].records.contains_key(b) implies filed(
        pairs,
        j + 1,
        a,
        b,
    ) by {
        if before.contains_key(a) && before[a].records.contains_key(b) {
            let k = lemma_filed_witness(pairs, j, a, b);
            lemma_filed(pairs, j + 1, k, a, b);
        } else {
            assert(joins(pairs[j], a, b));
            lemma_filed(pairs, j + 1, j, a, b);
        }
    }
}

/// A pair that does not fit has appeared before with other counts.
proof fn lemma_misfit(before: Map<u32, InfusionView>, pairs: Seq<(u32, u32, u32, u32, u32)>, j: int)
    requires
        0 <= j < pairs.len(),
        tracks(before, pairs, j),
        before.contains_key(pairs[j].0),
        !fits(before, pairs[j]),
    ensures
        !pairs_agree(pairs),
{
    let pair = pairs[j];
    let k = lemma_filed_witness(pairs, j, pair.0, pair.1);
    assert(on_record(before, pairs[k]));
    lemma_different_record(pairs[k], pair);
    assert(joins(pairs[k], pairs[j].0, pairs[j].1));
    assert(!same_counts(pairs[k], pairs[j]));
}

/// The infusions of the rows, without any evidence.
fn load_rows(rows: &Vec<(u32, String, u32)>) -> (result: Option<HashMap<u32, Infusion>>)
    ensures
        match result {
            Some(catalog) => rows_known(rows_view(rows@)) && catalog_view(catalog@) == with_rows(
                rows_view(rows@),
            ),
            None => !rows_known(rows_view(rows@)),
        },
{
    broadcast use vstd::std_specs::hash::group_hash_axioms;

    let ghost all_rows = rows_view(rows@);
    let mut catalog: HashMap<u32, Infusion> = HashMap::new();
    let mut i: usize = 0;
    proof {
        assert(catalog_view(catalog@) =~= with_rows(all_rows.take(0)));
    }
    while i < rows.len()
        invariant
            0 <= i <= rows.len(),
            all_rows == rows_view(rows@),
            catalog_view(catalog@) == with_rows(all_rows.take(i as int)),
            forall|k: int| 0 <= k < i ==> type_of((#[trigger] all_rows[k]).2) is Some,
        decreases rows.len() - i,
    {
        let row = &rows[i];
        proof {
            lemma_with_rows_next(all_rows, i as int);
            assert(all_rows[i as int] == (row.0, row.1@, row.2));
        }
        match infusion_type(row.2) {
            None => {
                return None;
            },
            Some(kind) => {
                let ghost before = catalog@;
                catalog.insert(row.0, Infusion::new(row.0, row.1.clone(), kind));
                proof {
                    assert(catalog_view(catalog@) =~= with_row(
                        catalog_view(before),
                        all_rows[i as int],
                    ));
                }
            },
        }
        i += 1;
    }
    proof {
        assert(all_rows.take(all_rows.len() as int) =~= all_rows);
    }
    Some(catalog)
}

/// Whether the evidence of `pair` may be filed.
fn pair_fits(catalog: &HashMap<u32, Infusion>, pair: (u32, u32, u32, u32, u32)) -> (fit: bool)
    requires
        catalog@.contains_key(pair.0),
    ensures
        fit == fits(catalog_view(catalog@), pair),
{
    broadcast use vstd::std_specs::hash::group_hash_axioms;

    match catalog.get(&pair.0).unwrap().record(pair.1) {
        Some(data) => data.same_as(&CompatibilityData::new(pair.2, pair.3, pair.4)),
        None => true,
    }
}

/// Files the evidence of `pair` with both of its infusions.
fn file_pair(catalog: &mut HashMap<u32, Infusion>, pair: (u32, u32, u32, u32, u32))
    requires
        old(catalog)@.contains_key(pair.0),
        old(catalog)@.contains_key(pair.1),
        pair.0 != pair.1,
    ensures
        catalog_view(final(catalog)@) == with_pair(catalog_view(old(catalog)@), pair),
        final(catalog)@.dom() == old(catalog)@.dom(),
{
    broadcast use vstd::std_specs::hash::group_hash_axioms;

    let data = Rc::new(CompatibilityData::new(pair.2, pair.3, pair.4));
    let mut first = catalog.remove(&pair.0).unwrap();
    first.add_compatibility_data(pair.1, &data);
    catalog.insert(pair.0, first);
    let mut second = catalog.remove(&pair.1).unwrap();
    second.add_compatibility_data(pair.0, &data);
    catalog.insert(pair.1, second);
    proof {
        assert(final(catalog)@.dom() =~= old(catalog)@.dom());
        assert(catalog_view(final(catalog)@) =~= with_pair(catalog_view(old(catalog)@), pair));
    }
}

/// Puts the catalogue together from the rows and pairs of the store. The
/// evidence of a pair is filed with both of its infusions.
pub fn build_catalog(
    rows: &Vec<(u32, String, u32)>,
    pairs: &Vec<(u32, u32, u32, u32, u32)>,
) -> (result: Result<HashMap<u32, Infusion>, CatalogError>)
    ensures
        match result {
            Ok(catalog) => well_formed(rows_view(rows@), pairs@) && catalog_view(catalog@)
                == catalog_of(rows_view(rows@), pairs@),
            Err(e) => e == CatalogError::MalformedCatalog && !well_formed(rows_view(rows@), pairs@),
        },
{
    broadcast use vstd::std_specs::hash::group_hash_axioms;

    let ghost all_rows = rows_view(rows@);
    let mut catalog = match load_rows(rows) {
        Some(catalog) => catalog,
        None => {
            return Err(CatalogError::MalformedCatalog);
        },
    };
    let ghost base = with_rows(all_rows);
    proof {
        assert(pairs@.take(0) =~= Seq::empty());
        assert forall|a: u32, b: u32|
            base.contains_key(a) implies !#[trigger] base[a].records.contains_key(b) by {
            lemma_rows_dom(all_rows, a);
        }
        assert(catalog@.dom() =~= catalog_view(catalog@).dom());
    }
    let mut j: usize = 0;
    while j < pairs.len()
        invariant
            0 <= j <= pairs.len(),
            all_rows == rows_view(rows@),
            base == with_rows(all_rows),
            rows_known(all_rows),
            catalog_view(catalog@) == with_pairs(base, pairs@.take(j as int)),
            catalog@.dom() == base.dom(),
            tracks(catalog_view(catalog@), pairs@, j as int),
            pairs_known(all_rows, pairs@.take(j as int)),
            pairs_agree(pairs@.take(j as int)),
        decreases pairs.len() - j,
    {
        let pair = pairs[j];
        let ghost before = catalog_view(catalog@);
        proof {
            lemma_with_pairs_next(base, pairs@, j as int);
        }
        if pair.0 == pair.1 || !catalog.contains_key(&pair.0) || !catalog.contains_key(&pair.1) {
            proof {
                assert(!pairs_known(all_rows, pairs@));
            }
            return Err(CatalogError::MalformedCatalog);
        }
        if !pair_fits(&catalog, pair) {
            proof {
                lemma_misfit(before, pairs@, j as int);
            }
            return Err(CatalogError::MalformedCatalog);
        }
        file_pair(&mut catalog, pair);
        proof {
            lemma_tracks_next(before, pairs@, j as int);
            let next = pairs@.take(j + 1);
            assert forall|k: int| 0 <= k < next.len() implies (#[trigger] next[k]).0 != next[k].1
                && with_rows(all_rows).contains_key(next[k].0) && with_rows(all_rows).contains_key(
                next[k].1,
            ) by {
                if k < j {
                    assert(pairs@.take(j as int)[k] == next[k]);
                }
            }
        }
        j += 1;
    }
    proof {
        assert(pairs@.take(pairs@.len() as int) =~= pairs@);
    }
    Ok(catalog)
}

/// Whether the catalogue holds every infusion that was asked for.
pub fn require_known(catalog: &HashMap<u32, Infusion>, ids: &Vec<u32>) -> (result: Result<
    (),
    CatalogError,
>)
    ensures
        match result {
            Ok(()) => forall|i: int| 0 <= i < ids@.len() ==> catalog@.contains_key(#[trigger] ids@[i]),
            Err(e) => e == CatalogError::UnknownInfusion && exists|i: int|
                0 <= i < ids@.len() && !catalog@.contains_key(#[trigger] ids@[i]),
        },
{
    broadcast use vstd::std_specs::hash::group_hash_axioms;

    let mut i: usize = 0;
    while i < ids.len()
        invariant
            0 <= i <= ids.len(),
            forall|k: int| 0 <= k < i ==> catalog@.contains_key(#[trigger] ids@[k]),
        decreases ids.len() - i,
    {
        if !catalog.contains_key(&ids[i]) {
            return Err(CatalogError::UnknownInfusion);
        }
        i += 1;
    }
    Ok(())
}

/// The ids in decimal notation, separated by commas.
pub open spec fn id_list_of(ids: Seq<u32>) -> Seq<char>
    decreases ids.len(),
{
    if ids.len() == 0 {
        Seq::empty()
    } else if ids.len() == 1 {
        decimal(ids[0] as nat)
    } else {
        id_list_of(ids.drop_last()) + seq![','] + decimal(ids.last() as nat)
    }
}

/// The ids as they stand in a query: in decimal notation, separated by
/// commas.
pub fn id_list(ids: &Vec<u32>) -> (list: String)
    ensures
        list@ == id_list_of(ids@),
{
    let mut chars: Vec<char> = Vec::new();
    let mut i: usize = 0;
    proof {
        assert(ids@.take(0) =~= Seq::<u32>::empty());
    }
    while i < ids.len()
        invariant
            0 <= i <= ids.len(),
            chars@ == id_list_of(ids@.take(i as int)),
        decreases ids.len() - i,
    {
        proof {
            assert(ids@.take(i + 1).drop_last() =~= ids@.take(i as int));
            assert(ids@.take(i + 1).last() == ids@[i as int]);
        }
        if i > 0 {
            chars.push(',');
        }
        let ghost before = chars@;
        push_decimal(ids[i] as u64, &mut chars);
        proof {
            if i == 0 {
                assert(ids@.take(1)[0] == ids@[0]);
                assert(chars@ =~= decimal(ids@[0] as nat));
            } else {
                assert(chars@ =~= id_list_of(ids@.take(i as int)) + seq![','] + decimal(
                    ids@[i as int] as nat,
                ));
            }
        }
        i += 1;
    }
    proof {
        assert(ids@.take(ids@.len() as int) =~= ids@);
    }
    string_of(&chars)
}

/// The query for the rows of the infusions `ids`.
pub fn infusion_query(ids: &Vec<u32>) -> (query: String)
    ensures
        query@ == "SELECT id, name, type FROM infusion WHERE id IN ("@ + id_list_of(ids@) + ")"@,
{
    let list = id_list(ids);
    let head = joined("SELECT id, name, type FROM infusion WHERE id IN (", list.as_str());
    joined(head.as_str(), ")")
}

/// The query for the pairs among the infusions `ids`.
pub fn compatibility_query(ids: &Vec<u32>) -> (query: String)
    ensures
        query@
            == "SELECT infusion_a, infusion_b, compatible_results, incompatible_results, mixed_results FROM infusion_compatibility WHERE infusion_a IN ("@
            + id_list_of(ids@) + ") AND infusion_b IN ("@ + id_list_of(ids@) + ")"@,
{
    let list = id_list(ids);
    let first = joined(
        "SELECT infusion_a, infusion_b, compatible_results, incompatible_results, mixed_results FROM infusion_compatibility WHERE infusion_a IN (",
        list.as_str(),
    );
    let second = joined(first.as_str(), ") AND infusion_b IN (");
    let third = joined(second.as_str(), list.as_str());
    joined(third.as_str(), ")")
}

/// The address of the store, from the four values of its configuration.
pub fn db_url(user: &str, password: &str, host: &str, db_name: &str) -> (url: String)
    ensures
        url@ == "mysql://"@ + user@ + ":"@ + password@ + "@"@ + host@ + "/"@ + db_name@,
{
    let a = joined("mysql://", user);
    let b = joined(a.as_str(), ":");
    let c = joined(b.as_str(), password);
    let d = joined(c.as_str(), "@");
    let e = joined(d.as_str(), host);
    let f = joined(e.as_str(), "/");
    joined(f.as_str(), db_name)
}

} // verus!
