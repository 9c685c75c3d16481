use crate::text::chars_of;
use crate::text::string_of;
use vstd::prelude::*;

verus! {

/// Why a line of the import file was rejected.
#[derive(Debug, Clone, Copy, PartialEq, Eq, Structural)]
pub enum ImportError {
    /// The line has no name or no type, or its type is no number.
    MalformedRow,
    /// The line has more or fewer cells than the header has names.
    ColumnMismatch,
    /// A cell is neither empty nor three counts separated by colons.
    MalformedCell,
}

/// One infusion of the import file: its name, its type code, and the
/// evidence about it and other infusions, by their names, in the order of
/// the columns.
#[derive(Debug)]
pub struct InfusionInput {
    pub name: String,
    pub inf_type: u32,
    pub compat: Vec<(String, (u32, u32, u32))>,
}

/// What an infusion of the import file holds.
pub struct InputView {
    pub name: Seq<char>,
    pub inf_type: u32,
    pub compat: Seq<(Seq<char>, (u32, u32, u32))>,
}

impl View for InfusionInput {
    type V = InputView;

    open spec fn view(&self) -> InputView {
        InputView {
            name: self.name@,
            inf_type: self.inf_type,
            compat: self.compat@.map_values(
                |entry: (String, (u32, u32, u32))| (entry.0@, entry.1),
            ),
        }
    }
}

/// The fields of a line: the pieces between its separators. A line
/// without a separator is one field.
pub open spec fn fields(line: Seq<char>, sep: char) -> Seq<Seq<char>>
    decreases line.len(),
{
    if line.len() == 0 {
        seq![Seq::<char>::empty()]
    } else {
        let before = fields(line.drop_last(), sep);
        if line.last() == sep {
            before.push(Seq::<char>::empty())
        } else {
            before.drop_last().push(before.last().push(line.last()))
        }
    }
}

pub open spec fn is_digit(c: char) -> bool {
    '0' <= c && c <= '9'
}

/// The number that a text of digits stands for.
pub open spec fn value(text: Seq<char>) -> int
    decreases text.len(),
{
    if text.len() == 0 {
        0
    } else {
        value(text.drop_last()) * 10 + (text.last() as int - '0' as int)
    }
}

pub open spec fn all_digits(text: Seq<char>) -> bool {
    forall|i: int| 0 <= i < text.len() ==> is_digit(#[trigger] text[i])
}

/// The count that a text stands for: it is made of digits, at least one,
/// and the number fits.
pub open spec fn count_of(text: Seq<char>) -> Option<u32> {
    if text.len() > 0 && all_digits(text) && value(text) <= u32::MAX {
        Some(value(text) as u32)
    } else {
        None
    }
}

/// What a cell holds: nothing if it is empty, else the three counts that
/// stand in it, separated by colons.
pub open spec fn cell_of(text: Seq<char>) -> Result<Option<(u32, u32, u32)>, ImportError> {
    if text.len() == 0 {
        Ok(None)
    } else {
        let parts = fields(text, ':');
        if parts.len() == 3 && count_of(parts[0]) is Some && count_of(parts[1]) is Some && count_of(
            parts[2],
        ) is Some {
            Ok(Some((count_of(parts[0])->0, count_of(parts[1])->0, count_of(parts[2])->0)))
        } else {
            Err(ImportError::MalformedCell)
        }
    }
}

/// The evidence in the cells of a line, each with the name of its column.
pub open spec fn evidence_of(cells: Seq<Seq<char>>, columns: Seq<Seq<char>>) -> Result<
    Seq<(Seq<char>, (u32, u32, u32))>,
    ImportError,
>
    decreases cells.len(),
{
    if cells.len() == 0 {
        Ok(Seq::empty())
    } else {
        match evidence_of(cells.drop_last(), columns) {
            Err(e) => Err(e),
            Ok(before) => match cell_of(cells.last()) {
                Err(e) => Err(e),
                Ok(None) => Ok(before),
                Ok(Some(counts)) => Ok(before.push((columns[cells.len() - 1], counts))),
            },
        }
    }
}

/// The names that a header line gives the columns: its fields after the
/// first two.
pub open spec fn columns_of(header: Seq<char>) -> Seq<Seq<char>> {
    if fields(header, ',').len() >= 2 {
        fields(header, ',').skip(2)
    } else {
        Seq::empty()
    }
}

/// What a line of the import file holds, for the columns of its header.
pub open spec fn row_of(line: Seq<char>, columns: Seq<Seq<char>>) -> Result<InputView, ImportError> {
    let parts = fields(line, ',');
    if parts.len() < 2 || count_of(parts[1]) is None {
        Err(ImportError::MalformedRow)
    } else if parts.len() - 2 != columns.len() {
        Err(ImportError::ColumnMismatch)
    } else {
        match evidence_of(parts.skip(2), columns) {
            Err(e) => Err(e),
            Ok(compat) => Ok(InputView { name: parts[0], inf_type: count_of(parts[1])->0, compat }),
        }
    }
}

pub open spec fn texts(parts: Seq<Vec<char>>) -> Seq<Seq<char>> {
    parts.map_values(|part: Vec<char>| part@)
}

pub open spec fn names(parts: Seq<String>) -> Seq<Seq<char>> {
    parts.map_values(|part: String| part@)
}

/// Splits a line at its separators.
fn split(line: &Vec<char>, sep: char) -> (parts: Vec<Vec<char>>)
    ensures
        texts(parts@) == fields(line@, sep),
{
    let mut done: Vec<Vec<char>> = Vec::new();
    let mut current: Vec<char> = Vec::new();
    let mut i: usize = 0;
    proof {
        assert(line@.take(0) =~= Seq::<char>::empty());
        assert(texts(done@).push(current@) =~= fields(line@.take(0), sep));
    }
    while i < line.len()
        invariant
            0 <= i <= line.len(),
            texts(done@).push(current@) == fields(line@.take(i as int), sep),
        decreases line.len() - i,
    {
        let c = line[i];
        let ghost before = fields(line@.take(i as int), sep);
        let ghost old_done = done@;
        let ghost old_current = current@;
        proof {
            assert(line@.take(i + 1).drop_last() =~= line@.take(i as int));
            assert(line@.take(i + 1).last() == c);
            assert(before.last() == old_current);
            assert(before.drop_last() =~= texts(old_done));
        }
        if c == sep {
            done.push(current);
            current = Vec::new();
            proof {
                assert(texts(done@) =~= texts(old_done).push(old_current));
            }
        } else {
            current.push(c);
        }
        i += 1;
    }
    proof {
        assert(line@.take(line@.len() as int) =~= line@);
    }
    let ghost old_done = done@;
    let ghost last = current@;
    done.push(current);
    proof {
        assert(texts(done@) =~= texts(old_done).push(last));
    }
    done
}

/// The number of a prefix of a text of digits is no larger than the
/// number of the text.
proof fn lemma_value_grows(text: Seq<char>, i: int)
    requires
        all_digits(text),
        0 <= i <= text.len(),
    ensures
        0 <= value(text.take(i)) <= value(text),
    decreases text.len() - i,
{
    if i == text.len() {
        assert(text.take(i) =~= text);
        lemma_value_nonnegative(text);
    } else {
        lemma_value_grows(text, i + 1);
        assert(text.take(i + 1).drop_last() =~= text.take(i));
        assert(is_digit(text[i]));
        assert(text.take(i + 1).last() == text[i]);
        lemma_value_nonnegative(text.take(i));
        assert(all_digits(text.take(i))) by {
            assert forall|k: int| 0 <= k < text.take(i).len() implies is_digit(
                #[trigger] text.take(i)[k],
            ) by {
                assert(is_digit(text[k]));
            }
        }
    }
}

proof fn lemma_value_nonnegative(text: Seq<char>)
    requires
        all_digits(text),
    ensures
        0 <= value(text),
    decreases text.len(),
{
    if text.len() > 0 {
        assert(all_digits(text.drop_last())) by {
            assert forall|k: int| 0 <= k < text.drop_last().len() implies is_digit(
                #[trigger] text.drop_last()[k],
            ) by {
                assert(is_digit(text[k]));
            }
        }
        lemma_value_nonnegative(text.drop_last());
        assert(is_digit(text[text.len() - 1]));
    }
}

/// Reads a count.
fn parse_count(text: &Vec<char>) -> (count: Option<u32>)
    ensures
        count == count_of(text@),
{
    if text.len() == 0 {
        return None;
    }
    let mut total: u64 = 0;
    let mut i: usize = 0;
    proof {
        assert(text@.take(0) =~= Seq::<char>::empty());
    }
    while i < text.len()
        invariant
            0 <= i <= text.len(),
            all_digits(text@.take(i as int)),
            total == value(text@.take(i as int)),
            total <= u32::MAX,
        decreases text.len() - i,
    {
        let c = text[i];
        proof {
            assert(text@.take(i + 1).drop_last() =~= text@.take(i as int));
            assert(text@.take(i + 1).last() == c);
        }
        if !(c >= '0' && c <= '9') {
            proof {
                assert(!is_digit(text@[i as int]));
            }
            return None;
        }
        proof {
            assert forall|k: int| 0 <= k < text@.take(i + 1).len() implies is_digit(
                #[trigger] text@.take(i + 1)[k],
            ) by {
                if k < i {
                    assert(is_digit(text@.take(i as int)[k]));
                }
            }
        }
        let next = total * 10 + (c as u64 - '0' as u64);
        if next > u32::MAX as u64 {
            proof {
                if all_digits(text@) {
                    lemma_value_grows(text@, i + 1);
                }
            }
            return None;
        }
        total = next;
        i += 1;
    }
    proof {
        assert(text@.take(text@.len() as int) =~= text@);
    }
    Some(total as u32)
}

/// Reads a cell.
fn parse_cell(text: &Vec<char>) -> (cell: Result<Option<(u32, u32, u32)>, ImportError>)
    ensures
        cell == cell_of(text@),
{
    if text.len() == 0 {
        return Ok(None);
    }
    let parts = split(text, ':');
    if parts.len() != 3 {
        return Err(ImportError::MalformedCell);
    }
    proof {
        assert(texts(parts@)[0] == parts@[0]@);
        assert(texts(parts@)[1] == parts@[1]@);
        assert(texts(parts@)[2] == parts@[2]@);
    }
    match (parse_count(&parts[0]), parse_count(&parts[1]), parse_count(&parts[2])) {
        (Some(compatible), Some(incompatible), Some(mixed)) => Ok(
            Some((compatible, incompatible, mixed)),
        ),
        _ => Err(ImportError::MalformedCell),
    }
}

/// Reads the header line of the import file: the names of the columns.
pub fn parse_header(header: &str) -> (columns: Vec<String>)
    ensures
        names(columns@) == columns_of(header@),
{
    let line = chars_of(header);
    let parts = split(&line, ',');
    let mut columns: Vec<String> = Vec::new();
    let mut i: usize = 2;
    proof {
        assert(names(columns@) =~= fields(header@, ',').skip(2).take(0));
    }
    while i < parts.len()
        invariant
            2 <= i,
            i <= parts.len() || parts.len() < 2,
            texts(parts@) == fields(header@, ','),
            parts.len() >= 2 ==> names(columns@) == fields(header@, ',').skip(2).take(i - 2),
            parts.len() < 2 ==> columns@.len() == 0,
        decreases parts.len() - i,
    {
        let ghost before = columns@;
        let name = string_of(&parts[i]);
        columns.push(name);
        proof {
            let all = fields(header@, ',').skip(2);
            assert(texts(parts@)[i as int] == parts@[i as int]@);
            assert(names(columns@) =~= names(before).push(parts@[i as int]@));
            assert(all.take(i - 1) =~= all.take(i - 2).push(all[i - 2]));
        }
        i += 1;
    }
    proof {
        let all = fields(header@, ',').skip(2);
        if parts.len() >= 2 {
            assert(all.take(all.len() as int) =~= all);
        } else {
            assert(names(columns@) =~= Seq::<Seq<char>>::empty());
        }
    }
    columns
}

/// Reads a line of the import file that follows the header with the
/// columns `columns`.
pub fn parse_row(line: &str, columns: &Vec<String>) -> (row: Result<InfusionInput, ImportError>)
    ensures
        match row {
            Ok(input) => row_of(line@, names(columns@)) == Ok::<InputView, ImportError>(input@),
            Err(e) => row_of(line@, names(columns@)) == Err::<InputView, ImportError>(e),
        },
{
    let chars = chars_of(line);
    let parts = split(&chars, ',');
    let ghost all = fields(line@, ',');
    if parts.len() < 2 {
        return Err(ImportError::MalformedRow);
    }
    proof {
        assert(texts(parts@)[0] == parts@[0]@);
        assert(texts(parts@)[1] == parts@[1]@);
    }
    let inf_type = match parse_count(&parts[1]) {
        Some(code) => code,
        None => {
            return Err(ImportError::MalformedRow);
        },
    };
    if parts.len() - 2 != columns.len() {
        return Err(ImportError::ColumnMismatch);
    }
    let ghost cells = all.skip(2);
    let mut compat: Vec<(String, (u32, u32, u32))> = Vec::new();
    let mut i: usize = 0;
    proof {
        assert(cells.take(0) =~= Seq::empty());
        assert(compat@.map_values(|entry: (String, (u32, u32, u32))| (entry.0@, entry.1))
            =~= Seq::empty());
    }
    while i < columns.len()
        invariant
            0 <= i <= columns.len(),
            parts.len() - 2 == columns.len(),
            texts(parts@) == all,
            all == fields(line@, ','),
            count_of(all[1]) == Some(inf_type),
            cells == all.skip(2),
            evidence_of(cells.take(i as int), names(columns@)) == Ok::<
                Seq<(Seq<char>, (u32, u32, u32))>,
                ImportError,
            >(compat@.map_values(|entry: (String, (u32, u32, u32))| (entry.0@, entry.1))),
        decreases columns.len() - i,
    {
        let ghost before = compat@.map_values(
            |entry: (String, (u32, u32, u32))| (entry.0@, entry.1),
        );
        proof {
            assert(cells.take(i + 1).drop_last() =~= cells.take(i as int));
            assert(cells.take(i + 1).last() == cells[i as int]);
            assert(texts(parts@)[i + 2] == parts@[i + 2]@);
            assert(cells[i as int] == parts@[i + 2]@);
            assert(names(columns@)[i as int] == columns@[i as int]@);
        }
        match parse_cell(&parts[i + 2]) {
            Err(e) => {
                proof {
                    assert(cell_of(cells.take(i + 1).last()) == Err::<
                        Option<(u32, u32, u32)>,
                        ImportError,
                    >(e));
                    assert(evidence_of(cells.take(i + 1), names(columns@)) == Err::<
                        Seq<(Seq<char>, (u32, u32, u32))>,
                        ImportError,
                    >(e));
                    lemma_evidence_stops(cells, names(columns@), i + 1);
                    assert(all.len() - 2 == names(columns@).len());
                }
                return Err(e);
            },
            Ok(None) => {},
            Ok(Some(counts)) => {
                compat.push((columns[i].clone(), counts));
                proof {
                    assert(compat@.map_values(
                        |entry: (String, (u32, u32, u32))| (entry.0@, entry.1),
                    ) =~= before.push((columns@[i as int]@, counts)));
                }
            },
        }
        i += 1;
    }
    proof {
        assert(cells.take(cells.len() as int) =~= cells);
    }
    Ok(InfusionInput { name: string_of(&parts[0]), inf_type, compat })
}

/// A malformed cell among the first `i` spoils the line.
proof fn lemma_evidence_stops(cells: Seq<Seq<char>>, columns: Seq<Seq<char>>, i: int)
    requires
        0 <= i <= cells.len(),
        evidence_of(cells.take(i), columns) is Err,
    ensures
        evidence_of(cells, columns) == evidence_of(cells.take(i), columns),
    decreases cells.len() - i,
{
    if i < cells.len() {
        assert(cells.take(i + 1).drop_last() =~= cells.take(i));
        lemma_evidence_stops(cells, columns, i + 1);
    } else {
        assert(cells.take(i) =~= cells);
    }
}

/// The row of the store for the evidence about two different infusions:
/// the smaller id comes first.
pub fn compatibility_row(id: u32, other_id: u32, counts: (u32, u32, u32)) -> (row: (
    u32,
    u32,
    u32,
    u32,
    u32,
))
    requires
        id != other_id,
    ensures
        row.0 < row.1,
        (row.0 == id && row.1 == other_id) || (row.0 == other_id && row.1 == id),
        row.2 == counts.0 && row.3 == counts.1 && row.4 == counts.2,
{
    if id < other_id {
        (id, other_id, counts.0, counts.1, counts.2)
    } else {
        (other_id, id, counts.0, counts.1, counts.2)
    }
}

/// The row to write to the store for a cell of the import file: none for a
/// cell that pairs an infusion with itself, which the store never holds;
/// else the row of the two infusions.
pub fn store_row(id: u32, other_id: u32, counts: (u32, u32, u32)) -> (row: Option<
    (u32, u32, u32, u32, u32),
>)
    ensures
        row is None <==> id == other_id,
        row matches Some(r) ==> r.0 < r.1 && ((r.0 == id && r.1 == other_id) || (r.0 == other_id
            && r.1 == id)) && r.2 == counts.0 && r.3 == counts.1 && r.4 == counts.2,
{
    if id == other_id {
        None
    } else {
        Some(compatibility_row(id, other_id, counts))
    }
}

} // verus!
