//! States and shapes: one record for each pair of a state and one of its
//! shapes, the set of shapes met, and the two tables written from them.

use crate::sheet::{grid_text, row_limit, text_or_empty, Sheet};
use crate::text::{
    collapse, distinct, fragments, free_of, lemma_fragments_clean, push_char, split_fragments, texts,
};
use vstd::prelude::*;

verus! {

/// A state with one of its shapes.
#[derive(Clone, Debug, PartialEq, Eq)]
pub struct StateRecord {
    pub name: String,
    pub description: String,
    pub shape: String,
}

/// A state record as character sequences.
pub ghost struct StateRecordView {
    pub name: Seq<char>,
    pub description: Seq<char>,
    pub shape: Seq<char>,
}

impl View for StateRecord {
    type V = StateRecordView;

    open spec fn view(&self) -> StateRecordView {
        StateRecordView { name: self.name@, description: self.description@, shape: self.shape@ }
    }
}

/// The views of a vector of records.
pub open spec fn record_views(v: Seq<StateRecord>) -> Seq<StateRecordView> {
    v.map_values(|r: StateRecord| r@)
}

/// One record for each shape, in the order of the shapes, all with the same
/// name and description.
pub open spec fn fan_out(name: Seq<char>, description: Seq<char>, shapes: Seq<Seq<char>>) -> Seq<
    StateRecordView,
> {
    Seq::new(
        shapes.len(),
        |i: int| StateRecordView { name: name, description: description, shape: shapes[i] },
    )
}

/// The records of one row: none where the shape cell has no text, else one
/// for each value that the shape cell lists. A name or description without
/// text counts as empty.
pub open spec fn row_records(g: Seq<Seq<Option<Seq<char>>>>, row: int) -> Seq<StateRecordView> {
    match grid_text(g, row, 2) {
        Some(cell) => fan_out(text_or_empty(g, row, 0), text_or_empty(g, row, 1), fragments(cell)),
        None => Seq::empty(),
    }
}

/// The records of the rows from 1 up to `end`, which does not count.
pub open spec fn records_before(g: Seq<Seq<Option<Seq<char>>>>, end: int) -> Seq<StateRecordView>
    decreases end,
{
    if end <= 1 {
        Seq::empty()
    } else {
        records_before(g, end - 1) + row_records(g, end - 1)
    }
}

/// The records of a states sheet: those of its rows below the header, in
/// sheet order, as far as rows are read.
pub open spec fn state_records(g: Seq<Seq<Option<Seq<char>>>>) -> Seq<StateRecordView> {
    records_before(g, row_limit(g))
}

/// The shape of each record, in order.
pub open spec fn shapes_of(rs: Seq<StateRecordView>) -> Seq<Seq<char>> {
    rs.map_values(|r: StateRecordView| r.shape)
}

/// The records of the rows before `row` stay in front when rows up to `end`
/// are read.
pub proof fn lemma_records_prefix(g: Seq<Seq<Option<Seq<char>>>>, row: int, end: int)
    requires
        1 <= row <= end,
    ensures
        records_before(g, row).len() <= records_before(g, end).len(),
        records_before(g, end).subrange(0, records_before(g, row).len() as int) == records_before(
            g,
            row,
        ),
    decreases end - row,
{
    if row < end {
        lemma_records_prefix(g, row, end - 1);
        assert(records_before(g, end).subrange(0, records_before(g, row).len() as int)
            =~= records_before(g, end - 1).subrange(0, records_before(g, row).len() as int));
    } else {
        assert(records_before(g, end).subrange(0, records_before(g, row).len() as int)
            =~= records_before(g, row));
    }
}

/// Fan-out: a row that is read and whose shape cell lists the values
/// `s1 .. sk` gives exactly `k` records. They follow the records of the rows
/// before it, in the order of the values, each with the row's name and
/// description and with one of the values as its shape.
pub proof fn lemma_fan_out(g: Seq<Seq<Option<Seq<char>>>>, row: int, cell: Seq<char>)
    requires
        1 <= row < row_limit(g),
        grid_text(g, row, 2) == Some(cell),
    ensures
        row_records(g, row).len() == fragments(cell).len(),
        records_before(g, row + 1) == records_before(g, row) + row_records(g, row),
        records_before(g, row).len() + fragments(cell).len() <= state_records(g).len(),
        forall|i: int|
            0 <= i < fragments(cell).len() ==> #[trigger] state_records(g)[records_before(
                g,
                row,
            ).len() + i] == (StateRecordView {
                name: text_or_empty(g, row, 0),
                description: text_or_empty(g, row, 1),
                shape: fragments(cell)[i],
            }),
{
    let before = records_before(g, row);
    let upto = records_before(g, row + 1);
    lemma_records_prefix(g, row + 1, row_limit(g));
    assert forall|i: int| 0 <= i < fragments(cell).len() implies #[trigger] state_records(
        g,
    )[before.len() + i] == (StateRecordView {
        name: text_or_empty(g, row, 0),
        description: text_or_empty(g, row, 1),
        shape: fragments(cell)[i],
    }) by {
        assert(state_records(g).subrange(0, upto.len() as int)[before.len() + i] == upto[before.len()
            + i]);
        assert(upto[before.len() + i] == row_records(g, row)[i]);
    }
}

/// Whether the shape of each record is a value: not empty, and without a
/// space or a comma.
pub open spec fn shapes_are_values(rs: Seq<StateRecordView>) -> bool {
    forall|i: int|
        0 <= i < rs.len() ==> {
            &&& (#[trigger] rs[i]).shape.len() > 0
            &&& free_of(rs[i].shape, ' ')
            &&& free_of(rs[i].shape, ',')
        }
}

/// Every record has a shape that is a value.
pub proof fn lemma_shapes_are_values(g: Seq<Seq<Option<Seq<char>>>>, end: int)
    ensures
        shapes_are_values(records_before(g, end)),
    decreases end,
{
    if end > 1 {
        lemma_shapes_are_values(g, end - 1);
        match grid_text(g, end - 1, 2) {
            Some(cell) => {
                lemma_fragments_clean(cell);
            },
            None => {},
        }
    }
}

/// A row that is read and whose shape cell has no text gives no record.
pub proof fn lemma_no_shape_no_record(g: Seq<Seq<Option<Seq<char>>>>, row: int)
    requires
        1 <= row,
        grid_text(g, row, 2) is None,
    ensures
        records_before(g, row + 1) == records_before(g, row),
{
    assert(records_before(g, row) + row_records(g, row) =~= records_before(g, row));
}

/// The records that one state gives: one for each value listed in `cell`.
pub fn row_states(name: &str, description: &str, cell: &str) -> (out: Vec<StateRecord>)
    ensures
        record_views(out@) == fan_out(name@, description@, fragments(cell@)),
        out.len() == fragments(cell@).len(),
        forall|i: int|
            0 <= i < out.len() ==> (#[trigger] out[i])@ == (StateRecordView {
                name: name@,
                description: description@,
                shape: fragments(cell@)[i],
            }),
{
    let shapes: Vec<String> = split_fragments(cell);
    let mut out: Vec<StateRecord> = Vec::new();
    let mut i: usize = 0;
    while i < shapes.len()
        invariant
            i <= shapes.len(),
            texts(shapes@) == fragments(cell@),
            out.len() == i,
            forall|j: int|
                0 <= j < i ==> (#[trigger] out[j])@ == (StateRecordView {
                    name: name@,
                    description: description@,
                    shape: fragments(cell@)[j],
                }),
        decreases shapes.len() - i,
    {
        assert(texts(shapes@)[i as int] == shapes[i as int]@);
        out.push(
            StateRecord {
                name: String::from_str(name),
                description: String::from_str(description),
                shape: shapes[i].clone(),
            },
        );
        i += 1;
    }
    proof {
        assert(texts(shapes@).len() == shapes.len());
        assert(record_views(out@) =~= fan_out(name@, description@, fragments(cell@)));
    }
    out
}

/// Reads the states sheet: for each row below the header whose shape cell has
/// text, one record for each shape listed there.
pub fn extract_states(sheet: &Sheet) -> (out: Vec<StateRecord>)
    ensures
        record_views(out@) == state_records(sheet@),
        shapes_are_values(record_views(out@)),
{
    proof {
        lemma_shapes_are_values(sheet@, row_limit(sheet@));
    }
    let end: usize = sheet.limit();
    let mut out: Vec<StateRecord> = Vec::new();
    let mut row: usize = 1;
    proof {
        assert(record_views(out@) =~= records_before(sheet@, 1));
    }
    if end <= 1 {
        return out;
    }
    while row < end
        invariant
            1 <= row <= end,
            end == row_limit(sheet@),
            record_views(out@) == records_before(sheet@, row as int),
        decreases end - row,
    {
        match sheet.text_at(row, 2) {
            Some(cell) => {
                let name: &str = match sheet.text_at(row, 0) {
                    Some(s) => s.as_str(),
                    None => "",
                };
                let description: &str = match sheet.text_at(row, 1) {
                    Some(s) => s.as_str(),
                    None => "",
                };
                proof {
                    reveal_strlit("");
                    assert(name@ =~= text_or_empty(sheet@, row as int, 0));
                    assert(description@ =~= text_or_empty(sheet@, row as int, 1));
                }
                let mut found: Vec<StateRecord> = row_states(name, description, cell.as_str());
                proof {
                    assert(record_views(out@ + found@) =~= record_views(out@) + record_views(
                        found@,
                    ));
                }
                out.append(&mut found);
            },
            None => {
                proof {
                    assert(record_views(out@) + row_records(sheet@, row as int) =~= record_views(
                        out@,
                    ));
                }
            },
        }
        row += 1;
    }
    out
}

/// The distinct shapes of the records, each once, in the order in which they
/// first occur.
pub fn shape_names(records: &Vec<StateRecord>) -> (out: Vec<String>)
    ensures
        texts(out@) == distinct(shapes_of(record_views(records@))),
        texts(out@).no_duplicates(),
        forall|x: Seq<char>|
            texts(out@).contains(x) <==> shapes_of(record_views(records@)).contains(x),
{
    let mut all: Vec<String> = Vec::new();
    let mut i: usize = 0;
    while i < records.len()
        invariant
            i <= records.len(),
            all.len() == i,
            forall|j: int| 0 <= j < i ==> (#[trigger] all[j])@ == records[j].shape@,
        decreases records.len() - i,
    {
        all.push(records[i].shape.clone());
        i += 1;
    }
    proof {
        assert(texts(all@) =~= shapes_of(record_views(records@)));
    }
    collapse(&all)
}

/// The text between double quotes, as it is.
pub open spec fn quoted(s: Seq<char>) -> Seq<char> {
    seq!['"'] + s + seq!['"']
}

/// The line of one record: its three fields quoted, with commas between them
/// and a line feed at the end.
pub open spec fn state_line(r: StateRecordView) -> Seq<char> {
    quoted(r.name) + seq![','] + quoted(r.description) + seq![','] + quoted(r.shape) + seq!['\n']
}

/// The lines of the records, in order.
pub open spec fn state_lines(rs: Seq<StateRecordView>) -> Seq<char>
    decreases rs.len(),
{
    if rs.len() == 0 {
        Seq::empty()
    } else {
        state_lines(rs.drop_last()) + state_line(rs.last())
    }
}

/// The states table: the header line, then the line of each record.
pub open spec fn states_csv(rs: Seq<StateRecordView>) -> Seq<char> {
    "\"name\",\"description\",\"shape\"\n"@ + state_lines(rs)
}

/// Each name on a line of its own.
pub open spec fn name_lines(names: Seq<Seq<char>>) -> Seq<char>
    decreases names.len(),
{
    if names.len() == 0 {
        Seq::empty()
    } else {
        name_lines(names.drop_last()) + names.last() + seq!['\n']
    }
}

/// The shapes table: the header line, then each shape on its own line.
pub open spec fn shapes_csv(names: Seq<Seq<char>>) -> Seq<char> {
    "name\n"@ + name_lines(names)
}

/// The lines of records put one after the other are the lines of the first
/// followed by the lines of the second: each row of the sheet has its own
/// block of lines in the table, in sheet order.
pub proof fn lemma_state_lines_concat(a: Seq<StateRecordView>, b: Seq<StateRecordView>)
    ensures
        state_lines(a + b) == state_lines(a) + state_lines(b),
    decreases b.len(),
{
    if b.len() == 0 {
        assert(a + b =~= a);
        assert(state_lines(a) + state_lines(b) =~= state_lines(a));
    } else {
        lemma_state_lines_concat(a, b.drop_last());
        assert((a + b).drop_last() =~= a + b.drop_last());
        assert((a + b).last() == b.last());
        assert(state_lines(a + b) =~= state_lines(a) + state_lines(b));
    }
}

/// Sheets with the same cells give the same two tables, character for
/// character.
pub proof fn lemma_same_cells_same_tables(
    a: Sheet,
    b: Sheet,
    from_a: Vec<StateRecord>,
    from_b: Vec<StateRecord>,
)
    requires
        a@ == b@,
        record_views(from_a@) == state_records(a@),
        record_views(from_b@) == state_records(b@),
    ensures
        states_csv(record_views(from_a@)) == states_csv(record_views(from_b@)),
        shapes_csv(distinct(shapes_of(record_views(from_a@)))) == shapes_csv(
            distinct(shapes_of(record_views(from_b@))),
        ),
{
}

fn push_quoted(out: &mut String, s: &str)
    ensures
        final(out)@ == old(out)@ + quoted(s@),
{
    push_char(out, '"');
    out.append(s);
    push_char(out, '"');
    proof {
        assert(final(out)@ =~= old(out)@ + quoted(s@));
    }
}

/// The text of the states table for these records.
pub fn states_csv_text(records: &Vec<StateRecord>) -> (out: String)
    ensures
        out@ == states_csv(record_views(records@)),
{
    let mut out: String = String::from_str("\"name\",\"description\",\"shape\"\n");
    let ghost header = out@;
    let mut i: usize = 0;
    proof {
        assert(record_views(records@).take(0).len() == 0);
        assert(out@ =~= header + state_lines(record_views(records@).take(0)));
    }
    while i < records.len()
        invariant
            i <= records.len(),
            out@ == header + state_lines(record_views(records@).take(i as int)),
        decreases records.len() - i,
    {
        let ghost before = out@;
        push_quoted(&mut out, records[i].name.as_str());
        push_char(&mut out, ',');
        push_quoted(&mut out, records[i].description.as_str());
        push_char(&mut out, ',');
        push_quoted(&mut out, records[i].shape.as_str());
        push_char(&mut out, '\n');
        proof {
            let rs = record_views(records@);
            assert(rs.take(i + 1).drop_last() == rs.take(i as int));
            assert(rs.take(i + 1).last() == records[i as int]@);
            assert(out@ =~= before + state_line(records[i as int]@));
            assert(out@ =~= header + state_lines(rs.take(i + 1)));
        }
        i += 1;
    }
    proof {
        assert(record_views(records@).take(records.len() as int) == record_views(records@));
    }
    out
}

/// The text of the shapes table for these names.
pub fn shapes_csv_text(names: &Vec<String>) -> (out: String)
    ensures
        out@ == shapes_csv(texts(names@)),
{
    let mut out: String = String::from_str("name\n");
    let ghost header = out@;
    let mut i: usize = 0;
    proof {
        assert(texts(names@).take(0).len() == 0);
        assert(out@ =~= header + name_lines(texts(names@).take(0)));
    }
    while i < names.len()
        invariant
            i <= names.len(),
            out@ == header + name_lines(texts(names@).take(i as int)),
        decreases names.len() - i,
    {
        let ghost before = out@;
        out.append(names[i].as_str());
        push_char(&mut out, '\n');
        proof {
            let ns = texts(names@);
            assert(ns.take(i + 1).drop_last() == ns.take(i as int));
            assert(ns.take(i + 1).last() == names[i as int]@);
            assert(out@ =~= before + names[i as int]@ + seq!['\n']);
            assert(out@ =~= header + name_lines(ns.take(i + 1)));
        }
        i += 1;
    }
    proof {
        assert(texts(names@).take(names.len() as int) == texts(names@));
    }
    out
}

} // verus!
