//! Reading the sheets of a workbook in memory into grids of cell texts.

use crate::sheet::{Sheet, MAX_ROWS};
use crate::states::{extract_states, record_views, state_records, StateRecord};
use crate::steps::{extract_steps, steps_outcome, Step, StepsError};
use spreadsheet_ods::WorkBook;
use vstd::prelude::*;

verus! {

/// A workbook of `spreadsheet_ods`. Nothing inside it is visible here.
#[verifier::external_type_specification]
#[verifier::external_body]
pub struct ExWorkBook(spreadsheet_ods::WorkBook);

/// The names of the workbook's sheets, in their order; `None` for a sheet
/// that has been detached from the workbook.
pub uninterp spec fn sheet_names(wb: WorkBook) -> Seq<Option<Seq<char>>>;

/// The text cells of the workbook: the text at each sheet index, row and
/// column at which a cell holds plain text.
pub uninterp spec fn text_cells(wb: WorkBook) -> Map<(int, int, int), Seq<char>>;

/// Whether every sheet of the workbook is in its place.
pub open spec fn attached(wb: WorkBook) -> bool {
    forall|i: int| 0 <= i < sheet_names(wb).len() ==> (#[trigger] sheet_names(wb)[i]) is Some
}

/// Whether `i` is the index of the first sheet with this name.
pub open spec fn first_named(wb: WorkBook, name: Seq<char>, i: int) -> bool {
    &&& 0 <= i < sheet_names(wb).len()
    &&& sheet_names(wb)[i] == Some(name)
    &&& forall|j: int| 0 <= j < i ==> sheet_names(wb)[j] != Some(name)
}

/// Whether the workbook has no sheet with this name.
pub open spec fn no_sheet_named(wb: WorkBook, name: Seq<char>) -> bool {
    forall|j: int| 0 <= j < sheet_names(wb).len() ==> sheet_names(wb)[j] != Some(name)
}

/// The text of one cell, if it holds text.
pub open spec fn cell_of(wb: WorkBook, sheet: int, row: int, col: int) -> Option<Seq<char>> {
    if text_cells(wb).contains_key((sheet, row, col)) {
        Some(text_cells(wb)[(sheet, row, col)])
    } else {
        None
    }
}

/// The grid of the rows of a sheet that are read, `cols` columns wide.
pub open spec fn window(wb: WorkBook, sheet: int, cols: int) -> Seq<Seq<Option<Seq<char>>>> {
    Seq::new(
        MAX_ROWS as nat,
        |r: int| Seq::new(cols as nat, |c: int| cell_of(wb, sheet, r, c)),
    )
}

/// `WorkBook::sheet_idx`: the index of the first sheet with this name, or
/// `None` where no sheet has it. It walks the sheets in order and reads each
/// name, which it cannot do of a detached sheet.
#[verifier::external_body]
fn sheet_index(wb: &WorkBook, name: &str) -> (idx: Option<usize>)
    requires
        attached(*wb),
    ensures
        match idx {
            Some(i) => {
                &&& i < sheet_names(*wb).len()
                &&& sheet_names(*wb)[i as int] == Some(name@)
                &&& forall|j: int| 0 <= j < i ==> sheet_names(*wb)[j] != Some(name@)
            },
            None => forall|j: int|
                0 <= j < sheet_names(*wb).len() ==> sheet_names(*wb)[j] != Some(name@),
        },
{
    wb.sheet_idx(name)
}

/// `WorkBook::sheet`, then `Sheet::value` and `Value::as_string_opt` on what
/// it returns: the text of the cell at `row` and `col` of the sheet, where
/// there is a cell and it holds plain text, else `None`.
#[verifier::external_body]
fn cell_text(wb: &WorkBook, sheet: usize, row: u32, col: u32) -> (text: Option<String>)
    requires
        sheet < sheet_names(*wb).len(),
        sheet_names(*wb)[sheet as int] is Some,
    ensures
        match text {
            Some(s) => {
                &&& text_cells(*wb).contains_key((sheet as int, row as int, col as int))
                &&& text_cells(*wb)[(sheet as int, row as int, col as int)] == s@
            },
            None => !text_cells(*wb).contains_key((sheet as int, row as int, col as int)),
        },
{
    wb.sheet(sheet).value(row, col).as_string_opt()
}

/// Reads the first `cols` columns of the sheet with this name, over the rows
/// that are read. `None` where the workbook has no such sheet.
pub fn load_sheet(wb: &WorkBook, name: &str, cols: u32) -> (res: Option<Sheet>)
    requires
        attached(*wb),
    ensures
        match res {
            Some(sheet) => exists|i: int|
                first_named(*wb, name@, i) && sheet@ == window(*wb, i, cols as int),
            None => no_sheet_named(*wb, name@),
        },
{
    let idx: usize = match sheet_index(wb, name) {
        Some(i) => i,
        None => {
            return None;
        },
    };
    let mut rows: Vec<Vec<Option<String>>> = Vec::new();
    let mut r: u32 = 0;
    while (r as usize) < MAX_ROWS
        invariant
            r <= MAX_ROWS,
            first_named(*wb, name@, idx as int),
            rows.len() == r,
            forall|q: int|
                0 <= q < r ==> crate::sheet::row_view(#[trigger] rows[q]) == Seq::new(
                    cols as nat,
                    |c: int| cell_of(*wb, idx as int, q, c),
                ),
        decreases MAX_ROWS - r,
    {
        let mut cells: Vec<Option<String>> = Vec::new();
        let mut c: u32 = 0;
        while c < cols
            invariant
                c <= cols,
                first_named(*wb, name@, idx as int),
                cells.len() == c,
                forall|k: int|
                    0 <= k < c ==> crate::sheet::cell_view(#[trigger] cells[k]) == cell_of(
                        *wb,
                        idx as int,
                        r as int,
                        k,
                    ),
            decreases cols - c,
        {
            cells.push(cell_text(wb, idx, r, c));
            c += 1;
        }
        proof {
            assert(crate::sheet::row_view(cells) =~= Seq::new(
                cols as nat,
                |c: int| cell_of(*wb, idx as int, r as int, c),
            ));
        }
        rows.push(cells);
        r += 1;
    }
    let sheet: Sheet = Sheet::new(rows);
    proof {
        assert(sheet@ =~= window(*wb, idx as int, cols as int));
    }
    Some(sheet)
}

/// The state records of the workbook's sheet `states`; `None` where it has
/// no such sheet.
pub fn workbook_states(wb: &WorkBook) -> (res: Option<Vec<StateRecord>>)
    requires
        attached(*wb),
    ensures
        match res {
            Some(records) => exists|i: int|
                first_named(*wb, "states"@, i) && record_views(records@) == state_records(
                    window(*wb, i, 3),
                ),
            None => no_sheet_named(*wb, "states"@),
        },
{
    match load_sheet(wb, "states", 3) {
        Some(sheet) => Some(extract_states(&sheet)),
        None => None,
    }
}

/// The steps of the workbook's sheet `steps`, or why it cannot be read;
/// `None` where the workbook has no such sheet.
pub fn workbook_steps(wb: &WorkBook) -> (res: Option<Result<Vec<Step>, StepsError>>)
    requires
        attached(*wb),
    ensures
        match res {
            Some(outcome) => exists|i: int|
                first_named(*wb, "steps"@, i) && steps_outcome(window(*wb, i, 5), outcome),
            None => no_sheet_named(*wb, "steps"@),
        },
{
    match load_sheet(wb, "steps", 5) {
        Some(sheet) => Some(extract_steps(&sheet)),
        None => None,
    }
}

} // verus!
