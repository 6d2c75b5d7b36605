//! Steps: one record for each row of the steps sheet, up to the first row
//! without a name.

use crate::sheet::{grid_text, row_limit, text_or_empty, Sheet};
use crate::text::{cell_values, is_value_set, texts, value_set};
use vstd::prelude::*;

verus! {

/// A transition from a set of states to a set of states, tagged with levels.
/// The three lists hold sets: no value occurs twice in one of them.
#[derive(Clone, Debug, PartialEq, Eq)]
pub struct Step {
    pub name: String,
    pub description: String,
    pub levels: Vec<String>,
    pub start_states: Vec<String>,
    pub end_states: Vec<String>,
}

/// A step as character sequences.
pub ghost struct StepView {
    pub name: Seq<char>,
    pub description: Seq<char>,
    pub levels: Seq<Seq<char>>,
    pub start_states: Seq<Seq<char>>,
    pub end_states: Seq<Seq<char>>,
}

impl StepView {
    /// Each of the three lists is a set of values.
    pub open spec fn well_formed(self) -> bool {
        &&& is_value_set(self.levels)
        &&& is_value_set(self.start_states)
        &&& is_value_set(self.end_states)
    }
}

impl View for Step {
    type V = StepView;

    open spec fn view(&self) -> StepView {
        StepView {
            name: self.name@,
            description: self.description@,
            levels: texts(self.levels@),
            start_states: texts(self.start_states@),
            end_states: texts(self.end_states@),
        }
    }
}

/// Why a steps sheet cannot be read.
#[derive(Clone, Copy, Debug, PartialEq, Eq, Structural)]
pub enum StepsError {
    /// The row has a name and no description.
    MissingDescription { row: usize },
    /// The row has a name and a description, and no end states.
    MissingEndStates { row: usize },
}

/// The set of values of a cell; empty where the cell has no text.
pub open spec fn set_at(g: Seq<Seq<Option<Seq<char>>>>, row: int, col: int) -> Seq<Seq<char>> {
    match grid_text(g, row, col) {
        Some(cell) => value_set(cell),
        None => Seq::empty(),
    }
}

/// The step that a row describes.
pub open spec fn step_at(g: Seq<Seq<Option<Seq<char>>>>, row: int) -> StepView {
    StepView {
        name: text_or_empty(g, row, 0),
        description: text_or_empty(g, row, 1),
        levels: set_at(g, row, 2),
        start_states: set_at(g, row, 3),
        end_states: set_at(g, row, 4),
    }
}

/// Whether the row is read and has a name. The header row is not read.
pub open spec fn named(g: Seq<Seq<Option<Seq<char>>>>, row: int) -> bool {
    1 <= row < row_limit(g) && grid_text(g, row, 0) is Some
}

/// Whether reading gets to `row`: every row from the first to it has a name.
pub open spec fn reached(g: Seq<Seq<Option<Seq<char>>>>, row: int) -> bool {
    forall|r: int| 1 <= r <= row ==> named(g, r)
}

/// Whether reading stops at `row`: it is the first row without a name, or
/// the end of the rows that are read.
pub open spec fn stops_at(g: Seq<Seq<Option<Seq<char>>>>, row: int) -> bool {
    1 <= row && reached(g, row - 1) && !named(g, row)
}

/// Whether the row has the cells that a step must have: a description and
/// end states.
pub open spec fn complete(g: Seq<Seq<Option<Seq<char>>>>, row: int) -> bool {
    grid_text(g, row, 1) is Some && grid_text(g, row, 4) is Some
}

/// The views of a vector of steps.
pub open spec fn step_views(v: Seq<Step>) -> Seq<StepView> {
    v.map_values(|s: Step| s@)
}

/// Reading stops at one row only.
pub proof fn lemma_stop_row_unique(g: Seq<Seq<Option<Seq<char>>>>, a: int, b: int)
    requires
        stops_at(g, a),
        stops_at(g, b),
    ensures
        a == b,
{
    if a < b {
        assert(named(g, a));
    } else if b < a {
        assert(named(g, b));
    }
}

/// What reading a steps sheet gives. It succeeds where every row that is
/// reached is complete, with the step of each row up to the row at which
/// reading stops; else it fails with the first row that is reached and not
/// complete, and says which of the two cells that row lacks.
pub open spec fn steps_outcome(
    g: Seq<Seq<Option<Seq<char>>>>,
    res: Result<Vec<Step>, StepsError>,
) -> bool {
    &&& res is Ok <==> forall|r: int| reached(g, r) && 1 <= r ==> complete(g, r)
    &&& match res {
            Ok(steps) => {
                &&& stops_at(g, steps.len() + 1)
                &&& forall|i: int|
                    0 <= i < steps.len() ==> (#[trigger] steps[i])@ == step_at(g, i + 1)
                &&& forall|i: int| 0 <= i < steps.len() ==> (#[trigger] steps[i])@.well_formed()
            },
            Err(StepsError::MissingDescription { row }) => {
                &&& reached(g, row as int) && 1 <= row
                &&& forall|r: int| 1 <= r < row ==> complete(g, r)
                &&& grid_text(g, row as int, 1) is None
            },
            Err(StepsError::MissingEndStates { row }) => {
                &&& reached(g, row as int) && 1 <= row
                &&& forall|r: int| 1 <= r < row ==> complete(g, r)
                &&& grid_text(g, row as int, 1) is Some
                &&& grid_text(g, row as int, 4) is None
            },
        }
}

/// Where reading succeeds and the first row without a name is `stop`, there
/// are `stop - 1` steps.
pub proof fn lemma_steps_count(
    g: Seq<Seq<Option<Seq<char>>>>,
    res: Result<Vec<Step>, StepsError>,
    stop: int,
)
    requires
        steps_outcome(g, res),
        res is Ok,
        stops_at(g, stop),
    ensures
        res->Ok_0.len() == stop - 1,
{
    lemma_stop_row_unique(g, stop, res->Ok_0.len() + 1);
}

/// A sheet has one outcome: two readings of the same cells both succeed
/// with the same steps, or both fail with the same error.
pub proof fn lemma_steps_outcome_unique(
    g: Seq<Seq<Option<Seq<char>>>>,
    a: Result<Vec<Step>, StepsError>,
    b: Result<Vec<Step>, StepsError>,
)
    requires
        steps_outcome(g, a),
        steps_outcome(g, b),
    ensures
        match (a, b) {
            (Ok(x), Ok(y)) => step_views(x@) == step_views(y@),
            (Err(e), Err(f)) => e == f,
            _ => false,
        },
{
    match (a, b) {
        (Ok(x), Ok(y)) => {
            lemma_stop_row_unique(g, x.len() + 1, y.len() + 1);
            assert(step_views(x@) =~= step_views(y@));
        },
        (Err(e), Err(f)) => {
            let re = error_row(e);
            let rf = error_row(f);
            assert(reached(g, re as int) && !complete(g, re as int));
            assert(reached(g, rf as int) && !complete(g, rf as int));
            if re < rf {
                assert(complete(g, re as int));
            } else if rf < re {
                assert(complete(g, rf as int));
            }
        },
        _ => {},
    }
}

/// The row that an error names.
pub open spec fn error_row(e: StepsError) -> usize {
    match e {
        StepsError::MissingDescription { row } => row,
        StepsError::MissingEndStates { row } => row,
    }
}

fn values_at(sheet: &Sheet, row: usize, col: usize) -> (out: Vec<String>)
    ensures
        texts(out@) == set_at(sheet@, row as int, col as int),
        is_value_set(texts(out@)),
{
    match sheet.text_at(row, col) {
        Some(cell) => cell_values(cell.as_str()),
        None => {
            let out: Vec<String> = Vec::new();
            assert(texts(out@) =~= Seq::<Seq<char>>::empty());
            out
        },
    }
}

/// Reads the steps sheet. Rows are read from the first below the header to
/// the first without a name; each gives one step. A row that is reached and
/// lacks its description or its end states fails the whole reading, and the
/// error names the first such row.
pub fn extract_steps(sheet: &Sheet) -> (res: Result<Vec<Step>, StepsError>)
    ensures
        steps_outcome(sheet@, res),
{
    let end: usize = sheet.limit();
    let mut out: Vec<Step> = Vec::new();
    let mut row: usize = 1;
    while row < end
        invariant
            1 <= row,
            end == row_limit(sheet@),
            out.len() == row - 1,
            reached(sheet@, row - 1),
            forall|r: int| 1 <= r < row ==> complete(sheet@, r),
            forall|i: int| 0 <= i < out.len() ==> (#[trigger] out[i])@ == step_at(sheet@, i + 1),
            forall|i: int| 0 <= i < out.len() ==> (#[trigger] out[i])@.well_formed(),
        decreases end - row,
    {
        let name: String = match sheet.text_at(row, 0) {
            Some(s) => s.clone(),
            None => {
                proof {
                    lemma_all_complete(sheet@, row as int);
                }
                return Ok(out);
            },
        };
        let description: String = match sheet.text_at(row, 1) {
            Some(s) => s.clone(),
            None => {
                assert(reached(sheet@, row as int) && !complete(sheet@, row as int));
                return Err(StepsError::MissingDescription { row });
            },
        };
        let levels: Vec<String> = values_at(sheet, row, 2);
        let start_states: Vec<String> = values_at(sheet, row, 3);
        if sheet.text_at(row, 4).is_none() {
            assert(reached(sheet@, row as int) && !complete(sheet@, row as int));
            return Err(StepsError::MissingEndStates { row });
        }
        let end_states: Vec<String> = values_at(sheet, row, 4);
        out.push(Step { name, description, levels, start_states, end_states });
        row += 1;
    }
    proof {
        lemma_all_complete(sheet@, row as int);
    }
    Ok(out)
}

/// Where reading stops at `stop` and every row before it is complete, every
/// row that is reached is complete.
proof fn lemma_all_complete(g: Seq<Seq<Option<Seq<char>>>>, stop: int)
    requires
        stops_at(g, stop),
        forall|r: int| 1 <= r < stop ==> complete(g, r),
    ensures
        forall|r: int| reached(g, r) && 1 <= r ==> complete(g, r),
{
    assert forall|r: int| reached(g, r) && 1 <= r implies complete(g, r) by {
        if r >= stop {
            assert(named(g, stop));
        }
    }
}

} // verus!
