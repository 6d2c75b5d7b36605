use sheet_extract::sheet::Sheet;
use sheet_extract::steps::{extract_steps, Step, StepsError};

fn row(cells: &[Option<&str>]) -> Vec<Option<String>> {
    cells.iter().map(|c| c.map(|s| s.to_string())).collect()
}

fn header() -> Vec<Option<String>> {
    row(&[Some("name"), Some("description"), Some("levels"), Some("start"), Some("end")])
}

fn strings(items: &[&str]) -> Vec<String> {
    items.iter().map(|s| s.to_string()).collect()
}

fn well_formed(name: &str) -> Vec<Option<String>> {
    row(&[Some(name), Some("d"), Some("basic"), Some("A"), Some("B")])
}

#[test]
fn steps_multi_value() {
    let sheet = Sheet::new(vec![
        header(),
        row(&[Some("melt"), Some("phase change"), Some("basic,advanced"), Some("Solid"), Some("Liquid")]),
    ]);
    let steps = extract_steps(&sheet).unwrap();
    assert_eq!(
        steps,
        vec![Step {
            name: "melt".to_string(),
            description: "phase change".to_string(),
            levels: strings(&["basic", "advanced"]),
            start_states: strings(&["Solid"]),
            end_states: strings(&["Liquid"]),
        }]
    );
}

#[test]
fn steps_early_termination() {
    let sheet = Sheet::new(vec![
        header(),
        well_formed("one"),
        well_formed("two"),
        well_formed("three"),
        row(&[None, Some("d"), Some("basic"), Some("A"), Some("B")]),
        well_formed("five"),
    ]);
    let steps = extract_steps(&sheet).unwrap();
    assert_eq!(steps.len(), 3);
    assert_eq!(steps[2].name, "three");
    assert!(steps.iter().all(|s| s.name != "five"));
}

#[test]
fn absent_start_states() {
    let with_empty_text =
        Sheet::new(vec![header(), row(&[Some("init"), Some("begin"), Some("basic"), Some(""), Some("Ready")])]);
    let steps = extract_steps(&with_empty_text).unwrap();
    assert_eq!(steps[0].start_states, Vec::<String>::new());
    assert_eq!(steps[0].end_states, strings(&["Ready"]));
    let without_cell =
        Sheet::new(vec![header(), row(&[Some("init"), Some("begin"), Some("basic"), None, Some("Ready")])]);
    assert_eq!(extract_steps(&without_cell).unwrap(), steps);
}

#[test]
fn absent_levels_is_the_empty_set() {
    let sheet = Sheet::new(vec![header(), row(&[Some("s"), Some("d"), None, Some("A"), Some("B")])]);
    let steps = extract_steps(&sheet).unwrap();
    assert_eq!(steps[0].levels, Vec::<String>::new());
}

#[test]
fn set_fields_hold_no_duplicates_and_no_spaces() {
    let sheet = Sheet::new(vec![
        header(),
        row(&[Some("s"), Some("d"), Some("a, b,a , a b"), Some("X ,X,Y"), Some(" Z, Z ,,")]),
    ]);
    let steps = extract_steps(&sheet).unwrap();
    assert_eq!(steps[0].levels, strings(&["a", "b", "ab"]));
    assert_eq!(steps[0].start_states, strings(&["X", "Y"]));
    assert_eq!(steps[0].end_states, strings(&["Z"]));
}

#[test]
fn missing_description_fails() {
    let sheet = Sheet::new(vec![
        header(),
        well_formed("one"),
        row(&[Some("two"), None, Some("basic"), Some("A"), None]),
        row(&[Some("three"), Some("d"), Some("basic"), Some("A"), None]),
    ]);
    assert_eq!(extract_steps(&sheet), Err(StepsError::MissingDescription { row: 2 }));
}

#[test]
fn missing_end_states_fails() {
    let sheet = Sheet::new(vec![
        header(),
        well_formed("one"),
        well_formed("two"),
        row(&[Some("three"), Some("d"), Some("basic"), Some("A")]),
        row(&[Some("four"), None]),
    ]);
    assert_eq!(extract_steps(&sheet), Err(StepsError::MissingEndStates { row: 3 }));
}

#[test]
fn malformed_row_after_the_stop_row_is_not_read() {
    let sheet =
        Sheet::new(vec![header(), well_formed("one"), row(&[None]), row(&[Some("bad"), None])]);
    assert_eq!(extract_steps(&sheet).unwrap().len(), 1);
}

#[test]
fn row_without_name_is_not_an_error() {
    let sheet = Sheet::new(vec![header(), row(&[None, None, None, None, None])]);
    assert_eq!(extract_steps(&sheet), Ok(Vec::new()));
    assert_eq!(extract_steps(&Sheet::new(Vec::new())), Ok(Vec::new()));
}

#[test]
fn steps_stop_at_the_row_bound() {
    let mut rows = vec![header()];
    for i in 1..1003 {
        rows.push(well_formed(&format!("s{}", i)));
    }
    rows[1001] = row(&[Some("late"), None]);
    let steps = extract_steps(&Sheet::new(rows)).unwrap();
    assert_eq!(steps.len(), 999);
    assert_eq!(steps[998].name, "s999");
}

#[test]
fn columns_past_the_fifth_are_ignored() {
    let sheet = Sheet::new(vec![
        header(),
        row(&[Some("s"), Some("d"), Some("l"), Some("A"), Some("B"), Some("extra"), None]),
    ]);
    let steps = extract_steps(&sheet).unwrap();
    assert_eq!(steps.len(), 1);
    assert_eq!(steps[0].end_states, strings(&["B"]));
}
