use sheet_extract::sheet::{Sheet, MAX_ROWS};
use sheet_extract::states::{
    extract_states, row_states, shape_names, shapes_csv_text, states_csv_text, StateRecord,
};

fn row(cells: &[Option<&str>]) -> Vec<Option<String>> {
    cells.iter().map(|c| c.map(|s| s.to_string())).collect()
}

fn header() -> Vec<Option<String>> {
    row(&[Some("name"), Some("description"), Some("shape(s)")])
}

fn record(name: &str, description: &str, shape: &str) -> StateRecord {
    StateRecord {
        name: name.to_string(),
        description: description.to_string(),
        shape: shape.to_string(),
    }
}

#[test]
fn single_shape_state() {
    let sheet = Sheet::new(vec![header(), row(&[Some("Solid"), Some("rigid form"), Some("cube")])]);
    let records = extract_states(&sheet);
    assert_eq!(records, vec![record("Solid", "rigid form", "cube")]);
    assert_eq!(
        states_csv_text(&records),
        "\"name\",\"description\",\"shape\"\n\"Solid\",\"rigid form\",\"cube\"\n"
    );
    assert_eq!(shapes_csv_text(&shape_names(&records)), "name\ncube\n");
}

#[test]
fn multi_shape_fan_out() {
    let sheet =
        Sheet::new(vec![header(), row(&[Some("Liquid"), Some("flowing"), Some("sphere, blob ,drop")])]);
    let records = extract_states(&sheet);
    assert_eq!(
        states_csv_text(&records),
        "\"name\",\"description\",\"shape\"\n\
         \"Liquid\",\"flowing\",\"sphere\"\n\
         \"Liquid\",\"flowing\",\"blob\"\n\
         \"Liquid\",\"flowing\",\"drop\"\n"
    );
    let shapes = shape_names(&records);
    assert_eq!(shapes.len(), 3);
    for s in ["sphere", "blob", "drop"] {
        assert!(shapes.contains(&s.to_string()));
    }
}

#[test]
fn row_states_gives_one_record_for_each_shape_in_order() {
    let records = row_states("Gas", "diffuse", "cloud,,  puff");
    assert_eq!(records, vec![record("Gas", "diffuse", "cloud"), record("Gas", "diffuse", "puff")]);
    assert_eq!(row_states("Gas", "diffuse", " "), Vec::<StateRecord>::new());
}

#[test]
fn header_row_is_skipped_and_rows_stay_in_sheet_order() {
    let sheet = Sheet::new(vec![
        row(&[Some("n"), Some("d"), Some("ignored")]),
        row(&[Some("A"), Some("first"), Some("x,y")]),
        row(&[Some("B"), Some("second"), Some("y")]),
    ]);
    assert_eq!(
        extract_states(&sheet),
        vec![record("A", "first", "x"), record("A", "first", "y"), record("B", "second", "y")]
    );
}

#[test]
fn row_without_shape_cell_gives_nothing() {
    let sheet = Sheet::new(vec![
        header(),
        row(&[Some("A"), Some("first")]),
        row(&[Some("B"), Some("second"), None]),
        row(&[Some("C"), Some("third"), Some("")]),
        row(&[Some("D"), Some("fourth"), Some("z")]),
    ]);
    assert_eq!(extract_states(&sheet), vec![record("D", "fourth", "z")]);
}

#[test]
fn missing_name_or_description_counts_as_empty() {
    let sheet = Sheet::new(vec![
        header(),
        row(&[None, Some("only description"), Some("x")]),
        row(&[Some("only name"), None, Some("y")]),
    ]);
    let records = extract_states(&sheet);
    assert_eq!(records, vec![record("", "only description", "x"), record("only name", "", "y")]);
    assert_eq!(
        states_csv_text(&records),
        "\"name\",\"description\",\"shape\"\n\"\",\"only description\",\"x\"\n\"only name\",\"\",\"y\"\n"
    );
}

#[test]
fn empty_sheet_gives_header_only() {
    let records = extract_states(&Sheet::new(Vec::new()));
    assert!(records.is_empty());
    assert_eq!(states_csv_text(&records), "\"name\",\"description\",\"shape\"\n");
    assert_eq!(shapes_csv_text(&shape_names(&records)), "name\n");
    assert!(extract_states(&Sheet::new(vec![header()])).is_empty());
}

#[test]
fn rows_from_the_row_bound_on_are_not_read() {
    assert_eq!(MAX_ROWS, 1000);
    let mut rows = vec![header()];
    for i in 1..1005 {
        rows.push(row(&[Some(&format!("s{}", i)), Some("d"), Some("x")]));
    }
    let records = extract_states(&Sheet::new(rows));
    assert_eq!(records.len(), 999);
    assert_eq!(records[998].name, "s999");
}

#[test]
fn shape_names_are_the_distinct_shapes_of_the_records() {
    let records = vec![
        record("A", "", "x"),
        record("A", "", "y"),
        record("B", "", "x"),
        record("C", "", "z"),
        record("C", "", "y"),
    ];
    let shapes = shape_names(&records);
    assert_eq!(shapes, vec!["x".to_string(), "y".to_string(), "z".to_string()]);
    for r in &records {
        assert!(shapes.contains(&r.shape));
    }
    for s in &shapes {
        assert!(records.iter().any(|r| &r.shape == s));
    }
    assert_eq!(shapes_csv_text(&shapes), "name\nx\ny\nz\n");
}

#[test]
fn extraction_gives_the_same_text_each_time() {
    let sheet = Sheet::new(vec![header(), row(&[Some("A"), Some("d"), Some("p, q,p")])]);
    let first = extract_states(&sheet);
    let second = extract_states(&sheet);
    assert_eq!(states_csv_text(&first), states_csv_text(&second));
    assert_eq!(shapes_csv_text(&shape_names(&first)), shapes_csv_text(&shape_names(&second)));
    assert_eq!(first.len(), 3);
}
