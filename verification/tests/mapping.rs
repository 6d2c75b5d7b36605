use sheet_extract::mapping::{
    find_first, output_dir_name, replace_first_in, resolve_mapping, OutputPaths,
};
use sheet_extract::text::chars_of;

fn paths() -> OutputPaths {
    OutputPaths {
        shapes_csv: "/data/book_output/shapes.csv".to_string(),
        shapes_ttl: "/data/book_output/shapes.ttl".to_string(),
        states_csv: "/data/book_output/states.csv".to_string(),
        states_ttl: "/data/book_output/states.ttl".to_string(),
        steps_json: "/data/book_output/steps.json".to_string(),
        steps_ttl: "/data/book_output/steps.ttl".to_string(),
    }
}

const PLACEHOLDERS: [&str; 6] = [
    "@@SHAPES.CSV@@",
    "@@SHAPES.TTL@@",
    "@@STATES.CSV@@",
    "@@STATES.TTL@@",
    "@@STEPS.JSON@@",
    "@@STEPS.TTL@@",
];

#[test]
fn mapping_substitution() {
    let template = "sources:\n  shapes: [@@SHAPES.CSV@@~csv]\n  states: [@@STATES.CSV@@~csv]\n  \
                    steps: [@@STEPS.JSON@@~jsonpath]\ntargets:\n  a: @@SHAPES.TTL@@\n  \
                    b: @@STATES.TTL@@\n  c: @@STEPS.TTL@@\n";
    let out = resolve_mapping(template, &paths());
    for p in PLACEHOLDERS {
        assert!(!out.contains(p));
    }
    let p = paths();
    for path in [&p.shapes_csv, &p.shapes_ttl, &p.states_csv, &p.states_ttl, &p.steps_json, &p.steps_ttl]
    {
        assert_eq!(out.matches(path.as_str()).count(), 1);
    }
    assert_eq!(
        out,
        "sources:\n  shapes: [/data/book_output/shapes.csv~csv]\n  \
         states: [/data/book_output/states.csv~csv]\n  \
         steps: [/data/book_output/steps.json~jsonpath]\ntargets:\n  \
         a: /data/book_output/shapes.ttl\n  b: /data/book_output/states.ttl\n  \
         c: /data/book_output/steps.ttl\n"
    );
}

#[test]
fn only_the_first_occurrence_is_replaced() {
    let out = resolve_mapping("@@STEPS.TTL@@ and @@STEPS.TTL@@", &paths());
    assert_eq!(out, "/data/book_output/steps.ttl and @@STEPS.TTL@@");
}

#[test]
fn template_without_placeholders_stays() {
    let template = "nothing to see @@ here @@SHAPES.CSV@ \u{e9}\n";
    assert_eq!(resolve_mapping(template, &paths()), template);
    assert_eq!(resolve_mapping("", &paths()), "");
}

#[test]
fn replace_first_in_agrees_with_replacen() {
    let cases = [
        ("abcabc", "bc", "X"),
        ("abcabc", "abc", ""),
        ("abc", "", "X"),
        ("", "", "X"),
        ("", "a", "X"),
        ("aaa", "aa", "b"),
        ("abc", "abcd", "X"),
        ("xxabc", "abc", "abcabc"),
        ("h\u{e9}llo w\u{f6}rld", "w\u{f6}", "W\u{d6}"),
        ("aab", "ab", "c"),
    ];
    for (text, pat, to) in cases {
        assert_eq!(replace_first_in(text, pat, to), text.replacen(pat, to, 1));
    }
    assert_eq!(replace_first_in("abcabc", "bc", "X"), "aXabc");
}

#[test]
fn find_first_gives_the_least_index() {
    let text = chars_of("h\u{e9}llo hello");
    assert_eq!(text.len(), 11);
    assert_eq!(find_first(&text, &chars_of("llo")), Some(2));
    assert_eq!(find_first(&text, &chars_of("hello")), Some(6));
    assert_eq!(find_first(&text, &chars_of("")), Some(0));
    assert_eq!(find_first(&text, &chars_of("help")), None);
    assert_eq!(find_first(&chars_of("ab"), &chars_of("abc")), None);
    assert_eq!(find_first(&chars_of("abc"), &chars_of("c")), Some(2));
}

#[test]
fn output_dir_name_appends_suffix() {
    assert_eq!(output_dir_name("machine"), "machine_output");
    assert_eq!(output_dir_name(""), "_output");
    assert_eq!(output_dir_name("a.b"), "a.b_output");
}

#[test]
fn file_names_are_the_six_artifacts() {
    let names = OutputPaths::file_names();
    assert_eq!(names.shapes_csv, "shapes.csv");
    assert_eq!(names.shapes_ttl, "shapes.ttl");
    assert_eq!(names.states_csv, "states.csv");
    assert_eq!(names.states_ttl, "states.ttl");
    assert_eq!(names.steps_json, "steps.json");
    assert_eq!(names.steps_ttl, "steps.ttl");
}
