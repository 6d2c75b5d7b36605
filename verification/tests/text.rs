use sheet_extract::text::{cell_values, collapse, holds, split_fragments};

fn strings(items: &[&str]) -> Vec<String> {
    items.iter().map(|s| s.to_string()).collect()
}

#[test]
fn split_strips_spaces_then_splits_on_commas() {
    assert_eq!(split_fragments("sphere, blob ,drop"), strings(&["sphere", "blob", "drop"]));
}

#[test]
fn split_strips_spaces_inside_a_value() {
    assert_eq!(split_fragments("a b,c  d"), strings(&["ab", "cd"]));
}

#[test]
fn split_of_single_value() {
    assert_eq!(split_fragments("cube"), strings(&["cube"]));
}

#[test]
fn split_drops_empty_values() {
    assert_eq!(split_fragments(""), Vec::<String>::new());
    assert_eq!(split_fragments("   "), Vec::<String>::new());
    assert_eq!(split_fragments(",a,, b ,"), strings(&["a", "b"]));
    assert_eq!(split_fragments(" , ,"), Vec::<String>::new());
}

#[test]
fn split_keeps_repeated_values() {
    assert_eq!(split_fragments("a,b,a"), strings(&["a", "b", "a"]));
}

#[test]
fn split_keeps_other_white_space_and_non_ascii() {
    assert_eq!(split_fragments("é t\u{e9},\tx"), strings(&["ét\u{e9}", "\tx"]));
}

#[test]
fn collapse_keeps_first_occurrences_in_order() {
    let v = strings(&["b", "a", "b", "c", "a"]);
    assert_eq!(collapse(&v), strings(&["b", "a", "c"]));
    assert_eq!(collapse(&Vec::new()), Vec::<String>::new());
}

#[test]
fn holds_finds_equal_strings_only() {
    let v = strings(&["basic", "advanced"]);
    assert!(holds(&v, &"advanced".to_string()));
    assert!(!holds(&v, &"adv".to_string()));
    assert!(!holds(&Vec::new(), &"".to_string()));
}

#[test]
fn cell_values_is_a_set_without_spaces() {
    let v = cell_values("basic, advanced ,basic,ba sic");
    assert_eq!(v, strings(&["basic", "advanced"]));
    for (i, a) in v.iter().enumerate() {
        assert!(!a.contains(' '));
        assert!(!a.is_empty());
        for b in v.iter().skip(i + 1) {
            assert_ne!(a, b);
        }
    }
}
