use pd_patch::operators::{
    parse_operator_list, prefix_matches, split_name_description, OperatorLibrary,
};

#[test]
fn parse_subtract_and_min() {
    assert_eq!(
        split_name_description("- - Subtract inputs"),
        Some(("-".into(), "Subtract inputs".into()))
    );
    assert_eq!(
        split_name_description("min- The minimum of the inputs"),
        Some(("min".into(), "The minimum of the inputs".into()))
    );
}

#[test]
fn embedded_non_empty_includes_pd_and_gen() {
    let lib = OperatorLibrary::embedded();
    assert!(lib.len() > 100);
    assert!(lib.entries().iter().any(|e| e.name == "osc~"));
    assert!(lib.entries().iter().any(|e| e.name == "swiz"));
}

#[test]
fn match_prefix_case_insensitive() {
    let lib = OperatorLibrary::embedded();
    let hits = lib.match_prefix("Osc", 8);
    assert!(hits.iter().any(|e| e.name == "osc~"));
}

#[test]
fn split_rejects_lines_without_both_parts() {
    assert_eq!(split_name_description("Pd Audio"), None);
    assert_eq!(split_name_description("- leading dash only"), None);
    assert_eq!(split_name_description("name - "), None);
    assert_eq!(split_name_description("  pad  -  spaced out  "), Some(("pad".into(), "spaced out".into())));
}

#[test]
fn parse_tracks_categories_and_skips_title() {
    let text = "Operator List\r\n\r\nMath\n+ - Add\nmul- Multiply\nAudio\n  osc~ - Oscillator  \n";
    let entries = parse_operator_list(text);
    assert_eq!(entries.len(), 3);
    assert_eq!(entries[0].category, "Math");
    assert_eq!(entries[0].name, "+");
    assert_eq!(entries[0].description, "Add");
    assert_eq!(entries[1].name, "mul");
    assert_eq!(entries[1].description, "Multiply");
    assert_eq!(entries[2].category, "Audio");
    assert_eq!(entries[2].name, "osc~");
    assert_eq!(entries[2].description, "Oscillator");
}

#[test]
fn entries_before_a_heading_are_general() {
    let entries = parse_operator_list("OPERATOR LIST\nbang - Output a bang");
    assert_eq!(entries.len(), 1);
    assert_eq!(entries[0].category, "general");
    assert_eq!(entries[0].name, "bang");
}

#[test]
fn match_prefix_respects_limit_order_and_empty_prefix() {
    let lib = OperatorLibrary::from_str("A\nosc - one\nother - two\nosc~ - three\nOSCAR - four\n");
    let hits = lib.match_prefix("os", 2);
    assert_eq!(hits.len(), 2);
    assert_eq!(hits[0].name, "osc");
    assert_eq!(hits[1].name, "osc~");
    let all = lib.match_prefix("OS", 10);
    assert_eq!(all.len(), 3);
    assert_eq!(all[2].name, "OSCAR");
    assert!(lib.match_prefix("", 10).is_empty());
    assert!(lib.match_prefix("zz", 10).is_empty());
}

#[test]
fn prefix_matches_uses_given_folded_names() {
    let lib = OperatorLibrary::from_str("x - 1\ny - 2\nz - 3\n");
    let lowered = vec!["ab".to_string(), "b".to_string(), "abc".to_string()];
    let hits = prefix_matches(lib.entries(), &lowered, "ab", 5);
    assert_eq!(hits.len(), 2);
    assert_eq!(hits[0].name, "x");
    assert_eq!(hits[1].name, "z");
}

#[test]
fn load_preferred_takes_first_readable_file() {
    let candidates = vec![
        ("missing.txt".to_string(), None),
        ("ops.txt".to_string(), Some("Cat\nfoo - bar\n".to_string())),
        ("later.txt".to_string(), Some("baz - qux\n".to_string())),
    ];
    let lib = OperatorLibrary::load_preferred(&candidates);
    assert_eq!(lib.source(), Some("ops.txt"));
    assert_eq!(lib.len(), 1);
    assert_eq!(lib.entries()[0].name, "foo");

    let none: Vec<(String, Option<String>)> = vec![("missing.txt".to_string(), None)];
    let fallback = OperatorLibrary::load_preferred(&none);
    assert_eq!(fallback.source(), None);
    assert_eq!(fallback.len(), OperatorLibrary::embedded().len());
}

#[test]
fn library_basics() {
    let lib = OperatorLibrary::from_str("");
    assert!(lib.is_empty());
    assert_eq!(lib.len(), 0);
    assert_eq!(lib.source(), None);
    let named = lib.with_source(Some("here.txt".to_string()));
    assert_eq!(named.source(), Some("here.txt"));
    let d = OperatorLibrary::default();
    assert!(d.is_empty());
}
