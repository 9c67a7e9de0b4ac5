use netball_core::{definitions, deviations};

#[test]
fn every_coded_action_kind_has_a_definition() {
    // Each Shorthand action code the parser accepts must be documented.
    let codes: Vec<String> = definitions().into_iter().filter_map(|d| d.code).collect();
    for code in ["c", "f", "g", "p", "e", "i", "r", "pi", "pd", "pp"] {
        assert!(
            codes.contains(&code.to_string()),
            "missing definition for `{code}`"
        );
    }
}

#[test]
fn there_are_four_documented_deviations() {
    // The four deviations, kept explicit.
    assert_eq!(deviations().len(), 4);
}
