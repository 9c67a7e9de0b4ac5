use netball_core::engine_description;

#[test]
fn engine_description_names_taxonomy_and_version() {
    let description = engine_description();
    assert!(description.contains("NVAC"));
    assert!(description.contains("0.1.0"));
}
