use recu::category::{
    render_list, resolve_sources, resolve_target, unknown_category_message, validate_dst,
};
use recu::error::ErrorKind;

fn sample() -> Vec<String> {
    vec!["food".into(), "housing".into(), "streaming".into()]
}

#[test]
fn resolve_target_by_name_is_case_insensitive() {
    let cats = sample();
    assert_eq!(
        resolve_target("Housing", &cats).expect("resolve should succeed"),
        "housing"
    );
}

#[test]
fn resolve_target_by_id() {
    let cats = sample();
    assert_eq!(
        resolve_target("@2", &cats).expect("resolve should succeed"),
        "housing"
    );
}

#[test]
fn resolve_target_invalid_ids() {
    let cats = sample();
    let cases = [
        ("@abc", ErrorKind::InvalidInput),
        ("@", ErrorKind::InvalidInput),
        ("@0", ErrorKind::NotFound),
        ("@99", ErrorKind::NotFound),
    ];
    for (input, expected) in cases {
        let err = resolve_target(input, &cats).expect_err("invalid id should fail");
        assert_eq!(err.kind(), expected, "input: {input}");
    }
}

#[test]
fn resolve_target_unknown_name_is_not_found() {
    let cats = sample();
    let err = resolve_target("nope", &cats).expect_err("unknown name should fail");
    assert_eq!(err.kind(), ErrorKind::NotFound);
}

#[test]
fn unknown_category_message_lists_known_categories() {
    let msg = unknown_category_message("nope", &sample());
    assert_eq!(
        msg,
        "unknown category 'nope'; known: food, housing, streaming\n\
         example: recu list --category food"
    );
}

#[test]
fn unknown_category_message_with_no_known_categories() {
    let msg = unknown_category_message("nope", &Vec::new());
    assert_eq!(
        msg,
        "unknown category 'nope'; known: (none)\n\
         example: recu category list"
    );
}

#[test]
fn validate_dst_rejects_empty_and_whitespace() {
    assert_eq!(
        validate_dst("").expect_err("empty dst").kind(),
        ErrorKind::InvalidInput
    );
    assert_eq!(
        validate_dst("   ").expect_err("whitespace dst").kind(),
        ErrorKind::InvalidInput
    );
}

#[test]
fn validate_dst_trims_whitespace() {
    assert_eq!(
        validate_dst("  Streaming  ").expect("valid dst"),
        "Streaming"
    );
}

#[test]
fn resolve_sources_rejects_duplicates_case_insensitive() {
    let cats = sample();
    let err = resolve_sources(&vec!["food".into(), "FOOD".into()], &cats)
        .expect_err("duplicate sources should fail");
    assert_eq!(err.kind(), ErrorKind::InvalidInput);
}

#[test]
fn resolve_sources_by_mixed_id_and_name() {
    let cats = sample();
    let resolved = resolve_sources(&vec!["@1".into(), "Housing".into()], &cats)
        .expect("resolve should succeed");
    assert_eq!(resolved, vec!["food", "housing"]);
}

#[test]
fn resolve_target_messages() {
    let cats = sample();
    assert_eq!(
        resolve_target("@x1", &cats).expect_err("bad id").message(),
        "invalid id '@x1'"
    );
    assert_eq!(
        resolve_target("@4", &cats).expect_err("out of range").message(),
        "no category at @4. Run 'recu category list' to see available categories"
    );
    assert_eq!(resolve_target("@+3", &cats).expect("plus sign is accepted"), "streaming");
}

#[test]
fn render_list_text_pads_ids() {
    assert_eq!(render_list(&Vec::new(), false), "No categories found.\n");
    assert_eq!(
        render_list(&sample(), false),
        "@1  food\n@2  housing\n@3  streaming\n"
    );
    let many: Vec<String> = (1..=12).map(|i| format!("cat{i}")).collect();
    let out = render_list(&many, false);
    let lines: Vec<&str> = out.lines().collect();
    assert_eq!(lines[0], "@1   cat1");
    assert_eq!(lines[11], "@12  cat12");
}

#[test]
fn render_list_json() {
    assert_eq!(render_list(&Vec::new(), true), "[]\n");
    assert_eq!(
        render_list(&sample(), true),
        "[\n  \"food\",\n  \"housing\",\n  \"streaming\"\n]\n"
    );
}
