use recu::date::Date;
use recu::error::ErrorKind;
use recu::expense::Interval;
use recu::storage::{
    display_name, heading, list_order, merge_note_fields, note_file_name, note_name, note_text,
    plan_note_edit, remove, save_note, split_note, NoteFields, NoteFile,
};

fn note(name: &str, frontmatter: &str) -> NoteFile {
    NoteFile {
        path: note_file_name(name),
        content: note_text(frontmatter, name),
        fields_ok: true,
    }
}

fn seed() -> Vec<NoteFile> {
    vec![
        note("Netflix", "amount: 9.99\ncurrency: usd\n"),
        note("Spotify", "amount: 5.99\ncurrency: usd\n"),
        note("NY Times", "amount: 15.99\ncurrency: eur\n"),
    ]
}

fn at_slug<'a>(notes: &'a [NoteFile], target: &str) -> Option<&'a NoteFile> {
    let file = note_file_name(target);
    notes.iter().find(|n| n.path == file)
}

fn remove_in(notes: &Vec<NoteFile>, target: &str) -> Result<(String, String), recu::error::StoreError> {
    remove(target, notes, at_slug(notes, target))
}

fn names(notes: &[NoteFile]) -> Vec<String> {
    notes.iter().filter_map(note_name).collect()
}

#[test]
fn note_text_round_trips_through_split_and_heading() {
    let text = note_text("amount: 9.99\n", "NY Times");
    assert_eq!(text, "---\namount: 9.99\n---\n# NY Times\n");
    let (fm, body) = split_note(&text).expect("a note");
    assert_eq!(fm, "amount: 9.99\n");
    assert_eq!(body, "# NY Times\n");
    assert_eq!(heading(&body), Some("NY Times".to_string()));
}

#[test]
fn split_needs_an_opening_and_a_closing_rule() {
    assert_eq!(split_note("amount: 1\n---\n# A\n"), None);
    assert_eq!(split_note("---\namount: 1\n# A\n"), None);
    assert_eq!(split_note("---\n---\n"), Some((String::new(), String::new())));
    assert_eq!(
        split_note("---\na: 1\n---\nbody\n---\nmore"),
        Some(("a: 1\n".to_string(), "body\n---\nmore".to_string()))
    );
}

#[test]
fn heading_is_the_first_hash_line() {
    assert_eq!(heading("intro\n# Name\n# Other\n"), Some("Name".to_string()));
    assert_eq!(heading("# Name\r\nrest"), Some("Name".to_string()));
    assert_eq!(heading("# Name\r"), Some("Name\r".to_string()));
    assert_eq!(heading("#Name\n"), None);
    assert_eq!(heading(""), None);
    assert_eq!(heading("# \n"), Some(String::new()));
}

#[test]
fn unreadable_notes_have_no_name() {
    let mut bad_fields = note("Netflix", "amount: x\n");
    bad_fields.fields_ok = false;
    assert_eq!(note_name(&bad_fields), None);
    let no_heading = NoteFile {
        path: "x.md".to_string(),
        content: "---\na: 1\n---\nno heading\n".to_string(),
        fields_ok: true,
    };
    assert_eq!(note_name(&no_heading), None);
}

#[test]
fn listing_orders_by_name_then_file_order() {
    let mut notes = seed();
    notes.push(note("Netflix", "amount: 1\n"));
    notes.push(NoteFile { path: "junk.md".to_string(), content: "junk".to_string(), fields_ok: true });
    assert_eq!(list_order(&notes), vec![2, 0, 3, 1]);
}

#[test]
fn rm_note_remove_by_full_name() {
    let notes = seed();
    let (path, name) = remove_in(&notes, "Netflix").expect("removes");
    assert_eq!(path, "netflix.md");
    assert_eq!(name, "Netflix");
    let remaining: Vec<String> = names(&notes).into_iter().filter(|n| n != &name).collect();
    assert!(!remaining.contains(&"Netflix".to_string()));
    assert_eq!(remaining.len(), 2);
}

#[test]
fn remove_by_slug() {
    let notes = seed();
    let (path, name) = remove_in(&notes, "ny-times").expect("removes");
    assert_eq!(path, "ny-times.md");
    assert_eq!(name, "NY Times");
    let remaining: Vec<String> = names(&notes).into_iter().filter(|n| n != &name).collect();
    assert!(!remaining.contains(&"NY Times".to_string()));
    assert_eq!(remaining.len(), 2);
}

#[test]
fn rm_note_remove_by_id_first_and_last() {
    let notes = seed();
    let order = list_order(&notes);
    for (id, index) in [("@1", 0), ("@3", 2)] {
        let target_name = note_name(&notes[order[index]]).expect("reads");
        let (_, name) = remove_in(&notes, id).expect("removes");
        assert_eq!(name, target_name);
    }
    assert_eq!(remove_in(&notes, "@1").expect("removes").1, "NY Times");
    assert_eq!(remove_in(&notes, "@3").expect("removes").1, "Spotify");
}

#[test]
fn rm_note_remove_nonexistent_returns_error() {
    let notes = seed();
    let err = remove_in(&notes, "Hulu").unwrap_err();
    assert_eq!(err.kind(), ErrorKind::NotFound);
    assert_eq!(err.message(), "expense 'Hulu' not found");
}

#[test]
fn rm_note_remove_id_out_of_range_returns_error() {
    let notes = seed();
    let zero = remove_in(&notes, "@0").unwrap_err();
    assert_eq!(zero.kind(), ErrorKind::NotFound);
    assert_eq!(zero.message(), "no expense at @0");
    let far = remove_in(&notes, "@99").unwrap_err();
    assert_eq!(far.message(), "no expense at @99");
    let bad = remove_in(&notes, "@abc").unwrap_err();
    assert_eq!(bad.kind(), ErrorKind::InvalidInput);
    assert_eq!(bad.message(), "invalid id");
}

#[test]
fn rm_note_remove_by_name_case_insensitive() {
    let notes = seed();
    let (_, name) = remove_in(&notes, "netflix").expect("removes");
    assert_eq!(name, "Netflix");
}

#[test]
fn remove_reports_an_unreadable_note() {
    let mut notes = seed();
    notes[0].fields_ok = false;
    let err = remove_in(&notes, "Netflix").unwrap_err();
    assert_eq!(err.kind(), ErrorKind::InvalidData);
    assert_eq!(err.message(), "could not read expense");
}

#[test]
fn save_rejects_duplicate_slug() {
    let (file, text) = save_note("Netflix", "amount: 9.99\ncurrency: usd\n", false).expect("saves");
    assert_eq!(file, "netflix.md");
    assert_eq!(text, "---\namount: 9.99\ncurrency: usd\n---\n# Netflix\n");
    assert_eq!(note_file_name("netflix"), file);
    let err = save_note("netflix", "amount: 9.99\n", true).unwrap_err();
    assert_eq!(err.kind(), ErrorKind::AlreadyExists);
    assert_eq!(err.message(), "expense 'netflix' already exists");
}

#[test]
fn edited_note_keeps_or_replaces_its_name() {
    assert_eq!(display_name(Some("Netflix Plus"), "# Netflix\n"), "Netflix Plus");
    assert_eq!(display_name(None, "# Netflix\n"), "Netflix");
    assert_eq!(display_name(None, "no heading\n"), "");
}

fn file_exists(notes: &[NoteFile], name: &str) -> bool {
    at_slug(notes, name).is_some()
}

#[test]
fn edit_name_renames_file() {
    let notes = seed();
    let target = "Netflix";
    let edit = plan_note_edit(target, &notes, at_slug(&notes, target), Some("Netflix Plus"), file_exists(&notes, "Netflix Plus"))
        .expect("plans the edit");
    assert_eq!(edit.path, "netflix.md");
    assert_eq!(edit.write_to, "netflix-plus.md");
    assert!(edit.remove_old);
    assert_eq!(edit.frontmatter, "amount: 9.99\ncurrency: usd\n");
    assert_eq!(edit.name, "Netflix Plus");
    assert_eq!(note_text(&edit.frontmatter, &edit.name), "---\namount: 9.99\ncurrency: usd\n---\n# Netflix Plus\n");
}

#[test]
fn edit_name_conflict_returns_error() {
    let notes = seed();
    let err = plan_note_edit("Netflix", &notes, at_slug(&notes, "Netflix"), Some("Spotify"), file_exists(&notes, "Spotify"))
        .unwrap_err();
    assert_eq!(err.kind(), ErrorKind::AlreadyExists);
    assert_eq!(err.message(), "expense 'Spotify' already exists");
}

#[test]
fn edit_to_same_slug_is_no_rename() {
    let notes = seed();
    let edit = plan_note_edit("Netflix", &notes, at_slug(&notes, "Netflix"), Some("NETFLIX"), file_exists(&notes, "NETFLIX"))
        .expect("plans the edit");
    assert_eq!(edit.write_to, "netflix.md");
    assert!(!edit.remove_old);
    assert_eq!(edit.name, "NETFLIX");
}

#[test]
fn edit_nonexistent_returns_error() {
    let notes = seed();
    let err = plan_note_edit("Hulu", &notes, at_slug(&notes, "Hulu"), None, false).unwrap_err();
    assert_eq!(err.kind(), ErrorKind::NotFound);
}

#[test]
fn edit_id_out_of_range_returns_error() {
    let notes = seed();
    assert!(plan_note_edit("@0", &notes, None, None, false).is_err());
    assert!(plan_note_edit("@99", &notes, None, None, false).is_err());
    let edit = plan_note_edit("@2", &notes, None, None, false).expect("plans the edit");
    assert_eq!(edit.path, "netflix.md");
    assert_eq!(edit.name, "Netflix");
    assert!(!edit.remove_old);
}

#[test]
fn edit_of_a_note_without_frontmatter_is_invalid() {
    let notes = vec![NoteFile { path: "x.md".to_string(), content: "# X\n".to_string(), fields_ok: false }];
    let err = plan_note_edit("x", &notes, Some(&notes[0]), None, false).unwrap_err();
    assert_eq!(err.kind(), ErrorKind::InvalidData);
    assert_eq!(err.message(), "invalid file format");
}

fn note_fields(amount: Option<&str>, currency: Option<&str>, tags: Option<Vec<&str>>) -> NoteFields {
    NoteFields {
        amount: amount.map(|a| a.to_string()),
        currency: currency.map(|c| c.to_string()),
        tags: tags.map(|t| t.into_iter().map(|s| s.to_string()).collect()),
        first_payment_date: None,
        interval: None,
    }
}

#[test]
fn merged_note_fields_take_what_the_patch_sets() {
    let existing = NoteFields {
        first_payment_date: Some(Date { year: 2025, month: 1, day: 1 }),
        interval: Some(Interval::Monthly),
        ..note_fields(Some("9.99"), Some("usd"), Some(vec!["streaming"]))
    };
    let patch = note_fields(Some("12.99"), None, Some(vec!["music"]));
    let merged = merge_note_fields(&patch, &existing);
    assert_eq!(merged.amount.as_deref(), Some("12.99"));
    assert_eq!(merged.currency.as_deref(), Some("usd"));
    assert_eq!(merged.tags, Some(vec!["music".to_string()]));
    assert_eq!(merged.first_payment_date, Some(Date { year: 2025, month: 1, day: 1 }));
    assert_eq!(merged.interval, Some(Interval::Monthly));
    let unchanged = merge_note_fields(&note_fields(None, None, None), &existing);
    assert_eq!(unchanged.amount.as_deref(), Some("9.99"));
    assert_eq!(unchanged.tags, Some(vec!["streaming".to_string()]));
}
