use recu::error::ErrorKind;
use recu::expense::Expense;
use recu::store::Store;

fn named(name: &str, amount: &str) -> Expense {
    let mut e = Expense::named(name);
    e.amount = Some(amount.to_string());
    e.currency = Some("usd".to_string());
    e
}

fn in_category(mut e: Expense, category: &str) -> Expense {
    e.category = Some(category.to_string());
    e
}

fn make_store(name: &str) -> Store {
    Store::at(format!("recu-test-{name}.csv"))
}

fn empty_patch() -> Expense {
    Expense::named("")
}

#[test]
fn save_rejects_duplicate_case_insensitive() {
    let mut store = make_store("storage-dup");
    store.save(&named("Netflix", "9.99")).unwrap();
    let err = store
        .save(&named("netflix", "9.99"))
        .expect_err("duplicate save should fail");
    assert_eq!(err.kind(), ErrorKind::AlreadyExists);
    assert_eq!(store.list().unwrap().len(), 1);
}

#[test]
fn list_from_missing_file_returns_empty() {
    let store = make_store("storage-missing");
    assert!(store.list().unwrap().is_empty());
}

#[test]
fn restore_after_remove() {
    let mut store = make_store("undo-remove");
    store.save(&named("Netflix", "9.99")).unwrap();
    store.remove(&vec!["Netflix"]).unwrap();
    assert!(store.list().unwrap().is_empty());
    let msg = store.restore().unwrap();
    assert_eq!(msg, "Restored 'Netflix'");
    assert_eq!(store.list().unwrap().len(), 1);
}

#[test]
fn restore_after_update() {
    let mut store = make_store("undo-update");
    store.save(&named("Netflix", "9.99")).unwrap();
    store.update("Netflix", &named("Netflix", "14.99")).unwrap();
    assert_eq!(store.list().unwrap()[0].amount.as_deref(), Some("14.99"));
    let msg = store.restore().unwrap();
    assert_eq!(msg, "Reverted edit of 'Netflix'");
    assert_eq!(store.list().unwrap()[0].amount.as_deref(), Some("9.99"));
}

#[test]
fn restore_after_add() {
    let mut store = make_store("undo-add");
    store.save(&named("Netflix", "9.99")).unwrap();
    store.save(&named("Spotify", "5.99")).unwrap();
    assert_eq!(store.list().unwrap().len(), 2);
    let msg = store.restore().unwrap();
    assert_eq!(msg, "Undid add of 'Spotify'");
    assert_eq!(store.list().unwrap().len(), 1);
}

#[test]
fn restore_with_no_snapshot_returns_error() {
    let mut store = make_store("undo-nosnap");
    store.save(&named("Netflix", "9.99")).unwrap();
    let err = store
        .restore()
        .expect_err("restore without snapshot should fail");
    assert_eq!(err.kind(), ErrorKind::NotFound);
}

#[test]
fn restore_is_single_use() {
    let mut store = make_store("undo-singleuse");
    store.save(&named("Netflix", "9.99")).unwrap();
    store.remove(&vec!["Netflix"]).unwrap();
    store.restore().unwrap();
    let err = store.restore().expect_err("second restore should fail");
    assert_eq!(err.kind(), ErrorKind::NotFound);
}

#[test]
fn empty_patch_preserves_prior_undo() {
    let mut store = make_store("update-empty-preserves-undo");
    store.save(&named("Netflix", "9.99")).unwrap();
    store.update("Netflix", &named("Netflix", "14.99")).unwrap();
    // Empty patch should be a no-op that does not consume the undo snapshot.
    store.update("Netflix", &empty_patch()).unwrap();
    store.restore().unwrap();
    assert_eq!(store.list().unwrap()[0].amount.as_deref(), Some("9.99"));
}

#[test]
fn categories_lists_unique_case_insensitive() {
    let mut store = make_store("categories");
    store.save(&in_category(named("Netflix", "9.99"), "Streaming")).unwrap();
    store.save(&in_category(named("Spotify", "5.99"), "streaming")).unwrap();
    store.save(&in_category(named("Rent", "999.0"), "Housing")).unwrap();
    assert_eq!(store.categories().unwrap(), vec!["Housing", "Streaming"]);
}

#[test]
fn remove_by_id() {
    let mut store = make_store("remove-by-id");
    store.save(&named("Netflix", "9.99")).unwrap();
    store.save(&named("Spotify", "5.99")).unwrap();
    let names = store.remove(&vec!["@1"]).unwrap();
    assert_eq!(names, vec!["Netflix"]);
    let entries = store.list().unwrap();
    assert_eq!(entries.len(), 1);
    assert_eq!(entries[0].name, "Spotify");
}

#[test]
fn update_by_id() {
    let mut store = make_store("update-by-id");
    store.save(&named("Netflix", "9.99")).unwrap();
    store.save(&named("Spotify", "5.99")).unwrap();
    store.update("@2", &named("Spotify", "7.99")).unwrap();
    assert_eq!(store.list().unwrap()[1].amount.as_deref(), Some("7.99"));
}

#[test]
fn resolve_index_invalid_ids() {
    let mut store = make_store("id-invalid");
    store.save(&named("Netflix", "9.99")).unwrap();
    let cases = [
        ("@0", ErrorKind::NotFound),
        ("@99", ErrorKind::NotFound),
        ("@abc", ErrorKind::InvalidInput),
    ];
    for (input, expected) in cases {
        let err = store.remove(&vec![input]).expect_err("invalid id should fail");
        assert_eq!(err.kind(), expected, "input: {input}");
    }
}

#[test]
fn rename_rejects_existing_name() {
    let mut store = make_store("rename-conflict");
    store.save(&named("Netflix", "9.99")).unwrap();
    store.save(&named("Spotify", "5.99")).unwrap();
    let err = store
        .rename("Netflix", "spotify")
        .expect_err("rename conflict should fail");
    assert_eq!(err.kind(), ErrorKind::AlreadyExists);
}

#[test]
fn store_remove_many_by_name() {
    let mut store = make_store("remove-many-name");
    store.save(&named("Netflix", "9.99")).unwrap();
    store.save(&named("Spotify", "5.99")).unwrap();
    store.save(&named("Rent", "999.0")).unwrap();
    let names = store.remove(&vec!["Netflix", "Rent"]).unwrap();
    assert_eq!(names, vec!["Netflix", "Rent"]);
    let remaining = store.list().unwrap();
    assert_eq!(remaining.len(), 1);
    assert_eq!(remaining[0].name, "Spotify");
}

#[test]
fn remove_many_by_id_reverse_order() {
    let mut store = make_store("remove-many-id");
    store.save(&named("Netflix", "9.99")).unwrap();
    store.save(&named("Spotify", "5.99")).unwrap();
    store.save(&named("Rent", "999.0")).unwrap();
    let names = store.remove(&vec!["@3", "@1"]).unwrap();
    assert_eq!(names, vec!["Rent", "Netflix"]);
    let remaining = store.list().unwrap();
    assert_eq!(remaining.len(), 1);
    assert_eq!(remaining[0].name, "Spotify");
}

#[test]
fn remove_many_duplicate_target_returns_error() {
    let mut store = make_store("remove-many-dup");
    store.save(&named("Netflix", "9.99")).unwrap();
    let err = store
        .remove(&vec!["Netflix", "Netflix"])
        .expect_err("duplicate should fail");
    assert_eq!(err.kind(), ErrorKind::InvalidInput);
}

#[test]
fn remove_many_single_behaves_like_remove() {
    let mut store = make_store("remove-many-single");
    store.save(&named("Netflix", "9.99")).unwrap();
    store.save(&named("Spotify", "5.99")).unwrap();
    let names = store.remove(&vec!["Netflix"]).unwrap();
    assert_eq!(names, vec!["Netflix"]);
    assert_eq!(store.list().unwrap().len(), 1);
}

#[test]
fn clear_category_no_match_returns_zero_and_no_snapshot() {
    let mut store = make_store("clear-no-match");
    store.save(&in_category(named("Netflix", "9.99"), "streaming")).unwrap();
    assert_eq!(store.clear_categories(&vec!["housing"]).unwrap(), vec![0]);
    let err = store
        .restore()
        .expect_err("restore without snapshot should fail");
    assert_eq!(err.kind(), ErrorKind::NotFound);
}

#[test]
fn categories_empty_file_returns_empty() {
    let store = make_store("categories-empty");
    assert!(store.categories().unwrap().is_empty());
}

#[test]
fn clear_category_removes_matching_expenses() {
    let mut store = make_store("clear-category");
    store.save(&in_category(named("Netflix", "9.99"), "streaming")).unwrap();
    store.save(&in_category(named("Spotify", "5.99"), "Streaming")).unwrap();
    store.save(&in_category(named("Rent", "999.0"), "housing")).unwrap();
    assert_eq!(store.clear_categories(&vec!["streaming"]).unwrap(), vec![2]);
    let expenses = store.list().unwrap();
    assert_eq!(expenses[0].category, None);
    assert_eq!(expenses[1].category, None);
    assert_eq!(expenses[2].category.as_deref(), Some("housing"));
}

#[test]
fn reassign_renames_matching_expenses() {
    let mut store = make_store("reassign-rename");
    store.save(&in_category(named("Netflix", "9.99"), "streaming")).unwrap();
    store.save(&in_category(named("Spotify", "5.99"), "Streaming")).unwrap();
    store.save(&in_category(named("Rent", "999.0"), "housing")).unwrap();
    assert_eq!(store.reassign_category(&vec!["streaming"], "Subs").unwrap(), vec![2]);
    let expenses = store.list().unwrap();
    assert_eq!(expenses[0].category.as_deref(), Some("Subs"));
    assert_eq!(expenses[1].category.as_deref(), Some("Subs"));
    assert_eq!(expenses[2].category.as_deref(), Some("housing"));
}

#[test]
fn reassign_merges_multiple_sources() {
    let mut store = make_store("reassign-merge");
    store.save(&in_category(named("Netflix", "9.99"), "streaming")).unwrap();
    store.save(&in_category(named("Spotify", "5.99"), "subs")).unwrap();
    store.save(&in_category(named("Rent", "999.0"), "housing")).unwrap();
    let counts = store
        .reassign_category(&vec!["streaming", "subs"], "Subs")
        .unwrap();
    assert_eq!(counts, vec![1, 1]);
    let expenses = store.list().unwrap();
    assert_eq!(expenses[0].category.as_deref(), Some("Subs"));
    assert_eq!(expenses[1].category.as_deref(), Some("Subs"));
    assert_eq!(expenses[2].category.as_deref(), Some("housing"));
}

#[test]
fn reassign_no_match_skips_snapshot() {
    let mut store = make_store("reassign-nomatch");
    store.save(&in_category(named("Netflix", "9.99"), "streaming")).unwrap();
    assert_eq!(store.reassign_category(&vec!["housing"], "Home").unwrap(), vec![0]);
    let err = store
        .restore()
        .expect_err("restore without snapshot should fail");
    assert_eq!(err.kind(), ErrorKind::NotFound);
}

#[test]
fn reassign_same_casing_skips_snapshot() {
    let mut store = make_store("reassign-same");
    store.save(&in_category(named("Netflix", "9.99"), "Streaming")).unwrap();
    // Source matches dst exactly: counted but no mutation, no snapshot.
    assert_eq!(
        store.reassign_category(&vec!["Streaming"], "Streaming").unwrap(),
        vec![1]
    );
    let err = store
        .restore()
        .expect_err("restore without snapshot should fail");
    assert_eq!(err.kind(), ErrorKind::NotFound);
}

#[test]
fn reassign_supports_undo() {
    let mut store = make_store("reassign-undo");
    store.save(&in_category(named("Netflix", "9.99"), "streaming")).unwrap();
    store.reassign_category(&vec!["streaming"], "Subs").unwrap();
    assert_eq!(store.list().unwrap()[0].category.as_deref(), Some("Subs"));
    let msg = store.restore().unwrap();
    assert_eq!(msg, "Reverted edit of 'Netflix'");
    assert_eq!(store.list().unwrap()[0].category.as_deref(), Some("streaming"));
}

#[test]
fn clear_categories_multiple() {
    let mut store = make_store("clear-categories-multi");
    store.save(&in_category(named("Netflix", "9.99"), "streaming")).unwrap();
    store.save(&in_category(named("Rent", "999.0"), "housing")).unwrap();
    store.save(&in_category(named("Groceries", "50.0"), "food")).unwrap();
    let counts = store
        .clear_categories(&vec!["streaming", "housing"])
        .unwrap();
    assert_eq!(counts, vec![1, 1]);
    let expenses = store.list().unwrap();
    assert_eq!(expenses[0].category, None);
    assert_eq!(expenses[1].category, None);
    assert_eq!(expenses[2].category.as_deref(), Some("food"));
}

// ----- the store's own guarantees, on concrete values -----

#[test]
fn ids_are_never_reused_after_remove_and_undo() {
    let mut store = make_store("ids-fresh");
    store.save(&named("Netflix", "9.99")).unwrap();
    store.save(&named("Spotify", "5.99")).unwrap();
    store.remove(&vec!["Spotify"]).unwrap();
    store.save(&named("Rent", "999.0")).unwrap();
    let ids: Vec<u64> = store.list().unwrap().iter().map(|e| e.id).collect();
    assert_eq!(ids, vec![1, 3]);
    store.restore().unwrap();
    store.save(&named("Gym", "30")).unwrap();
    let last = store.list().unwrap().last().unwrap().id;
    assert_eq!(last, 4);
    assert_eq!(store.seq_file().unwrap(), b"5".to_vec());
}

#[test]
fn a_saved_expense_reads_back() {
    let mut store = make_store("round-trip");
    let mut e = named("Netflix", "9.99");
    e.start_date = Some(recu::date::Date { year: 2026, month: 5, day: 1 });
    e.end_date = Some(recu::date::Date { year: 2026, month: 12, day: 31 });
    e.interval = Some(recu::expense::Interval::Monthly);
    e.category = Some("streaming".to_string());
    e.extra = vec![("note".to_string(), "family plan".to_string())];
    store.save(&e).unwrap();
    let got = store.get("netflix").unwrap();
    e.id = 1;
    assert!(got.same_as(&e));
}

#[test]
fn unknown_columns_and_short_rows_load() {
    let csv = b"id,name,amount,note\n1,Netflix,9.99,shared\n2,Spotify\n".to_vec();
    let mut store = Store::with_files("x.csv".to_string(), Some(csv), None, None);
    let list = store.list().unwrap();
    assert_eq!(list.len(), 2);
    assert_eq!(list[0].extra, vec![("note".to_string(), "shared".to_string())]);
    assert_eq!(list[1].amount, None);
    store.rename("Spotify", "Spotify Family").unwrap();
    let text = String::from_utf8(store.csv_file().unwrap()).unwrap();
    assert_eq!(
        text,
        "id,name,amount,currency,start_date,interval,category,end_date,note\n\
         1,Netflix,9.99,,,,,,shared\n\
         2,Spotify Family,,,,,,,\n"
    );
}

#[test]
fn invalid_cells_are_invalid_data() {
    let store = Store::with_files(
        "x.csv".to_string(),
        Some(b"id,name,amount\n1,Netflix,lots\n".to_vec()),
        None,
        None,
    );
    let err = store.list().expect_err("amount must be a number");
    assert_eq!(err.kind(), ErrorKind::InvalidData);
    assert_eq!(err.message(), "invalid amount 'lots'");
}

#[test]
fn update_refuses_end_before_start() {
    let mut store = make_store("end-before-start");
    store.save(&named("Netflix", "9.99")).unwrap();
    let mut patch = empty_patch();
    patch.start_date = Some(recu::date::Date { year: 2026, month: 6, day: 1 });
    store.update("Netflix", &patch).unwrap();
    let mut patch = empty_patch();
    patch.end_date = Some(recu::date::Date { year: 2025, month: 1, day: 1 });
    let err = store.update("Netflix", &patch).expect_err("end before start");
    assert_eq!(err.kind(), ErrorKind::InvalidInput);
}

#[test]
fn remove_reports_missing_target() {
    let mut store = make_store("remove-missing");
    store.save(&named("Netflix", "9.99")).unwrap();
    let err = store.remove(&vec!["Hulu"]).expect_err("missing");
    assert_eq!(err.kind(), ErrorKind::NotFound);
    assert_eq!(
        err.message(),
        "expense 'Hulu' not found. Run 'recu ls' to see available expenses"
    );
}

#[test]
fn failed_remove_keeps_prior_undo() {
    let mut store = make_store("undo-failed-remove");
    store.save(&named("Netflix", "9.99")).unwrap();
    store.save(&named("Spotify", "4.99")).unwrap();
    let undo_before = store.undo_file();
    let err = store.remove(&vec!["Hulu"]).expect_err("unknown target");
    assert_eq!(err.kind(), ErrorKind::NotFound);
    assert_eq!(store.list().unwrap().len(), 2);
    assert_eq!(store.undo_file(), undo_before);
    store.restore().unwrap();
    let names: Vec<String> = store.list().unwrap().into_iter().map(|e| e.name).collect();
    assert_eq!(names, vec!["Netflix".to_string()]);
}

#[test]
fn refused_save_keeps_prior_undo() {
    let mut store = make_store("undo-refused-save");
    store.save(&named("Netflix", "9.99")).unwrap();
    store.save(&named("Spotify", "4.99")).unwrap();
    let undo_before = store.undo_file();
    store.save(&named("SPOTIFY", "1.00")).expect_err("duplicate");
    assert_eq!(store.undo_file(), undo_before);
}

#[test]
fn ids_have_room_until_the_last_id() {
    let store = Store::with_files(
        "recu-test-room.csv".to_string(),
        Some(b"id,name,amount,currency,start_date,interval,category,end_date\n7,Netflix,,,,,,\n".to_vec()),
        Some(b"42".to_vec()),
        None,
    );
    assert!(store.ids_have_room());
    let full = Store::with_files(
        "recu-test-full.csv".to_string(),
        Some(b"id,name,amount,currency,start_date,interval,category,end_date\n7,Netflix,,,,,,\n".to_vec()),
        Some(u64::MAX.to_string().into_bytes()),
        None,
    );
    assert!(!full.ids_have_room());
}
