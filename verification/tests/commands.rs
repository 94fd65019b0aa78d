use recu::commands::{
    added_text, edit_menu, expense_from_input, removed_text, rename_expense, undo_text,
    updated_text, validate_name,
};
use recu::date::Date;
use recu::error::{ErrorKind, StoreError};
use recu::expense::{Expense, ExpenseFields, ExpenseInput, Interval};
use recu::store::Store;

fn no_fields() -> ExpenseFields {
    ExpenseFields {
        amount: None,
        currency: None,
        date: None,
        interval: None,
        category: None,
        end_date: None,
    }
}

fn seeded(name: &str) -> Store {
    let mut store = Store::at(format!("{name}.csv"));
    for (n, amount, currency) in [
        ("Netflix", "9.99", "usd"),
        ("Spotify", "5.99", "usd"),
        ("NY Times", "15.99", "eur"),
    ] {
        let mut e = Expense::named(n);
        e.amount = Some(amount.to_string());
        e.currency = Some(currency.to_string());
        store.save(&e).expect("seed save should succeed");
    }
    store
}

fn names_in(store: &Store) -> Vec<String> {
    let mut items: Vec<String> = store.list().unwrap().into_iter().map(|e| e.name).collect();
    items.sort();
    items
}

fn add(store: &mut Store, name: &str, fields: ExpenseFields) -> Result<(), StoreError> {
    let input = ExpenseInput { name: Some(name.to_string()), fields };
    let e = expense_from_input(&input).expect("a name is given");
    store.save(&e)
}

fn load(store: &Store, name: &str) -> Expense {
    store.list().unwrap().into_iter().find(|e| e.name == name).expect("expense should exist")
}

#[test]
fn rm_remove_by_full_name() {
    let mut store = seeded("rm-full");
    assert!(store.remove(&vec!["Netflix"]).is_ok());
    let remaining = names_in(&store);
    assert!(!remaining.contains(&"Netflix".to_string()));
    assert_eq!(remaining.len(), 2);
}

#[test]
fn rm_remove_by_id_first_and_last() {
    for (id, index) in [("@1", 0), ("@3", 2)] {
        let mut store = seeded("rm-id");
        let target_name = store.list().unwrap()[index].name.clone();
        assert!(store.remove(&vec![id]).is_ok());
        let remaining = names_in(&store);
        assert!(!remaining.contains(&target_name));
        assert_eq!(remaining.len(), 2);
    }
}

#[test]
fn rm_remove_nonexistent_returns_error() {
    let mut store = seeded("rm-missing");
    assert!(store.remove(&vec!["Hulu"]).is_err());
}

#[test]
fn rm_remove_id_out_of_range_returns_error() {
    let mut store = seeded("rm-range");
    assert!(store.remove(&vec!["@0"]).is_err());
    assert!(store.remove(&vec!["@99"]).is_err());
}

#[test]
fn rm_remove_by_name_case_insensitive() {
    let mut store = seeded("rm-case");
    assert!(store.remove(&vec!["netflix"]).is_ok());
    assert!(!names_in(&store).contains(&"Netflix".to_string()));
}

#[test]
fn rm_remove_many_by_name() {
    let mut store = seeded("rm-many");
    let names = store.remove(&vec!["Netflix", "Spotify"]).unwrap();
    assert_eq!(names, vec!["Netflix", "Spotify"]);
    assert_eq!(names_in(&store), vec!["NY Times"]);
    assert_eq!(removed_text(&names), "Removed 'Netflix'\nRemoved 'Spotify'\n");
}

#[test]
fn remove_many_by_id_out_of_order() {
    let mut store = seeded("rm-order");
    let names = store.remove(&vec!["@3", "@1"]).unwrap();
    assert_eq!(names, vec!["NY Times", "Netflix"]);
    assert_eq!(names_in(&store), vec!["Spotify"]);
}

#[test]
fn rename_rejects_blank_name() {
    let mut store = seeded("rename-blank");
    let err = rename_expense(&mut store, "Netflix", "  ").expect_err("should reject blank name");
    assert_eq!(err.kind(), ErrorKind::InvalidInput);
    assert!(validate_name("x").is_ok());
}

#[test]
fn rename_prints_confirmation() {
    let mut store = seeded("rename-ok");
    let msg = rename_expense(&mut store, "@1", "Netflix Plus").unwrap();
    assert_eq!(msg, "Renamed '@1' to 'Netflix Plus'\n");
    assert_eq!(store.list().unwrap()[0].name, "Netflix Plus");
}

#[test]
fn edit_rejects_end_before_start() {
    let mut store = seeded("edit-end");
    let mut fields = no_fields();
    fields.date = Some(Date { year: 2026, month: 6, day: 1 });
    store.update("Netflix", &Expense::from_fields(&fields)).expect("setup should succeed");
    let mut fields = no_fields();
    fields.end_date = Some(Date { year: 2025, month: 1, day: 1 });
    let err = store
        .update("Netflix", &Expense::from_fields(&fields))
        .expect_err("should reject end < start");
    assert_eq!(err.kind(), ErrorKind::InvalidInput);
}

#[test]
fn add_by_name_only() {
    let mut store = Store::at("add-name.csv".to_string());
    add(&mut store, "Hulu", no_fields()).expect("add should succeed");
    let e = load(&store, "Hulu");
    assert_eq!(e.name, "Hulu");
    assert_eq!(e.amount, None);
    assert_eq!(e.currency, None);
}

#[test]
fn add_with_full_fields() {
    let mut store = Store::at("add-full.csv".to_string());
    let fields = ExpenseFields {
        amount: Some("12.99".to_string()),
        currency: Some("usd".to_string()),
        date: Some(Date { year: 2026, month: 5, day: 1 }),
        interval: Some(Interval::Monthly),
        category: Some("streaming".to_string()),
        end_date: Some(Date { year: 2026, month: 12, day: 31 }),
    };
    add(&mut store, "Hulu", fields).expect("add should succeed");
    let e = load(&store, "Hulu");
    assert_eq!(e.amount.as_deref(), Some("12.99"));
    assert_eq!(e.currency.as_deref(), Some("usd"));
    assert_eq!(e.start_date, Some(Date { year: 2026, month: 5, day: 1 }));
    assert_eq!(e.interval, Some(Interval::Monthly));
    assert_eq!(e.category.as_deref(), Some("streaming"));
    assert_eq!(e.end_date, Some(Date { year: 2026, month: 12, day: 31 }));
}

#[test]
fn add_assigns_incrementing_id() {
    let mut store = Store::at("add-ids.csv".to_string());
    add(&mut store, "Hulu", no_fields()).unwrap();
    add(&mut store, "Disney", no_fields()).unwrap();
    assert_eq!(load(&store, "Hulu").id, 1);
    assert_eq!(load(&store, "Disney").id, 2);
}

#[test]
fn add_duplicate_name_returns_error() {
    let mut store = seeded("add-dup");
    assert!(add(&mut store, "Netflix", no_fields()).is_err());
}

#[test]
fn add_duplicate_name_case_insensitive_returns_error() {
    let mut store = seeded("add-dup-case");
    assert!(add(&mut store, "netflix", no_fields()).is_err());
}

#[test]
fn add_preserves_existing_expenses() {
    let mut store = seeded("add-keep");
    add(&mut store, "Hulu", no_fields()).unwrap();
    let names = names_in(&store);
    for n in ["Netflix", "Spotify", "NY Times", "Hulu"] {
        assert!(names.contains(&n.to_string()));
    }
}

#[test]
fn add_without_name_asks_instead() {
    let input = ExpenseInput { name: None, fields: no_fields() };
    assert!(expense_from_input(&input).is_none());
}

#[test]
fn command_texts() {
    let mut e = Expense::named("Netflix");
    e.interval = Some(Interval::Monthly);
    assert_eq!(added_text(&e, Some("$9.99")), "Added Netflix: $9.99, monthly\n");
    assert_eq!(added_text(&e, None), "Added Netflix: monthly\n");
    assert_eq!(updated_text("Netflix"), "Updated 'Netflix'\n");
    assert_eq!(undo_text(Ok("Restored 'Netflix'".to_string())).unwrap(), "Restored 'Netflix'\n");
    let nothing = StoreError::new(ErrorKind::NotFound, "nothing to undo".to_string());
    assert_eq!(undo_text(Err(nothing)).unwrap(), "Nothing to undo\n");
    let bad = StoreError::new(ErrorKind::InvalidData, "broken".to_string());
    assert_eq!(undo_text(Err(bad)).unwrap_err().kind(), ErrorKind::InvalidData);
}

#[test]
fn edit_menu_shows_each_field_or_a_dash() {
    let mut e = Expense::named("Netflix");
    e.amount = Some("15.99".to_string());
    e.start_date = Some(Date { year: 2026, month: 4, day: 1 });
    e.interval = Some(Interval::Monthly);
    assert_eq!(
        edit_menu(&e),
        vec![
            "Amount         15.99",
            "Currency       —",
            "Start date     2026-04-01",
            "Interval       monthly",
            "Category       —",
            "End date       —",
            "Done",
        ]
    );
}
