use recu::csv_format::{decode_expenses, encode_expenses};
use recu::date::Date;
use recu::error::ErrorKind;
use recu::expense::{prepare_amount, Expense, Interval};
use recu::store::Store;

fn d(y: i32, m: u32, day: u32) -> Date {
    Date { year: y, month: m, day }
}

fn store_with(contents: &str) -> Store {
    Store::with_files("recu.csv".to_string(), Some(contents.as_bytes().to_vec()), None, None)
}

#[test]
fn read_missing_file_returns_empty() {
    let store = Store::at("nope.csv".to_string());
    assert!(store.list().expect("lists").is_empty());
}

#[test]
fn loads_legacy_csv_without_end_date_column() {
    let entries = decode_expenses(
        "id,name,amount,currency,start_date,interval,category\n\
         1,Netflix,9.99,usd,,monthly,streaming\n"
            .as_bytes(),
    )
    .expect("reads");
    assert_eq!(entries.len(), 1);
    assert_eq!(entries[0].end_date, None);
    assert_eq!(entries[0].category.as_deref(), Some("streaming"));
    assert_eq!(entries[0].interval, Some(Interval::Monthly));
}

#[test]
fn flexible_short_row_loads_with_missing_trailing_cells() {
    let entries = decode_expenses(
        "id,name,amount,currency,start_date,interval,category,end_date\n\
         1,Netflix,9.99,usd,,monthly\n"
            .as_bytes(),
    )
    .expect("reads");
    assert_eq!(entries.len(), 1);
    assert_eq!(entries[0].category, None);
    assert_eq!(entries[0].end_date, None);
}

#[test]
fn empty_optional_cells_load_as_none() {
    let entries = decode_expenses(
        "id,name,amount,currency,start_date,interval,category,end_date\n\
         1,Netflix,,,,,,\n"
            .as_bytes(),
    )
    .expect("reads");
    let e = &entries[0];
    assert_eq!(e.amount, None);
    assert_eq!(e.currency, None);
    assert_eq!(e.start_date, None);
    assert_eq!(e.interval, None);
    assert_eq!(e.category, None);
    assert_eq!(e.end_date, None);
}

#[test]
fn invalid_amount_returns_invalid_data() {
    let store = store_with(
        "id,name,amount,currency,start_date,interval,category,end_date\n\
         1,Netflix,not-a-number,usd,,monthly,,\n",
    );
    let err = store.list().expect_err("bad amount should fail");
    assert_eq!(err.kind(), ErrorKind::InvalidData);
}

#[test]
fn round_trips_unknown_columns() {
    let entries = decode_expenses(
        "id,notes,name,vendor,amount,currency,start_date,interval,category,end_date\n\
         1,personal,Netflix,acme,9.99,usd,,monthly,,\n"
            .as_bytes(),
    )
    .expect("reads");
    let raw = String::from_utf8(encode_expenses(&entries)).expect("utf8");
    assert!(raw.contains("notes"), "notes header lost: {raw}");
    assert!(raw.contains("vendor"), "vendor header lost: {raw}");
    assert!(raw.contains("personal"), "notes value lost: {raw}");
    assert!(raw.contains("acme"), "vendor value lost: {raw}");
    let again = decode_expenses(raw.as_bytes()).expect("reads back");
    assert_eq!(again.len(), 1);
    assert_eq!(again[0].name, "Netflix");
    assert_eq!(again[0].extra, entries[0].extra);
}

#[test]
fn days_until_end_signed_or_none() {
    let today = d(2026, 4, 15);
    assert_eq!(Expense::named("x").days_until_end(&today), None);
    let mut future = Expense::named("x");
    future.end_date = Some(d(2026, 5, 15));
    let mut past = Expense::named("x");
    past.end_date = Some(d(2026, 4, 10));
    assert_eq!(future.days_until_end(&today), Some(30));
    assert_eq!(past.days_until_end(&today), Some(-5));
}

#[test]
fn is_ended_only_when_end_in_past() {
    let today = d(2026, 4, 15);
    let mut same_day = Expense::named("x");
    same_day.end_date = Some(today);
    let mut past = Expense::named("x");
    past.end_date = Some(d(2026, 4, 1));
    assert!(!Expense::named("x").is_ended(&today));
    assert!(!same_day.is_ended(&today));
    assert!(past.is_ended(&today));
}

fn assert_parses(input: &str, expected: f64) {
    let text = prepare_amount(input).expect("normalizes");
    assert_eq!(text.parse::<f64>(), Ok(expected), "{input} became {text}");
}

#[test]
fn parse_amount_plain_decimal() {
    assert_parses("9.99", 9.99);
    assert_parses("9,99", 9.99);
}

#[test]
fn parse_amount_us_format() {
    assert_parses("1,234.56", 1234.56);
    assert_parses("1,234,567.89", 1_234_567.89);
}

#[test]
fn parse_amount_european_format() {
    assert_parses("1.234,56", 1234.56);
    assert_parses("1.234.567,89", 1_234_567.89);
}

#[test]
fn parse_amount_thousands_only() {
    assert_parses("1,234", 1234.0);
    assert_parses("1,234,567", 1_234_567.0);
}

#[test]
fn parse_amount_trims_whitespace() {
    assert_parses("  42.50  ", 42.50);
}

#[test]
fn empty_amount_is_refused() {
    assert_eq!(prepare_amount("   "), Err("amount cannot be empty".to_string()));
}

#[test]
fn dates_outside_four_digit_years_round_trip() {
    let mut far = Expense::named("Vault");
    far.id = 1;
    far.start_date = Some(d(10000, 3, 1));
    far.end_date = Some(d(-5, 12, 31));
    let raw = String::from_utf8(encode_expenses(&vec![far])).expect("utf8");
    assert!(raw.contains("+10000-03-01"), "year written with its sign: {raw}");
    assert!(raw.contains("-0005-12-31"), "negative year padded: {raw}");
    let back = decode_expenses(raw.as_bytes()).expect("reads back");
    assert_eq!(back.len(), 1);
    assert_eq!(back[0].start_date, Some(d(10000, 3, 1)));
    assert_eq!(back[0].end_date, Some(d(-5, 12, 31)));
}

#[test]
fn fields_with_commas_and_quotes_are_quoted() {
    let mut e = Expense::named("Acme, \"Inc\"");
    e.id = 3;
    e.amount = Some("9.99".to_string());
    let raw = String::from_utf8(encode_expenses(&vec![e])).expect("utf8");
    assert_eq!(
        raw,
        "id,name,amount,currency,start_date,interval,category,end_date\n3,\"Acme, \"\"Inc\"\"\",9.99,,,,,\n"
    );
    let back = decode_expenses(raw.as_bytes()).expect("reads back");
    assert_eq!(back[0].name, "Acme, \"Inc\"");
}
