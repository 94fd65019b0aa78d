use recu::date::Date;
use recu::expense::{Expense, Interval};
use recu::legacy::{
    country_of_locale, country_to_currency, currency_symbol, format_days, interval_label,
    locale_currency, note_row, note_table, rate_cell, slugify,
};

#[test]
fn slugify_simple() {
    assert_eq!(slugify("Netflix"), "netflix");
}

#[test]
fn slugify_multi_word() {
    assert_eq!(slugify("NY Times"), "ny-times");
}

#[test]
fn slugify_special_chars() {
    assert_eq!(slugify("Gym & Spa!"), "gym--spa");
}

#[test]
fn slugify_collapses_whitespace_and_keeps_unicode_letters() {
    assert_eq!(slugify("  Café   Crème \t"), "café-crème");
    assert_eq!(slugify(""), "");
}

#[test]
fn format_days_picks_the_largest_whole_unit() {
    assert_eq!(format_days(0), "today");
    assert_eq!(format_days(1), "in 1 day");
    assert_eq!(format_days(6), "in 6 days");
    assert_eq!(format_days(7), "in 1 week");
    assert_eq!(format_days(29), "in 4 weeks");
    assert_eq!(format_days(30), "in 1 month");
    assert_eq!(format_days(364), "in 12 months");
    assert_eq!(format_days(365), "in 1 year");
    assert_eq!(format_days(800), "in 2 years");
}

#[test]
fn format_days_in_the_past_rounds_toward_zero() {
    assert_eq!(format_days(-1), "in 0 years");
    assert_eq!(format_days(-365), "in -1 years");
    assert_eq!(format_days(-800), "in -2 years");
    assert_eq!(format_days(i64::MIN), "in -25269512429739111 years");
}

#[test]
fn interval_labels() {
    assert_eq!(interval_label(&Interval::Weekly), "/week");
    assert_eq!(interval_label(&Interval::Monthly), "/month");
    assert_eq!(interval_label(&Interval::Quarterly), "/quarter");
    assert_eq!(interval_label(&Interval::Yearly), "/year");
}

#[test]
fn countries_map_to_their_currency() {
    assert_eq!(country_to_currency("US"), Some("usd"));
    assert_eq!(country_to_currency("PL"), Some("pln"));
    assert_eq!(country_to_currency("DE"), Some("eur"));
    assert_eq!(country_to_currency("LT"), Some("eur"));
    assert_eq!(country_to_currency("us"), None);
    assert_eq!(country_to_currency("XX"), None);
}

#[test]
fn locale_country_is_the_part_after_the_underscore() {
    assert_eq!(country_of_locale("en_US.UTF-8"), Some("US".to_string()));
    assert_eq!(country_of_locale("pl_PL"), Some("PL".to_string()));
    assert_eq!(country_of_locale("sr_RS_latin.UTF-8"), Some("RS".to_string()));
    assert_eq!(country_of_locale("C.UTF-8"), None);
    assert_eq!(country_of_locale("en."), None);
    assert_eq!(country_of_locale("en_"), Some(String::new()));
}

#[test]
fn locale_currency_takes_the_first_variable_that_names_one() {
    let v = |s: &str| Some(s.to_string());
    assert_eq!(locale_currency(&vec![None, v("de_DE.UTF-8"), v("en_US")]), Some("eur".to_string()));
    assert_eq!(locale_currency(&vec![v("xx_XX"), None, v("en_GB")]), Some("gbp".to_string()));
    assert_eq!(locale_currency(&vec![v("C"), v("en_US")]), None);
    assert_eq!(locale_currency(&vec![None, None, None]), None);
}

#[test]
fn rate_cell_joins_symbol_and_unit() {
    assert_eq!(rate_cell(Some("$"), Some(Interval::Monthly)), "$/month");
    assert_eq!(rate_cell(Some("zł"), None), "zł");
    assert_eq!(rate_cell(None, Some(Interval::Quarterly)), "quarter");
    assert_eq!(rate_cell(None, None), "");
}

#[test]
fn currency_symbols_are_found_by_code_in_any_case() {
    assert_eq!(currency_symbol("usd"), Some("$".to_string()));
    assert_eq!(currency_symbol("PLN"), Some("zł".to_string()));
    assert_eq!(currency_symbol("xyz"), None);
}

#[test]
fn older_listing_rows_and_table() {
    let today = Date { year: 2026, month: 4, day: 15 };
    let mut netflix = Expense::named("Netflix");
    netflix.currency = Some("usd".to_string());
    netflix.interval = Some(Interval::Monthly);
    netflix.start_date = Some(Date { year: 2026, month: 4, day: 20 });
    let mut cafe = Expense::named("Café");
    cafe.interval = Some(Interval::Monthly);
    let rows = vec![note_row(0, &netflix, &today, Some("9.99")), note_row(1, &cafe, &today, None)];
    assert_eq!(rows[0], vec!["@1", "Netflix", "9.99", "$/month", "in 5 days"]);
    assert_eq!(rows[1], vec!["@2", "Café", "-", "month", ""]);
    assert_eq!(
        note_table(&rows),
        vec![
            "#   name     amount  rate     due      ",
            "──  ───────  ──────  ───────  ─────────",
            "@1  Netflix    9.99  $/month  in 5 days",
            "@2  Café          -  month             ",
        ]
    );
}

#[test]
fn slugify_ascii_punctuation_and_case() {
    assert_eq!(slugify("HBO Max+"), "hbo-max");
    assert_eq!(slugify("A  b-C"), "a-b-c");
    assert_eq!(slugify("Disney+ 4K"), "disney-4k");
}
