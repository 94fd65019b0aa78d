use recu::date::Date;
use recu::expense::{Expense, Interval};
use recu::timeline::{
    no_upcoming_message, payment_dates, timeline_lines, timeline_rows, timeline_view, timeline_window,
    TimelineView,
};

fn d(y: i32, m: u32, day: u32) -> Date {
    Date { year: y, month: m, day }
}

fn today() -> Date {
    d(2026, 4, 15)
}

fn monthly_usd(name: &str, amount: &str, start: Date) -> Expense {
    let mut e = Expense::named(name);
    e.amount = Some(amount.to_string());
    e.currency = Some("usd".to_string());
    e.start_date = Some(start);
    e.interval = Some(Interval::Monthly);
    e
}

fn plain(lines: &[(String, bool)]) -> Vec<String> {
    lines.iter().map(|l| l.0.clone()).collect()
}

#[test]
fn payment_dates_lists_each_payment_in_the_window() {
    let got = payment_dates(&Interval::Monthly, &d(2026, 1, 31), &d(2026, 2, 1), &d(2026, 5, 31));
    assert_eq!(got, vec![d(2026, 2, 28), d(2026, 3, 31), d(2026, 4, 30), d(2026, 5, 31)]);
    let weekly = payment_dates(&Interval::Weekly, &d(2026, 4, 1), &d(2026, 4, 10), &d(2026, 4, 30));
    assert_eq!(weekly, vec![d(2026, 4, 15), d(2026, 4, 22), d(2026, 4, 29)]);
    let none = payment_dates(&Interval::Yearly, &d(2020, 6, 1), &d(2026, 1, 1), &d(2026, 5, 31));
    assert!(none.is_empty());
}

#[test]
fn window_reaches_back_and_ahead() {
    assert_eq!(timeline_window(&today(), 14, 30), (d(2026, 4, 1), d(2026, 5, 15)));
    assert_eq!(timeline_window(&today(), 0, 0), (today(), today()));
}

#[test]
fn rows_are_by_day_then_file_order() {
    let es = vec![
        monthly_usd("Netflix", "15.99", d(2026, 4, 20)),
        monthly_usd("Spotify", "9.99", d(2026, 5, 1)),
        monthly_usd("Gym", "30.00", d(2026, 1, 20)),
    ];
    let rows = timeline_rows(&es, &today(), &d(2026, 6, 14));
    assert_eq!(
        rows,
        vec![
            (d(2026, 4, 20), 0),
            (d(2026, 4, 20), 2),
            (d(2026, 5, 1), 1),
            (d(2026, 5, 20), 0),
            (d(2026, 5, 20), 2),
            (d(2026, 6, 1), 1),
        ]
    );
}

#[test]
fn expenses_without_amount_or_interval_stay_out() {
    let mut no_amount = monthly_usd("Free", "0", d(2026, 4, 20));
    no_amount.amount = None;
    let mut once = monthly_usd("Once", "5.00", d(2026, 4, 20));
    once.interval = None;
    let rows = timeline_rows(&vec![no_amount, once], &today(), &d(2026, 5, 15));
    assert!(rows.is_empty());
}

#[test]
fn single_payment_table() {
    let es = vec![monthly_usd("Netflix", "15.99", d(2026, 4, 20))];
    let view = timeline_view(&es, &today(), 0, 30, &vec!["$15.99".to_string()]);
    match view {
        TimelineView::Table { rows, lines } => {
            assert_eq!(rows, vec![(d(2026, 4, 20), 0)]);
            assert_eq!(
                plain(&lines),
                vec![
                    "date      name     amount",
                    "────────  ───────  ──────",
                    "Apr 2026",
                    "      20  Netflix  $15.99",
                ]
            );
            assert_eq!(lines.iter().map(|l| l.1).collect::<Vec<_>>(), vec![false, false, true, false]);
        }
        _ => panic!("expected a table"),
    }
}

#[test]
fn months_get_one_heading_each() {
    let es = vec![
        monthly_usd("Netflix", "15.99", d(2026, 4, 20)),
        monthly_usd("Spotify", "9.99", d(2026, 5, 1)),
    ];
    let amounts = vec!["$15.99".to_string(), "$9.99".to_string()];
    let view = timeline_view(&es, &today(), 0, 60, &amounts);
    match view {
        TimelineView::Table { lines, .. } => {
            assert_eq!(
                plain(&lines),
                vec![
                    "date      name     amount",
                    "────────  ───────  ──────",
                    "Apr 2026",
                    "      20  Netflix  $15.99",
                    "May 2026",
                    "       1  Spotify   $9.99",
                    "      20  Netflix  $15.99",
                    "Jun 2026",
                    "       1  Spotify   $9.99",
                ]
            );
        }
        _ => panic!("expected a table"),
    }
}

#[test]
fn past_days_bring_earlier_payments_in() {
    let es = vec![monthly_usd("Netflix", "15.99", d(2026, 4, 1))];
    let amounts = vec!["$15.99".to_string()];
    match timeline_view(&es, &today(), 14, 0, &amounts) {
        TimelineView::Table { rows, .. } => assert_eq!(rows, vec![(d(2026, 4, 1), 0)]),
        _ => panic!("expected a table"),
    }
    match timeline_view(&es, &today(), 14, 30, &amounts) {
        TimelineView::Table { rows, .. } => {
            assert_eq!(rows, vec![(d(2026, 4, 1), 0), (d(2026, 5, 1), 0)])
        }
        _ => panic!("expected a table"),
    }
}

#[test]
fn empty_store_and_empty_window() {
    assert!(matches!(timeline_view(&Vec::new(), &today(), 0, 30, &Vec::new()), TimelineView::NoExpenses));
    let es = vec![monthly_usd("Netflix", "15.99", d(2026, 6, 1))];
    let view = timeline_view(&es, &today(), 0, 30, &vec!["$15.99".to_string()]);
    assert!(matches!(view, TimelineView::NothingInWindow));
    assert_eq!(no_upcoming_message(30), "No upcoming expenses in the next 30 days.");
}

#[test]
fn widths_count_bytes_of_names_and_amounts() {
    let rows = vec![(d(2026, 4, 20), 0)];
    let names = vec!["Café".to_string()];
    let amounts = vec!["42.50 zł".to_string()];
    let lines = timeline_lines(&rows, &names, &amounts);
    assert_eq!(
        plain(&lines),
        vec![
            "date      name      amount",
            "────────  ─────  ─────────",
            "Apr 2026",
            "      20  Café    42.50 zł",
        ]
    );
}

#[test]
fn from_ymd_checks_the_calendar() {
    assert_eq!(Date::from_ymd(2024, 2, 29), Some(d(2024, 2, 29)));
    assert_eq!(Date::from_ymd(2026, 2, 29), None);
    assert_eq!(Date::from_ymd(2026, 13, 1), None);
    assert_eq!(Date::from_ymd(2026, 4, 0), None);
}

fn run(expenses: &[Expense], days: u32, past_days: u32) -> Vec<String> {
    let amounts: Vec<String> = expenses
        .iter()
        .map(|e| format!("${}", e.amount.clone().unwrap_or_default()))
        .collect();
    match timeline_view(&expenses.to_vec(), &today(), past_days, days, &amounts) {
        TimelineView::NoExpenses => vec!["No recurring expenses found.".to_string()],
        TimelineView::NothingInWindow => vec!["No expenses in timeline.".to_string()],
        TimelineView::Table { lines, .. } => plain(&lines),
    }
}

#[test]
fn timeline() {
    assert_eq!(run(&[], 30, 0), vec!["No recurring expenses found."]);
    let netflix_june = monthly_usd("Netflix", "15.99", d(2026, 6, 1));
    assert_eq!(run(&[netflix_june], 30, 0), vec!["No expenses in timeline."]);
    let netflix = monthly_usd("Netflix", "15.99", d(2026, 4, 20));
    assert_eq!(
        run(&[netflix.clone()], 60, 0),
        vec![
            "date      name     amount",
            "────────  ───────  ──────",
            "Apr 2026",
            "      20  Netflix  $15.99",
            "May 2026",
            "      20  Netflix  $15.99",
        ]
    );
    let spotify = monthly_usd("Spotify", "9.99", d(2026, 4, 25));
    assert_eq!(
        run(&[netflix, spotify], 30, 0),
        vec![
            "date      name     amount",
            "────────  ───────  ──────",
            "Apr 2026",
            "      20  Netflix  $15.99",
            "      25  Spotify   $9.99",
        ]
    );
    let early = monthly_usd("Netflix", "15.99", d(2026, 4, 1));
    assert_eq!(
        run(&[early.clone()], 0, 14),
        vec!["date      name     amount", "────────  ───────  ──────", "Apr 2026", "       1  Netflix  $15.99"]
    );
    assert_eq!(
        run(&[early], 30, 14),
        vec![
            "date      name     amount",
            "────────  ───────  ──────",
            "Apr 2026",
            "       1  Netflix  $15.99",
            "May 2026",
            "       1  Netflix  $15.99",
        ]
    );
}

#[test]
fn upcoming() {
    let netflix = monthly_usd("Netflix", "15.99", d(2026, 6, 1));
    assert_eq!(run(&[netflix], 30, 0), vec!["No expenses in timeline."]);
    assert_eq!(no_upcoming_message(30), "No upcoming expenses in the next 30 days.");
    let netflix = monthly_usd("Netflix", "15.99", d(2026, 4, 20));
    let spotify = monthly_usd("Spotify", "9.99", d(2026, 5, 1));
    assert_eq!(
        run(&[netflix, spotify], 60, 0),
        vec![
            "date      name     amount",
            "────────  ───────  ──────",
            "Apr 2026",
            "      20  Netflix  $15.99",
            "May 2026",
            "       1  Spotify   $9.99",
            "      20  Netflix  $15.99",
            "Jun 2026",
            "       1  Spotify   $9.99",
        ]
    );
}
