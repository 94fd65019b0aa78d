use recu::date::Date;
use recu::expense::{Expense, Interval};
use recu::listing::{
    align_cell, build_row, column_widths, count_label, headers, hidden_note, nothing_listed,
    plan_list, separator, table_line,
};

fn d(y: i32, m: u32, day: u32) -> Date {
    Date { year: y, month: m, day }
}

fn today() -> Date {
    d(2026, 4, 15)
}

fn monthly_usd(id: u64, name: &str, amount: &str, start: Date) -> Expense {
    let mut e = Expense::named(name);
    e.id = id;
    e.amount = Some(amount.to_string());
    e.currency = Some("usd".to_string());
    e.start_date = Some(start);
    e.interval = Some(Interval::Monthly);
    e
}

#[test]
fn list_sorts_by_due_date_and_keeps_ids() {
    let es = vec![
        monthly_usd(1, "Notion", "16.00", d(2026, 7, 1)),
        monthly_usd(2, "Spotify", "9.99", d(2026, 4, 20)),
        monthly_usd(3, "Netflix", "15.99", today()),
    ];
    let plan = plan_list(&es, &today(), false, &Vec::new());
    assert_eq!(plan.rows, vec![2, 1, 0]);
    assert_eq!(plan.hidden_ended, 0);
    assert!(!plan.show_ends);
    assert_eq!(plan.ended_start, None);
}

#[test]
fn ended_rows_are_hidden_or_sink() {
    let mut old_gym = monthly_usd(1, "OldGym", "30.00", d(2025, 1, 1));
    old_gym.end_date = Some(d(2026, 4, 5));
    let netflix = monthly_usd(2, "Netflix", "15.99", d(2026, 4, 20));
    let mut annual = monthly_usd(3, "AnnualPlan", "50.00", d(2026, 5, 1));
    annual.end_date = Some(d(2026, 7, 15));
    let es = vec![old_gym, netflix, annual];

    let plan = plan_list(&es, &today(), false, &Vec::new());
    assert_eq!(plan.rows, vec![1, 2]);
    assert_eq!(plan.hidden_ended, 1);
    assert!(plan.show_ends);

    let all = plan_list(&es, &today(), true, &Vec::new());
    assert_eq!(all.rows, vec![1, 2, 0]);
    assert_eq!(all.hidden_ended, 0);
    assert_eq!(all.ended_start, Some(2));
}

#[test]
fn category_filter_applies() {
    let mut a = monthly_usd(1, "Netflix", "15.99", d(2026, 5, 1));
    a.category = Some("Streaming".to_string());
    let b = monthly_usd(2, "Rent", "900", d(2026, 5, 1));
    let plan = plan_list(&vec![a, b], &today(), false, &vec!["streaming".to_string()]);
    assert_eq!(plan.rows, vec![0]);
}

#[test]
fn rows_hold_the_cells() {
    let e = monthly_usd(7, "Netflix", "15.99", d(2026, 4, 20));
    let row = build_row(&e, &today(), false, "$15.99");
    assert_eq!(row, vec!["@7", "Netflix", "$15.99", "Mon", ""]);
    let mut bare = Expense::named("Unknown");
    bare.id = 1;
    let mut with_end = bare.clone();
    with_end.end_date = Some(d(2026, 6, 14));
    assert_eq!(build_row(&bare, &today(), false, "ignored"), vec!["@1", "Unknown", "-", "", ""]);
    assert_eq!(build_row(&with_end, &today(), true, "x")[5], "Jun 14");
}

#[test]
fn table_layout() {
    let h = headers(false);
    assert_eq!(h, vec!["@", "name", "amount", "due", "category"]);
    let rows = vec![vec![
        "@1".to_string(),
        "Netflix".to_string(),
        "$15.99".to_string(),
        "today".to_string(),
        String::new(),
    ]];
    let w = column_widths(&h, &rows);
    assert_eq!(w, vec![2, 7, 6, 5, 8]);
    assert_eq!(separator(&vec![2, 3]), "──  ───");
    assert_eq!(align_cell("5", 1, 3, 2), "  5");
    assert_eq!(align_cell("5", 1, 3, 1), "5  ");
    assert_eq!(
        table_line(&rows[0], &rows[0], &w),
        "@1  Netflix  $15.99  today          "
    );
}

#[test]
fn list_messages() {
    assert_eq!(count_label(1), "1 expense");
    assert_eq!(count_label(3), "3 expenses");
    assert_eq!(
        nothing_listed(0, 0, false),
        "No expenses yet. Run 'recu add' to track your first subscription.\n"
    );
    assert_eq!(
        nothing_listed(1, 1, false),
        "All 1 expenses are ended. Run 'recu ls --all' to view them.\n"
    );
    assert_eq!(nothing_listed(2, 0, true), "No expenses match category filter.\n");
    assert_eq!(hidden_note(2), "+ 2 ended (recu ls --all)");
}
