use recu::calendar::{
    amount_room, calendar_charges, charge_cell, count_badge, day_number_cell, day_state,
    calendar_week_lines, is_current_month, month_label, parse_month, shown_month, title_indent,
    weeks_for_month, DayState,
};
use recu::date::Date;
use recu::expense::{Expense, Interval};

fn d(y: i32, m: u32, day: u32) -> Date {
    Date { year: y, month: m, day }
}

#[test]
fn weeks_start_on_monday() {
    // May 2026 starts on a Friday.
    let weeks = weeks_for_month(&d(2026, 5, 1));
    assert_eq!(weeks.len(), 5);
    assert_eq!(weeks[0][..4], [None, None, None, None]);
    assert_eq!(weeks[0][4], Some(d(2026, 5, 1)));
    assert_eq!(weeks[0].len(), 7);
    assert_eq!(weeks[4], vec![Some(d(2026, 5, 25)), Some(d(2026, 5, 26)), Some(d(2026, 5, 27)), Some(d(2026, 5, 28)), Some(d(2026, 5, 29)), Some(d(2026, 5, 30)), Some(d(2026, 5, 31))]);
    // February 2027 starts on a Monday and has four full weeks.
    assert_eq!(weeks_for_month(&d(2027, 2, 1)).len(), 4);
}

#[test]
fn parses_month_arg() {
    assert_eq!(parse_month("2026-12"), Ok(d(2026, 12, 1)));
    assert_eq!(
        parse_month("2026-13"),
        Err("'2026-13' is not a valid YYYY-MM month".to_string())
    );
}

#[test]
fn month_choice() {
    let today = d(2026, 12, 17);
    assert_eq!(shown_month(&today, false, None), Some(d(2026, 12, 1)));
    assert_eq!(shown_month(&today, true, None), Some(d(2027, 1, 1)));
    assert_eq!(shown_month(&today, true, Some(d(2026, 3, 1))), Some(d(2026, 3, 1)));
    assert!(is_current_month(&today, &d(2026, 12, 1)));
    assert!(!is_current_month(&today, &d(2025, 12, 1)));
}

fn expense(name: &str, start: Date, interval: Option<Interval>) -> Expense {
    let mut e = Expense::named(name);
    e.amount = Some("10".to_string());
    e.start_date = Some(start);
    e.interval = interval;
    e
}

#[test]
fn charges_fall_on_payment_days() {
    let es = vec![
        expense("Weekly", d(2026, 4, 27), Some(Interval::Weekly)),
        expense("Monthly", d(2026, 1, 31), Some(Interval::Monthly)),
        expense("Once", d(2026, 5, 9), None),
        expense("Later", d(2026, 9, 1), Some(Interval::Yearly)),
    ];
    let (charges, hidden) = calendar_charges(&es, &d(2026, 5, 1), &d(2026, 5, 10), false, &Vec::new());
    let got: Vec<(u32, usize)> = charges.iter().map(|(day, i)| (day.day, *i)).collect();
    assert_eq!(got, vec![(4, 0), (9, 2), (11, 0), (18, 0), (25, 0), (31, 1)]);
    assert_eq!(hidden, 0);
}

#[test]
fn ended_expenses_are_counted_not_shown() {
    let mut e = expense("Old", d(2026, 1, 5), Some(Interval::Monthly));
    e.end_date = Some(d(2026, 3, 1));
    let (charges, hidden) = calendar_charges(&vec![e.clone()], &d(2026, 5, 1), &d(2026, 5, 10), false, &Vec::new());
    assert!(charges.is_empty());
    assert_eq!(hidden, 1);
    let (charges, hidden) = calendar_charges(&vec![e], &d(2026, 5, 1), &d(2026, 5, 10), true, &Vec::new());
    assert_eq!(charges.len(), 1);
    assert_eq!(hidden, 0);
}

#[test]
fn calendar_cells_and_title() {
    assert_eq!(day_number_cell(5), "      5");
    assert_eq!(day_number_cell(25), "     25");
    assert_eq!(count_badge(1), "");
    assert_eq!(count_badge(3), "(3)");
    assert_eq!(month_label(&d(2026, 5, 1)), "May 2026");
    assert_eq!(title_indent("May 2026"), 20);
}

#[test]
fn day_states_mark_today_and_past_days_of_the_current_month() {
    let today = d(2026, 5, 15);
    assert_eq!(day_state(true, &d(2026, 5, 15), &today), DayState::Today);
    assert_eq!(day_state(true, &d(2026, 5, 3), &today), DayState::Past);
    assert_eq!(day_state(true, &d(2026, 5, 20), &today), DayState::Plain);
    assert_eq!(day_state(false, &d(2026, 5, 3), &today), DayState::Plain);
}

#[test]
fn charge_cells_fit_amount_and_badge() {
    assert_eq!(amount_room(1), 7);
    assert_eq!(amount_room(2), 4);
    assert_eq!(amount_room(12), 3);
    assert_eq!(charge_cell("61", 2), "  61(2)");
    assert_eq!(charge_cell("4 766", 1), "  4 766");
    assert_eq!(charge_cell("12k", 12), "12k(12)");
}

/// The text with its terminal styling taken out.
fn plain(s: &str) -> String {
    let mut out = String::new();
    let mut in_escape = false;
    for c in s.chars() {
        if in_escape {
            if c == 'm' {
                in_escape = false;
            }
        } else if c == '\x1b' {
            in_escape = true;
        } else {
            out.push(c);
        }
    }
    out
}

#[test]
fn week_lines_show_days_and_amounts_of_charged_weeks() {
    let cells = vec![(d(2026, 5, 4), 1, "9.99".to_string()), (d(2026, 5, 30), 2, "61".to_string())];
    let lines = calendar_week_lines(&d(2026, 5, 1), &d(2026, 6, 10), &cells);
    assert_eq!(lines.len(), 5);
    assert_eq!(plain(&lines[0].0), format!("{}      1      2      3", " ".repeat(28)));
    assert!(lines[0].1.is_none());
    assert_eq!(plain(&lines[1].0), "      4      5      6      7      8      9     10");
    assert_eq!(lines[1].1.as_deref().map(plain), Some(format!("   9.99{}", " ".repeat(42))));
    assert!(lines[2].1.is_none());
    assert!(lines[3].1.is_none());
    assert_eq!(plain(&lines[4].0), "     25     26     27     28     29     30     31");
    assert_eq!(lines[4].1.as_deref().map(plain), Some(format!("{}  61(2){}", " ".repeat(35), " ".repeat(7))));
}

#[test]
fn weekly_start_ahead_is_the_next_payment() {
    assert_eq!(Interval::Weekly.next_payment(&d(2026, 5, 1), &d(2026, 4, 15)), d(2026, 5, 1));
    assert_eq!(Interval::Weekly.next_payment(&d(2026, 4, 1), &d(2026, 4, 10)), d(2026, 4, 15));
    assert_eq!(Interval::Monthly.next_payment(&d(2026, 5, 1), &d(2026, 4, 15)), d(2026, 5, 1));
    assert_eq!(Interval::Monthly.next_payment(&d(2026, 1, 31), &d(2026, 2, 15)), d(2026, 2, 28));
}
