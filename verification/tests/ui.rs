use recu::date::Date;
use recu::ui::{char_width, format_relative_date, pad_end, pad_start, truecolor_pixel, truncate};

#[test]
fn truncate_fits() {
    assert_eq!(truncate("hello", 10), "hello");
    assert_eq!(truncate("hello", 5), "hello");
}

#[test]
fn truncate_with_ellipsis() {
    assert_eq!(truncate("hello world", 6), "hello…");
}

#[test]
fn truncate_max_one() {
    assert_eq!(truncate("hello", 1), "h");
}

#[test]
fn truncate_max_zero_is_empty() {
    assert_eq!(truncate("hello", 0), "");
}

#[test]
fn widths_and_padding() {
    assert_eq!(char_width("€12"), 3);
    assert_eq!(pad_end("ab", 2, 5), "ab   ");
    assert_eq!(pad_start("ab", 2, 5), "   ab");
    assert_eq!(pad_end("abcdef", 6, 3), "abcdef");
    // ANSI codes are not counted: the plain width decides the padding
    assert_eq!(pad_end("\x1b[1mab\x1b[0m", 2, 4), "\x1b[1mab\x1b[0m  ");
}

#[test]
fn truecolor_pixel_holds_the_character() {
    let s = truecolor_pixel('x', (1, 2, 3), (4, 5, 6));
    assert!(s == "x" || (s.starts_with("\x1b[") && s.ends_with("x\x1b[0m")));
}

fn d(y: i32, m: u32, day: u32) -> Date {
    Date { year: y, month: m, day }
}

// Friday, picked so that +2..=+6 spans Sun..Thu.
fn today() -> Date {
    d(2026, 5, 8)
}

#[test]
fn relative_date_named_anchors() {
    assert_eq!(format_relative_date(&today(), &today()), "today");
    assert_eq!(format_relative_date(&d(2026, 5, 9), &today()), "tomorrow");
    assert_eq!(format_relative_date(&d(2026, 5, 7), &today()), "yesterday");
}

#[test]
fn relative_date_weekday_window_future_only() {
    assert_eq!(format_relative_date(&d(2026, 5, 10), &today()), "Sun");
    assert_eq!(format_relative_date(&d(2026, 5, 14), &today()), "Thu");
    assert_eq!(format_relative_date(&d(2026, 5, 6), &today()), "May 6");
}

#[test]
fn relative_date_absolute_same_year_omits_year() {
    assert_eq!(format_relative_date(&d(2026, 5, 15), &today()), "May 15");
    assert_eq!(format_relative_date(&d(2026, 12, 1), &today()), "Dec 1");
}

#[test]
fn relative_date_absolute_different_year_includes_year() {
    assert_eq!(format_relative_date(&d(2027, 1, 15), &today()), "Jan 15, 2027");
    assert_eq!(format_relative_date(&d(2025, 11, 30), &today()), "Nov 30, 2025");
}
