//! The `calendar` command: the month shown, its grid of weeks, which
//! expenses charge on which day, and the texts around the grid. Amounts are
//! summed and formatted by the caller (they are floating point).
use vstd::prelude::*;

use crate::date::{
    add_months, add_months_spec, days_in_month, first_of_month, format_date, chrono_format,
    chrono_parse_ymd, last_of_month, max_ord, month_length, ord_ymd, parse_ymd, weekday_from_monday,
    Date, MAX_YEAR,
};
use crate::error::{err_view, ErrV, ErrorKind, StoreError};
use crate::expense::{matches_categories, matches_categories_spec, next_payment_spec, string_of, Expense};
use crate::csv_format::strings_view;
use crate::listing::{hidden_count, hidden_ended};
use crate::text::{push_str, u64_to_string, dec, usize_to_string};
use crate::ui::{charge, dim, no_escape, pad_start, past_charge, saturating_sub, spaces, styled, today_cell};

verus! {

/// Columns of one day in the grid.
pub const CELL_WIDTH: usize = 7;

/// Day `k` (from 1) of the month of `month`.
pub open spec fn day_of(month: Date, k: int) -> Date {
    Date { year: month.year, month: month.month, day: k as u32 }
}

pub open spec fn month_days(month: Date) -> int {
    days_in_month(month.year as int, month.month as int)
}

/// The slots of the month's grid, row after row: blanks for the weekdays
/// before the first (weeks start on Monday), then every day of the month.
pub open spec fn slots_spec(month: Date) -> Seq<Option<Date>> {
    let lead = day_of(month, 1).weekday();
    Seq::new(lead as nat, |_i: int| None::<Date>) + Seq::new(
        month_days(month) as nat,
        |k: int| Some(day_of(month, k + 1)),
    )
}

/// The rows of a grid: its slots seven at a time, the last row possibly shorter.
pub open spec fn rows_of(slots: Seq<Option<Date>>) -> Seq<Seq<Option<Date>>> {
    Seq::new(
        ((slots.len() + 6) / 7) as nat,
        |w: int| slots.subrange(7 * w, if 7 * w + 7 <= slots.len() { 7 * w + 7 } else { slots.len() as int }),
    )
}

/// The weeks of the month of `month`, Monday first, blank before the first day.
pub fn weeks_for_month(month: &Date) -> (r: Vec<Vec<Option<Date>>>)
    requires
        month.valid(),
    ensures
        r@.map_values(|w: Vec<Option<Date>>| w@) == rows_of(slots_spec(*month)),
{
    let first = first_of_month(month);
    let last = last_of_month(month);
    let lead = weekday_from_monday(&first);
    let ghost sl = slots_spec(*month);
    let mut slots: Vec<Option<Date>> = Vec::new();
    let mut i: u32 = 0;
    while i < lead
        invariant
            i <= lead,
            lead < 7,
            slots@ == Seq::new(i as nat, |_i: int| None::<Date>),
        decreases lead - i,
    {
        slots.push(None);
        i = i + 1;
        assert(slots@ =~= Seq::new(i as nat, |_i: int| None::<Date>));
    }
    let mut k: u32 = 1;
    while k <= last.day
        invariant
            1 <= k <= last.day + 1,
            last.day == month_days(*month),
            last.day <= 31,
            lead == day_of(*month, 1).weekday(),
            first == day_of(*month, 1),
            slots@ == Seq::new(lead as nat, |_i: int| None::<Date>) + Seq::new(
                (k - 1) as nat,
                |j: int| Some(day_of(*month, j + 1)),
            ),
        decreases last.day + 1 - k,
    {
        slots.push(Some(Date { year: month.year, month: month.month, day: k }));
        proof {
            assert(Seq::new(k as nat, |j: int| Some(day_of(*month, j + 1))) =~= Seq::new(
                (k - 1) as nat,
                |j: int| Some(day_of(*month, j + 1)),
            ).push(Some(day_of(*month, k as int))));
        }
        k = k + 1;
        assert(slots@ =~= Seq::new(lead as nat, |_i: int| None::<Date>) + Seq::new(
            (k - 1) as nat,
            |j: int| Some(day_of(*month, j + 1)),
        ));
    }
    assert(slots@ =~= sl);
    let ghost rows = rows_of(sl);
    let mut weeks: Vec<Vec<Option<Date>>> = Vec::new();
    let n = slots.len();
    let mut w: usize = 0;
    while w * 7 < n
        invariant
            slots@ == sl,
            rows == rows_of(sl),
            n == sl.len(),
            n <= 38,
            weeks@.len() == w,
            w * 7 <= n + 6,
            forall|t: int| 0 <= t < w ==> #[trigger] weeks@[t]@ == rows[t],
        decreases n + 7 - w * 7,
    {
        let end = if w * 7 + 7 <= n {
            w * 7 + 7
        } else {
            n
        };
        let mut week: Vec<Option<Date>> = Vec::new();
        let mut j = w * 7;
        while j < end
            invariant
                slots@ == sl,
                n == sl.len(),
                w * 7 <= j <= end,
                end <= n,
                week@ == sl.subrange(w * 7, j as int),
            decreases end - j,
        {
            week.push(slots[j]);
            j = j + 1;
            assert(week@ =~= sl.subrange(w * 7, j as int));
        }
        let ghost wk = week@;
        assert(rows[w as int] == wk);
        weeks.push(week);
        w = w + 1;
    }
    assert(w == (n + 6) / 7);
    assert(weeks@.map_values(|w: Vec<Option<Date>>| w@) =~= rows);
    weeks
}

/// The month's title: its name and year, as chrono's `%B %Y` writes them.
pub fn month_label(month: &Date) -> (r: String)
    requires
        month.valid(),
    ensures
        r@ == chrono_format(month.year as int, month.month as int, month.day as int, "%B %Y"@),
{
    format_date(month, "%B %Y")
}

/// Spaces before the title that center it over the seven columns.
pub fn title_indent(title: &str) -> (r: usize)
    ensures
        r == saturating_sub((CELL_WIDTH * 7) as int, title@.len() as int) / 2,
{
    let w = title.unicode_len();
    let total: usize = CELL_WIDTH * 7;
    if total > w {
        (total - w) / 2
    } else {
        0
    }
}

/// `today` falls in the month shown.
pub fn is_current_month(today: &Date, month: &Date) -> (r: bool)
    ensures
        r == (today.year == month.year && today.month == month.month),
{
    today.year == month.year && today.month == month.month
}

/// The message for a `--month` value that is not a `YYYY-MM` month.
pub open spec fn bad_month_message(s: Seq<char>) -> Seq<char> {
    "'"@ + s + "' is not a valid YYYY-MM month"@
}

/// `--month YYYY-MM`: the first day of that month, as chrono reads `s-01`
/// with `%Y-%m-%d`.
pub fn parse_month(s: &str) -> (r: Result<Date, String>)
    ensures
        match r {
            Ok(d) => d.valid() && chrono_parse_ymd(s@ + "-01"@) == Some((d.year as int, d.month as int, d.day as int)),
            Err(m) => chrono_parse_ymd(s@ + "-01"@) is None && m@ == bad_month_message(s@),
        },
{
    let mut full = string_of(s);
    push_str(&mut full, "-01");
    match parse_ymd(full.as_str()) {
        Some(d) => Ok(d),
        None => {
            let mut m = string_of("'");
            push_str(&mut m, s);
            push_str(&mut m, "' is not a valid YYYY-MM month");
            Err(m)
        },
    }
}

/// The month `calendar` shows: the one asked for, else next month with
/// `--next`, else this month; as its first day.
pub open spec fn shown_month_spec(today: Date, next: bool, month: Option<Date>) -> Option<Date> {
    match month {
        Some(m) => Some(m),
        None => {
            let first = Date { day: 1, ..today };
            if next {
                add_months_spec(first, 1)
            } else {
                Some(first)
            }
        },
    }
}

/// The month to show; `None` only when next month is past chrono's last date.
pub fn shown_month(today: &Date, next: bool, month: Option<Date>) -> (r: Option<Date>)
    requires
        today.valid(),
    ensures
        r == shown_month_spec(*today, next, month),
{
    match month {
        Some(m) => Some(m),
        None => {
            let first = first_of_month(today);
            if next {
                add_months(&first, 1)
            } else {
                Some(first)
            }
        },
    }
}

/// The expense charges on day `d`: a recurring one when its next payment on
/// or after `d` is `d` itself, a one-off one on its start date.
pub open spec fn charges_on(e: Expense, d: Date) -> bool {
    match (e.start_date, e.interval) {
        (Some(f), Some(i)) => next_payment_spec(i, f, d) == d,
        (Some(f), None) => f == d,
        _ => false,
    }
}

/// The expense takes part in the calendar: its category matches, it has
/// not ended (unless `all`), and it has a start date and an amount.
pub open spec fn on_calendar(e: Expense, today: Date, all: bool, filters: Seq<Seq<char>>) -> bool {
    &&& matches_categories_spec(e@, filters)
    &&& (all || !e.is_ended_spec(today))
    &&& e.start_date is Some
    &&& e.amount is Some
}

/// The charges of the first `n` expenses on day `d`: (day, expense index), in file order.
pub open spec fn day_charges(es: Seq<Expense>, d: Date, today: Date, all: bool, filters: Seq<Seq<char>>, n: int) -> Seq<(Date, usize)>
    decreases n,
{
    if n <= 0 {
        Seq::empty()
    } else {
        let prev = day_charges(es, d, today, all, filters, n - 1);
        if on_calendar(es[n - 1], today, all, filters) && charges_on(es[n - 1], d) {
            prev.push((d, (n - 1) as usize))
        } else {
            prev
        }
    }
}

/// The charges of the first `k` days of the month, day by day.
pub open spec fn month_charges(es: Seq<Expense>, month: Date, today: Date, all: bool, filters: Seq<Seq<char>>, k: int) -> Seq<(Date, usize)>
    decreases k,
{
    if k <= 0 {
        Seq::empty()
    } else {
        month_charges(es, month, today, all, filters, k - 1) + day_charges(
            es,
            day_of(month, k),
            today,
            all,
            filters,
            es.len() as int,
        )
    }
}

/// The last weekly payment a day of the month can lead to is a date chrono holds.
pub open spec fn month_in_range(month: Date) -> bool {
    ord_ymd(month.year as int, month.month as int, month_days(month)) + 7 <= max_ord()
}

/// Whether the expense charges on `d`.
fn charges_on_exec(e: &Expense, d: &Date) -> (r: bool)
    requires
        e@.wf(),
        d.valid(),
        d.ord() + 7 <= max_ord(),
    ensures
        r == charges_on(*e, *d),
{
    match (&e.start_date, &e.interval) {
        (Some(f), Some(i)) => {
            proof {
                crate::expense::lemma_can_advance(*i, *f, *d);
            }
            let n = i.next_payment(f, d);
            proof {
                crate::expense::lemma_next_payment_is_spec(*i, *f, *d, n);
            }
            n == *d
        },
        (Some(f), None) => *f == *d,
        _ => false,
    }
}

/// A row that a day's charges hold: an expense of `es` that takes part in
/// the calendar under the filters and charges on that day.
pub open spec fn row_on_calendar(es: Seq<Expense>, today: Date, all: bool, filters: Seq<Seq<char>>, row: (Date, usize)) -> bool {
    let (d, x) = row;
    &&& x < es.len()
    &&& matches_categories_spec(es[x as int]@, filters)
    &&& (all || !es[x as int].is_ended_spec(today))
    &&& es[x as int].start_date is Some
    &&& es[x as int].amount is Some
    &&& charges_on(es[x as int], d)
}

proof fn lemma_day_charges_rows(es: Seq<Expense>, d: Date, today: Date, all: bool, filters: Seq<Seq<char>>, n: int)
    requires
        n <= es.len() <= usize::MAX,
    ensures
        forall|j: int| 0 <= j < day_charges(es, d, today, all, filters, n).len() ==> {
            let row = #[trigger] day_charges(es, d, today, all, filters, n)[j];
            row.0 == d && row.1 < n && row_on_calendar(es, today, all, filters, row)
        },
    decreases n,
{
    if n > 0 {
        lemma_day_charges_rows(es, d, today, all, filters, n - 1);
        let prev = day_charges(es, d, today, all, filters, n - 1);
        if on_calendar(es[n - 1], today, all, filters) && charges_on(es[n - 1], d) {
            assert forall|j: int| 0 <= j < prev.push((d, (n - 1) as usize)).len() implies {
                let row = #[trigger] prev.push((d, (n - 1) as usize))[j];
                row.0 == d && row.1 < n && row_on_calendar(es, today, all, filters, row)
            } by {
                if j < prev.len() {
                    assert(prev.push((d, (n - 1) as usize))[j] == prev[j]);
                }
            }
        }
    }
}

/// Every charge the calendar shows for `month` is on a day of that month and
/// belongs to an expense whose category passes the filter (any, when there
/// is none), which has not ended unless `all` is set, which has a start date
/// and an amount, and which charges on that day.
pub proof fn calendar_charges_are_filtered(
    es: Seq<Expense>,
    month: Date,
    today: Date,
    all: bool,
    filters: Seq<Seq<char>>,
    k: int,
)
    requires
        es.len() <= usize::MAX,
        k <= u32::MAX,
    ensures
        forall|j: int| 0 <= j < month_charges(es, month, today, all, filters, k).len() ==> {
            let row = #[trigger] month_charges(es, month, today, all, filters, k)[j];
            &&& row.0.year == month.year
            &&& row.0.month == month.month
            &&& 1 <= row.0.day <= k
            &&& row_on_calendar(es, today, all, filters, row)
        },
    decreases k,
{
    if k > 0 {
        calendar_charges_are_filtered(es, month, today, all, filters, k - 1);
        let prev = month_charges(es, month, today, all, filters, k - 1);
        let day = day_charges(es, day_of(month, k), today, all, filters, es.len() as int);
        lemma_day_charges_rows(es, day_of(month, k), today, all, filters, es.len() as int);
        assert forall|j: int| 0 <= j < (prev + day).len() implies {
            let row = #[trigger] (prev + day)[j];
            &&& row.0.year == month.year
            &&& row.0.month == month.month
            &&& 1 <= row.0.day <= k
            &&& row_on_calendar(es, today, all, filters, row)
        } by {
            if j < prev.len() {
                assert((prev + day)[j] == prev[j]);
            } else {
                assert((prev + day)[j] == day[j - prev.len()]);
                assert(day[j - prev.len()].0 == day_of(month, k));
            }
        }
    }
}

proof fn lemma_day_charges_complete(es: Seq<Expense>, d: Date, today: Date, all: bool, filters: Seq<Seq<char>>, n: int, x: int)
    requires
        n <= es.len() <= usize::MAX,
        0 <= x < n,
        row_on_calendar(es, today, all, filters, (d, x as usize)),
    ensures
        day_charges(es, d, today, all, filters, n).contains((d, x as usize)),
    decreases n,
{
    let prev = day_charges(es, d, today, all, filters, n - 1);
    if x < n - 1 {
        lemma_day_charges_complete(es, d, today, all, filters, n - 1, x);
        let j = choose|j: int| 0 <= j < prev.len() && prev[j] == (d, x as usize);
        if on_calendar(es[n - 1], today, all, filters) && charges_on(es[n - 1], d) {
            assert(prev.push((d, (n - 1) as usize))[j] == (d, x as usize));
        }
    } else {
        assert(prev.push((d, x as usize))[prev.len() as int] == (d, x as usize));
    }
}

/// Every expense that passes the filters, has not ended (unless `all`), has
/// a start date and an amount, and charges on a day of the first `k` days of
/// the month, is shown on that day.
pub proof fn calendar_shows_every_charge(
    es: Seq<Expense>,
    month: Date,
    today: Date,
    all: bool,
    filters: Seq<Seq<char>>,
    k: int,
    t: int,
    x: int,
)
    requires
        es.len() <= usize::MAX,
        1 <= t <= k,
        0 <= x < es.len(),
        row_on_calendar(es, today, all, filters, (day_of(month, t), x as usize)),
    ensures
        month_charges(es, month, today, all, filters, k).contains((day_of(month, t), x as usize)),
    decreases k,
{
    let prev = month_charges(es, month, today, all, filters, k - 1);
    let day = day_charges(es, day_of(month, k), today, all, filters, es.len() as int);
    if t < k {
        calendar_shows_every_charge(es, month, today, all, filters, k - 1, t, x);
        let j = choose|j: int| 0 <= j < prev.len() && prev[j] == (day_of(month, t), x as usize);
        assert((prev + day)[j] == prev[j]);
    } else {
        lemma_day_charges_complete(es, day_of(month, k), today, all, filters, es.len() as int, x);
        let j = choose|j: int| 0 <= j < day.len() && day[j] == (day_of(month, t), x as usize);
        assert((prev + day)[prev.len() + j] == day[j]);
    }
}

/// What `calendar` shows of the month: for each day in order, the expenses
/// charging on it in file order, as (day, index into `expenses`); and how
/// many expenses it leaves out for having ended.
pub fn calendar_charges(
    expenses: &Vec<Expense>,
    month: &Date,
    today: &Date,
    all: bool,
    categories: &Vec<String>,
) -> (r: (Vec<(Date, usize)>, usize))
    requires
        month.valid(),
        today.valid(),
        month_in_range(*month),
        forall|i: int| 0 <= i < expenses@.len() ==> (#[trigger] expenses@[i])@.wf(),
    ensures
        r.0@ == month_charges(expenses@, *month, *today, all, strings_view(categories@), month_days(*month)),
        forall|j: int| 0 <= j < r.0@.len() ==> #[trigger] row_on_calendar(
            expenses@,
            *today,
            all,
            strings_view(categories@),
            r.0@[j],
        ) && r.0@[j].0.year == month.year && r.0@[j].0.month == month.month,
        forall|t: int, x: int|
            1 <= t <= month_days(*month) && 0 <= x < expenses@.len() && #[trigger] row_on_calendar(
                expenses@,
                *today,
                all,
                strings_view(categories@),
                (day_of(*month, t), x as usize),
            ) ==> r.0@.contains((day_of(*month, t), x as usize)),
        r.1 == hidden_count(expenses@, *today, all, strings_view(categories@), expenses@.len() as int),
{
    let ghost es = expenses@;
    let ghost fv = strings_view(categories@);
    proof {
        assert(categories@.map_values(|s: String| s@) =~= fv);
    }
    let days = month_length(month.year, month.month);
    let mut out: Vec<(Date, usize)> = Vec::new();
    let mut k: u32 = 1;
    while k <= days
        invariant
            es == expenses@,
            fv == strings_view(categories@),
            categories@.map_values(|s: String| s@) == fv,
            month.valid(),
            today.valid(),
            month_in_range(*month),
            days == month_days(*month),
            1 <= k <= days + 1,
            forall|i: int| 0 <= i < es.len() ==> (#[trigger] es[i])@.wf(),
            out@ == month_charges(es, *month, *today, all, fv, k - 1),
        decreases days + 1 - k,
    {
        let d = Date { year: month.year, month: month.month, day: k };
        proof {
            crate::date::lemma_ord_same_month(month.year as int, month.month as int, k as int, days as int);
        }
        let ghost before = out@;
        let mut x: usize = 0;
        while x < expenses.len()
            invariant
                es == expenses@,
                fv == strings_view(categories@),
                categories@.map_values(|s: String| s@) == fv,
                d == day_of(*month, k as int),
                d.valid(),
                d.ord() + 7 <= max_ord(),
                today.valid(),
                x <= es.len(),
                forall|i: int| 0 <= i < es.len() ==> (#[trigger] es[i])@.wf(),
                out@ == before + day_charges(es, d, *today, all, fv, x as int),
            decreases es.len() - x,
        {
            let e = &expenses[x];
            assert(e@.wf());
            let take = matches_categories(e, categories) && (all || !e.is_ended(today))
                && e.start_date.is_some() && e.amount.is_some() && charges_on_exec(e, &d);
            if take {
                out.push((d, x));
            }
            assert(out@ =~= before + day_charges(es, d, *today, all, fv, x + 1));
            x = x + 1;
        }
        k = k + 1;
    }
    let mut hidden: usize = 0;
    let mut x: usize = 0;
    while x < expenses.len()
        invariant
            es == expenses@,
            categories@.map_values(|s: String| s@) == fv,
            today.valid(),
            x <= es.len(),
            forall|i: int| 0 <= i < es.len() ==> (#[trigger] es[i])@.wf(),
            hidden == hidden_count(es, *today, all, fv, x as int),
            hidden <= x,
        decreases es.len() - x,
    {
        let e = &expenses[x];
        assert(e@.wf());
        if !all && matches_categories(e, categories) && e.is_ended(today) {
            hidden = hidden + 1;
        }
        x = x + 1;
    }
    proof {
        calendar_charges_are_filtered(es, *month, *today, all, fv, month_days(*month));
        assert forall|t: int, x: int|
            1 <= t <= month_days(*month) && 0 <= x < es.len() && #[trigger] row_on_calendar(
                es,
                *today,
                all,
                fv,
                (day_of(*month, t), x as usize),
            ) implies out@.contains((day_of(*month, t), x as usize)) by {
            calendar_shows_every_charge(es, *month, *today, all, fv, month_days(*month), t, x);
        }
    }
    (out, hidden)
}

/// The day number right-aligned in its cell.
pub fn day_number_cell(day: u32) -> (r: String)
    ensures
        r@ == spaces(saturating_sub(CELL_WIDTH as int, dec(day as nat).len() as int)) + dec(day as nat),
{
    let n = u64_to_string(day as u64);
    let w = n.unicode_len();
    pad_start(n.as_str(), w, CELL_WIDTH)
}

/// The badge that counts several charges on one day: `(n)` for more than one.
pub open spec fn badge_spec(count: nat) -> Seq<char> {
    if count > 1 {
        "("@ + dec(count) + ")"@
    } else {
        Seq::empty()
    }
}

/// The badge that counts several charges on one day: `(n)` for more than one.
pub fn count_badge(count: usize) -> (r: String)
    ensures
        r@ == badge_spec(count as nat),
{
    if count > 1 {
        let mut s = string_of("(");
        let n = usize_to_string(count);
        push_str(&mut s, n.as_str());
        push_str(&mut s, ")");
        s
    } else {
        String::new()
    }
}

/// The note under the grid about ended expenses left out.
pub fn calendar_hidden_note(hidden: usize) -> (r: String)
    ensures
        r@ == "+ "@ + dec(hidden as nat) + " ended (recu calendar --all)"@,
{
    let mut s = string_of("+ ");
    let h = usize_to_string(hidden);
    push_str(&mut s, h.as_str());
    push_str(&mut s, " ended (recu calendar --all)");
    s
}

/// "charge" for one, "charges" otherwise.
pub fn charges_word(count: usize) -> (r: &'static str)
    ensures
        r@ == if count == 1 { "charge"@ } else { "charges"@ },
{
    if count == 1 {
        "charge"
    } else {
        "charges"
    }
}

/// How a day shows in the grid: today, a day gone by (both only in the
/// current month), or plain.
#[derive(Clone, Copy, Debug, PartialEq, Eq, Structural)]
pub enum DayState {
    Today,
    Past,
    Plain,
}

pub open spec fn day_state_spec(current: bool, d: Date, today: Date) -> DayState {
    if current && d.ord() == today.ord() {
        DayState::Today
    } else if current && d.ord() < today.ord() {
        DayState::Past
    } else {
        DayState::Plain
    }
}

/// How day `d` shows, `current` telling whether the month shown is today's.
pub fn day_state(current: bool, d: &Date, today: &Date) -> (r: DayState)
    requires
        d.valid(),
        today.valid(),
    ensures
        r == day_state_spec(current, *d, *today),
{
    if !current {
        DayState::Plain
    } else if !crate::date::date_lt(d, today) && !crate::date::date_lt(today, d) {
        DayState::Today
    } else if crate::date::date_lt(d, today) {
        DayState::Past
    } else {
        DayState::Plain
    }
}

/// Columns left for a day's amount beside the badge of `count` charges.
pub fn amount_room(count: usize) -> (r: usize)
    ensures
        r == saturating_sub(CELL_WIDTH as int, badge_spec(count as nat).len() as int),
{
    let badge = count_badge(count);
    let n = badge.unicode_len();
    if n < CELL_WIDTH {
        CELL_WIDTH - n
    } else {
        0
    }
}

/// A day's charge cell: its amount text, then the badge, right-aligned in the cell.
pub open spec fn charge_cell_spec(amount: Seq<char>, count: nat) -> Seq<char> {
    let text = amount + badge_spec(count);
    spaces(CELL_WIDTH - text.len()) + text
}

/// A day's charge cell for `count` charges whose total the caller wrote as `amount`.
pub fn charge_cell(amount: &str, count: usize) -> (r: String)
    ensures
        r@ == charge_cell_spec(amount@, count as nat),
{
    let mut text = string_of(amount);
    let badge = count_badge(count);
    push_str(&mut text, badge.as_str());
    let w = text.unicode_len();
    let r = pad_start(text.as_str(), w, CELL_WIDTH);
    assert(spaces(saturating_sub(CELL_WIDTH as int, w as int)) =~= spaces(CELL_WIDTH - text@.len()));
    r
}

/// How a cell of the grid is shown.
#[derive(Clone, Copy, Debug, PartialEq, Eq, Structural)]
pub enum Tone {
    Plain,
    Today,
    Past,
    Charge,
    PastCharge,
}

/// `r` is the text `s` in tone `tone`.
pub open spec fn toned(r: Seq<char>, tone: Tone, s: Seq<char>) -> bool {
    match tone {
        Tone::Plain => r == s,
        Tone::Today => styled(r, seq!['1', ';', '3', '3'], s),
        Tone::Past => styled(r, seq!['2'], s),
        Tone::Charge => styled(r, seq!['1', ';', '3', '6'], s),
        Tone::PastCharge => styled(r, seq!['1', ';', '2'], s),
    }
}

/// The charges on day `d`: (count, amount text) of the first entry for it.
pub open spec fn cell_at(cells: Seq<(Date, usize, Seq<char>)>, d: Date) -> Option<(usize, Seq<char>)>
    decreases cells.len(),
{
    if cells.len() == 0 {
        None
    } else if cells[0].0 == d {
        Some((cells[0].1, cells[0].2))
    } else {
        cell_at(cells.drop_first(), d)
    }
}

/// The day number right-aligned in its cell.
pub open spec fn day_text(d: Date) -> Seq<char> {
    spaces(CELL_WIDTH - dec(d.day as nat).len()) + dec(d.day as nat)
}

/// The text and tone of a slot's cell in the date line.
pub open spec fn date_piece(slot: Option<Date>, current: bool, today: Date) -> (Seq<char>, Tone) {
    match slot {
        None => (spaces(CELL_WIDTH as int), Tone::Plain),
        Some(d) => (
            day_text(d),
            match day_state_spec(current, d, today) {
                DayState::Today => Tone::Today,
                DayState::Past => Tone::Past,
                DayState::Plain => Tone::Plain,
            },
        ),
    }
}

/// The text and tone of a slot's cell in the amount line.
pub open spec fn amount_piece(
    slot: Option<Date>,
    current: bool,
    today: Date,
    cells: Seq<(Date, usize, Seq<char>)>,
) -> (Seq<char>, Tone) {
    match slot {
        None => (spaces(CELL_WIDTH as int), Tone::Plain),
        Some(d) => match cell_at(cells, d) {
            None => (spaces(CELL_WIDTH as int), Tone::Plain),
            Some((count, text)) => (
                charge_cell_spec(text, count as nat),
                if day_state_spec(current, d, today) == DayState::Past {
                    Tone::PastCharge
                } else {
                    Tone::Charge
                },
            ),
        },
    }
}

/// The pieces joined.
pub open spec fn joined(pieces: Seq<Seq<char>>) -> Seq<char>
    decreases pieces.len(),
{
    if pieces.len() == 0 {
        Seq::empty()
    } else {
        joined(pieces.drop_last()) + pieces.last()
    }
}

/// `line` is the week's date line (`amounts` false) or amount line
/// (`amounts` true): one cell per slot, each in its tone.
pub open spec fn week_line(
    line: Seq<char>,
    week: Seq<Option<Date>>,
    current: bool,
    today: Date,
    cells: Seq<(Date, usize, Seq<char>)>,
    amounts: bool,
) -> bool {
    exists|pieces: Seq<Seq<char>>|
        pieces.len() == week.len() && line == joined(pieces) && forall|k: int|
            0 <= k < week.len() ==> {
                let p = if amounts {
                    amount_piece(week[k], current, today, cells)
                } else {
                    date_piece(week[k], current, today)
                };
                toned(#[trigger] pieces[k], p.1, p.0)
            }
}

/// Some day of the week has charges.
pub open spec fn week_has_charge(week: Seq<Option<Date>>, cells: Seq<(Date, usize, Seq<char>)>) -> bool {
    exists|k: int| 0 <= k < week.len() && (#[trigger] week[k] matches Some(d) && cell_at(cells, d) is Some)
}

pub open spec fn cells_view(cells: Seq<(Date, usize, String)>) -> Seq<(Date, usize, Seq<char>)> {
    cells.map_values(|c: (Date, usize, String)| (c.0, c.1, c.2@))
}

fn find_cell(cells: &Vec<(Date, usize, String)>, d: &Date) -> (r: Option<usize>)
    ensures
        match r {
            Some(i) => i < cells@.len() && cell_at(cells_view(cells@), *d) == Some((cells@[i as int].1, cells@[i as int].2@)),
            None => cell_at(cells_view(cells@), *d) is None,
        },
{
    let ghost cv = cells_view(cells@);
    let mut i: usize = 0;
    assert(cv.skip(0) =~= cv);
    while i < cells.len()
        invariant
            cv == cells_view(cells@),
            i <= cells@.len(),
            cell_at(cv, *d) == cell_at(cv.skip(i as int), *d),
        decreases cells@.len() - i,
    {
        assert(cv.skip(i as int)[0] == (cells@[i as int].0, cells@[i as int].1, cells@[i as int].2@));
        if cells[i].0 == *d {
            return Some(i);
        }
        assert(cv.skip(i as int).drop_first() =~= cv.skip(i + 1));
        i = i + 1;
    }
    None
}

/// The grid of the month: for each week, its date line and, when a day of
/// it has charges, its amount line. `cells` holds, for each day with
/// charges, the day, how many charges and the amount text the caller
/// wrote for their total.
pub fn calendar_week_lines(month: &Date, today: &Date, cells: &Vec<(Date, usize, String)>) -> (r: Vec<(String, Option<String>)>)
    requires
        month.valid(),
        today.valid(),
        forall|i: int| 0 <= i < cells@.len() ==> no_escape((#[trigger] cells@[i]).2@),
    ensures
        r@.len() == rows_of(slots_spec(*month)).len(),
        forall|w: int|
            0 <= w < r@.len() ==> {
                let week = #[trigger] rows_of(slots_spec(*month))[w];
                let current = today.year == month.year && today.month == month.month;
                &&& week_line(r@[w].0@, week, current, *today, cells_view(cells@), false)
                &&& (r@[w].1 is Some <==> week_has_charge(week, cells_view(cells@)))
                &&& (r@[w].1 matches Some(a) ==> week_line(a@, week, current, *today, cells_view(cells@), true))
            },
{
    let ghost cv = cells_view(cells@);
    let weeks = weeks_for_month(month);
    let ghost rows = rows_of(slots_spec(*month));
    let current = is_current_month(today, month);
    let mut out: Vec<(String, Option<String>)> = Vec::new();
    let mut w: usize = 0;
    while w < weeks.len()
        invariant
            cv == cells_view(cells@),
            weeks@.map_values(|x: Vec<Option<Date>>| x@) == rows,
            rows == rows_of(slots_spec(*month)),
            month.valid(),
            today.valid(),
            current == (today.year == month.year && today.month == month.month),
            forall|i: int| 0 <= i < cells@.len() ==> no_escape((#[trigger] cells@[i]).2@),
            w <= weeks@.len(),
            out@.len() == w,
            forall|v: int|
                0 <= v < w ==> {
                    let week = #[trigger] rows[v];
                    &&& week_line(out@[v].0@, week, current, *today, cv, false)
                    &&& (out@[v].1 is Some <==> week_has_charge(week, cv))
                    &&& (out@[v].1 matches Some(a) ==> week_line(a@, week, current, *today, cv, true))
                },
        decreases weeks@.len() - w,
    {
        let week = &weeks[w];
        assert(week@ == rows[w as int]);
        proof {
            let sl = slots_spec(*month);
            let n = sl.len() as int;
            let ww = w as int;
            assert(rows.len() == (n + 6) / 7);
            assert(7 * ww < n) by (nonlinear_arith)
                requires
                    0 <= ww < (n + 6) / 7,
                    n >= 0,
            ;
            let end = if 7 * ww + 7 <= n { 7 * ww + 7 } else { n };
            assert(rows[ww] == sl.subrange(7 * ww, end));
            let lead = day_of(*month, 1).weekday();
            assert(0 <= lead < 7);
            let nones = Seq::new(lead as nat, |_i: int| None::<Date>);
            let days = Seq::new(month_days(*month) as nat, |j: int| Some(day_of(*month, j + 1)));
            assert(sl == nones + days);
            assert forall|k: int| 0 <= k < week@.len() implies (#[trigger] week@[k] matches Some(d) ==> d.valid()) by {
                let idx = 7 * ww + k;
                assert(week@[k] == sl[idx]);
                if idx >= lead {
                    assert(sl[idx] == days[idx - lead]);
                    assert(sl[idx] == Some(day_of(*month, idx - lead + 1)));
                } else {
                    assert(sl[idx] == nones[idx]);
                }
            }
        }
        let line = week_lines_of(week, current, today, cells);
        let ghost prev = out@;
        out.push(line);
        proof {
            assert forall|v: int| 0 <= v < w + 1 implies {
                let week = #[trigger] rows[v];
                &&& week_line(out@[v].0@, week, current, *today, cv, false)
                &&& (out@[v].1 is Some <==> week_has_charge(week, cv))
                &&& (out@[v].1 matches Some(a) ==> week_line(a@, week, current, *today, cv, true))
            } by {
                if v < w {
                    assert(out@[v] == prev[v]);
                }
            }
        }
        w = w + 1;
    }
    assert(rows.len() == weeks@.len());
    out
}

/// The date line and, when a day has charges, the amount line of one week.
fn week_lines_of(week: &Vec<Option<Date>>, current: bool, today: &Date, cells: &Vec<(Date, usize, String)>) -> (r: (String, Option<String>))
    requires
        today.valid(),
        forall|k: int| 0 <= k < week@.len() ==> (#[trigger] week@[k] matches Some(d) ==> d.valid()),
        forall|i: int| 0 <= i < cells@.len() ==> no_escape((#[trigger] cells@[i]).2@),
    ensures
        week_line(r.0@, week@, current, *today, cells_view(cells@), false),
        r.1 is Some <==> week_has_charge(week@, cells_view(cells@)),
        r.1 matches Some(a) ==> week_line(a@, week@, current, *today, cells_view(cells@), true),
{
    let ghost cv = cells_view(cells@);
    let mut date_line = String::new();
    let mut amount_line = String::new();
    let mut any = false;
    let ghost mut dp: Seq<Seq<char>> = Seq::empty();
    let ghost mut ap: Seq<Seq<char>> = Seq::empty();
    let mut k: usize = 0;
    while k < week.len()
        invariant
            cv == cells_view(cells@),
            today.valid(),
            forall|k: int| 0 <= k < week@.len() ==> (#[trigger] week@[k] matches Some(d) ==> d.valid()),
            forall|i: int| 0 <= i < cells@.len() ==> no_escape((#[trigger] cells@[i]).2@),
            k <= week@.len(),
            dp.len() == k,
            ap.len() == k,
            date_line@ == joined(dp),
            amount_line@ == joined(ap),
            forall|j: int| 0 <= j < k ==> toned(#[trigger] dp[j], date_piece(week@[j], current, *today).1, date_piece(week@[j], current, *today).0),
            forall|j: int| 0 <= j < k ==> toned(#[trigger] ap[j], amount_piece(week@[j], current, *today, cv).1, amount_piece(week@[j], current, *today, cv).0),
            any == exists|j: int| 0 <= j < k && (#[trigger] week@[j] matches Some(d) && cell_at(cv, d) is Some),
        decreases week@.len() - k,
    {
        let ghost dp0 = dp;
        let ghost ap0 = ap;
        let ghost any0 = any;
        match &week[k] {
            None => {
                let mut blank = String::new();
                crate::text::push_repeat(&mut blank, ' ', CELL_WIDTH);
                assert(blank@ =~= spaces(CELL_WIDTH as int));
                push_str(&mut date_line, blank.as_str());
                push_str(&mut amount_line, blank.as_str());
                proof {
                    dp = dp.push(blank@);
                    ap = ap.push(blank@);
                }
            },
            Some(d) => {
                assert(d.valid());
                let base = day_number_cell(d.day);
                assert(base@ =~= day_text(*d));
                assert(no_escape(base@)) by {
                    reveal_dec_digits(d.day as nat);
                    lemma_no_escape_concat(spaces(CELL_WIDTH - dec(d.day as nat).len()), dec(d.day as nat));
                }
                let state = day_state(current, d, today);
                let shown = match state {
                    DayState::Today => today_cell(base.as_str()),
                    DayState::Past => dim(base.as_str()),
                    DayState::Plain => base,
                };
                push_str(&mut date_line, shown.as_str());
                proof {
                    dp = dp.push(shown@);
                }
                match find_cell(cells, d) {
                    None => {
                        let mut blank = String::new();
                        crate::text::push_repeat(&mut blank, ' ', CELL_WIDTH);
                        assert(blank@ =~= spaces(CELL_WIDTH as int));
                        push_str(&mut amount_line, blank.as_str());
                        proof {
                            ap = ap.push(blank@);
                        }
                    },
                    Some(i) => {
                        any = true;
                        let cell = charge_cell(cells[i].2.as_str(), cells[i].1);
                        assert(no_escape(cell@)) by {
                            let text = cells@[i as int].2@;
                            let n = cells@[i as int].1 as nat;
                            assert(no_escape(text));
                            reveal_dec_digits(n);
                            reveal_strlit("(");
                            reveal_strlit(")");
                            lemma_no_escape_concat(seq!['('], dec(n));
                            lemma_no_escape_concat(seq!['('] + dec(n), seq![')']);
                            assert("("@ + dec(n) + ")"@ =~= seq!['('] + dec(n) + seq![')']);
                            lemma_no_escape_concat(text, badge_spec(n));
                            let sp = spaces(CELL_WIDTH - (text + badge_spec(n)).len());
                            lemma_no_escape_concat(sp, text + badge_spec(n));
                        }
                        let shown2 = if state == DayState::Past {
                            past_charge(cell.as_str())
                        } else {
                            charge(cell.as_str())
                        };
                        push_str(&mut amount_line, shown2.as_str());
                        proof {
                            ap = ap.push(shown2@);
                        }
                    },
                }
            },
        }
        proof {
            assert(dp.drop_last() =~= dp0);
            assert(ap.drop_last() =~= ap0);
            assert forall|j: int| 0 <= j < k + 1 implies toned(#[trigger] dp[j], date_piece(week@[j], current, *today).1, date_piece(week@[j], current, *today).0) by {
                if j < k {
                    assert(dp[j] == dp0[j]);
                }
            }
            assert forall|j: int| 0 <= j < k + 1 implies toned(#[trigger] ap[j], amount_piece(week@[j], current, *today, cv).1, amount_piece(week@[j], current, *today, cv).0) by {
                if j < k {
                    assert(ap[j] == ap0[j]);
                }
            }
            if any && !any0 {
                assert(week@[k as int] matches Some(d) && cell_at(cv, d) is Some);
            }
            if any0 {
                let j = choose|j: int| 0 <= j < k && (#[trigger] week@[j] matches Some(d) && cell_at(cv, d) is Some);
                assert(0 <= j < k + 1);
            }
            if any {
                let j = choose|j: int| 0 <= j < k + 1 && (#[trigger] week@[j] matches Some(d) && cell_at(cv, d) is Some);
            }
        }
        k = k + 1;
    }
    proof {
        assert(date_line@ == joined(dp));
    }
    if any {
        (date_line, Some(amount_line))
    } else {
        (date_line, None)
    }
}

proof fn lemma_no_escape_concat(a: Seq<char>, b: Seq<char>)
    requires
        forall|i: int| 0 <= i < a.len() ==> a[i] != '\x1B',
        no_escape(b),
    ensures
        no_escape(a + b),
{
    assert forall|i: int| 0 <= i < (a + b).len() implies (a + b)[i] != '\x1B' by {
        if i >= a.len() {
            assert((a + b)[i] == b[i - a.len()]);
        }
    }
}

/// The decimal digits hold no escape character.
proof fn reveal_dec_digits(n: nat)
    ensures
        no_escape(dec(n)),
{
    crate::text::lemma_dec_digits(n);
    assert forall|i: int| 0 <= i < dec(n).len() implies dec(n)[i] != '\x1B' by {
        assert(crate::text::is_digit(dec(n)[i]));
    }
}

} // verus!
