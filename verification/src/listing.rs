//! The `list` command: which expenses show and in what order, the cells of
//! each row, the table's layout, and its messages. Amounts are formatted by
//! the caller (they are floating point) and handed in as text; colors are
//! applied by the caller to cells whose plain widths this module measures.
use vstd::prelude::*;

use crate::csv_format::strings_view;
use crate::currency::{join_seq, join_strings};
use crate::date::Date;
use crate::expense::{
    lemma_next_payment_is_spec, matches_categories, matches_categories_spec, next_payment_spec,
    string_of, Expense,
};
use crate::text::{dec, push_repeat, push_str, u64_to_string, usize_to_string};
use crate::ui::{format_relative_date, pad_end, pad_start, relative_date_spec, saturating_sub, spaces};

verus! {

/// Days from `today` to the next payment, or `i64::MAX` for an expense
/// without a start date and interval: what the list sorts by.
pub open spec fn due_key(e: Expense, today: Date) -> int {
    match (e.start_date, e.interval) {
        (Some(f), Some(i)) => next_payment_spec(i, f, today).ord() - today.ord(),
        _ => i64::MAX as int,
    }
}

/// The expense is listed: not ended (unless `all`) and in a filtered category.
pub open spec fn shown(e: Expense, today: Date, all: bool, filters: Seq<Seq<char>>) -> bool {
    (all || !e.is_ended_spec(today)) && matches_categories_spec(e@, filters)
}

/// The expense is left out only for having ended.
pub open spec fn hidden_ended(e: Expense, today: Date, all: bool, filters: Seq<Seq<char>>) -> bool {
    !all && e.is_ended_spec(today) && matches_categories_spec(e@, filters)
}

/// Expense `a` is listed before expense `b`: running expenses first, then
/// by days to the next payment, then in file order.
pub open spec fn listed_before(es: Seq<Expense>, today: Date, a: int, b: int) -> bool {
    let (ea, eb) = (es[a].is_ended_spec(today), es[b].is_ended_spec(today));
    let (da, db) = (due_key(es[a], today), due_key(es[b], today));
    (!ea && eb) || (ea == eb && (da < db || (da == db && a < b)))
}

/// The day number of any date, valid or not, is far inside the `i64` range.
proof fn lemma_ord_bounded(d: Date)
    ensures
        -1_000_000_000_000_000 < d.ord() < 1_000_000_000_000_000,
{
    reveal(crate::date::ord_ymd);
    let y = d.year as int;
    assert(-1_000_000_000_000 <= crate::date::days_before_year(y) <= 1_000_000_000_000);
    assert(0 <= crate::date::days_before_month(y, d.month as int) <= 335);
}

/// The expense has a next payment: a start date and an interval.
pub open spec fn scheduled(e: Expense) -> bool {
    e.start_date is Some && e.interval is Some
}

/// Of two expenses alike in being ended or not, one with a next payment is
/// listed before one without (a start date or an interval), and never after.
pub proof fn scheduled_listed_before_unscheduled(es: Seq<Expense>, today: Date, a: int, b: int)
    requires
        0 <= a < es.len(),
        0 <= b < es.len(),
        es[a].is_ended_spec(today) == es[b].is_ended_spec(today),
        scheduled(es[a]),
        !scheduled(es[b]),
    ensures
        listed_before(es, today, a, b),
        !listed_before(es, today, b, a),
{
    let f = es[a].start_date->Some_0;
    let i = es[a].interval->Some_0;
    lemma_ord_bounded(next_payment_spec(i, f, today));
    lemma_ord_bounded(today);
    assert(due_key(es[a], today) < due_key(es[b], today));
}

/// In the rows of a listing (ordered as `plan_list` ensures), an expense
/// without a next payment comes after every expense with one that is alike
/// in being ended or not.
pub proof fn unscheduled_rows_come_last(es: Seq<Expense>, today: Date, rows: Seq<usize>)
    requires
        forall|k: int| 0 <= k < rows.len() ==> (#[trigger] rows[k]) < es.len(),
        forall|i: int, j: int|
            0 <= i < j < rows.len() ==> listed_before(es, today, #[trigger] rows[i] as int, #[trigger] rows[j] as int),
    ensures
        forall|i: int, j: int|
            0 <= i < j < rows.len() && es[rows[i] as int].is_ended_spec(today) == es[rows[j] as int].is_ended_spec(today)
                && #[trigger] scheduled(es[rows[j] as int]) ==> #[trigger] scheduled(es[rows[i] as int]),
{
    assert forall|i: int, j: int|
        0 <= i < j < rows.len() && es[rows[i] as int].is_ended_spec(today) == es[rows[j] as int].is_ended_spec(today)
            && #[trigger] scheduled(es[rows[j] as int]) implies #[trigger] scheduled(es[rows[i] as int]) by {
        if !scheduled(es[rows[i] as int]) {
            assert(listed_before(es, today, rows[i] as int, rows[j] as int));
            scheduled_listed_before_unscheduled(es, today, rows[j] as int, rows[i] as int);
        }
    }
}

/// An expense that has not ended is listed before one that has, and never
/// after it.
pub proof fn running_listed_before_ended(es: Seq<Expense>, today: Date, a: int, b: int)
    requires
        0 <= a < es.len(),
        0 <= b < es.len(),
        !es[a].is_ended_spec(today),
        es[b].is_ended_spec(today),
    ensures
        listed_before(es, today, a, b),
        !listed_before(es, today, b, a),
{
}

/// Of two scheduled expenses alike in being ended or not, the one whose next
/// payment comes first is listed first, and never after.
pub proof fn earlier_payment_listed_first(es: Seq<Expense>, today: Date, a: int, b: int)
    requires
        0 <= a < es.len(),
        0 <= b < es.len(),
        es[a].is_ended_spec(today) == es[b].is_ended_spec(today),
        scheduled(es[a]),
        scheduled(es[b]),
        next_payment_spec(es[a].interval->Some_0, es[a].start_date->Some_0, today).ord()
            < next_payment_spec(es[b].interval->Some_0, es[b].start_date->Some_0, today).ord(),
    ensures
        listed_before(es, today, a, b),
        !listed_before(es, today, b, a),
{
}

/// A listed expense passes the category filter (any, with no filter) and
/// has not ended, unless `all` is set.
pub proof fn listed_expenses_pass_filters(e: Expense, today: Date, all: bool, filters: Seq<Seq<char>>)
    requires
        shown(e, today, all, filters),
    ensures
        matches_categories_spec(e@, filters),
        all || !e.is_ended_spec(today),
{
}

/// How many of the first `n` expenses are left out only for having ended.
pub open spec fn hidden_count(es: Seq<Expense>, today: Date, all: bool, filters: Seq<Seq<char>>, n: int) -> nat
    decreases n,
{
    if n <= 0 {
        0
    } else {
        hidden_count(es, today, all, filters, n - 1) + if hidden_ended(es[n - 1], today, all, filters) {
            1nat
        } else {
            0nat
        }
    }
}

/// What `list` shows: the indices of the expenses listed, in order; how many
/// ended expenses it leaves out; whether an `ends` column is needed; and
/// the position of the first ended row, which a separator line precedes.
pub struct ListPlan {
    pub rows: Vec<usize>,
    pub hidden_ended: usize,
    pub show_ends: bool,
    pub ended_start: Option<usize>,
}

pub open spec fn all_schedulable(es: Seq<Expense>, today: Date) -> bool {
    forall|i: int| 0 <= i < es.len() ==> (#[trigger] es[i]).can_schedule(today)
}

proof fn lemma_hidden_count_bound(es: Seq<Expense>, today: Date, all: bool, filters: Seq<Seq<char>>, n: int)
    requires
        0 <= n,
    ensures
        hidden_count(es, today, all, filters, n) <= n,
    decreases n,
{
    if n > 0 {
        lemma_hidden_count_bound(es, today, all, filters, n - 1);
    }
}

/// The listing of `expenses` on `today`: those not ended (all of them with
/// `all`) whose category matches `categories` (any, when empty), running
/// ones first, each group by days to the next payment, then in file order.
pub fn plan_list(expenses: &Vec<Expense>, today: &Date, all: bool, categories: &Vec<String>) -> (r: ListPlan)
    requires
        all_schedulable(expenses@, *today),
    ensures
        ({
            let es = expenses@;
            let fv = strings_view(categories@);
            let rows = r.rows@;
            &&& forall|i: int, j: int|
                0 <= i < j < rows.len() ==> listed_before(es, *today, #[trigger] rows[i] as int, #[trigger] rows[j] as int)
            &&& forall|i: int, j: int|
                0 <= i < j < rows.len() && es[rows[i] as int].is_ended_spec(*today) == es[rows[j] as int].is_ended_spec(*today)
                    && #[trigger] scheduled(es[rows[j] as int]) ==> #[trigger] scheduled(es[rows[i] as int])
            &&& forall|x: usize| rows.contains(x) <==> (x < es.len() && shown(es[x as int], *today, all, fv))
            &&& r.hidden_ended == hidden_count(es, *today, all, fv, es.len() as int)
            &&& r.show_ends == exists|k: int| 0 <= k < rows.len() && (#[trigger] es[rows[k] as int]).end_date is Some
            &&& match r.ended_start {
                Some(k) => k < rows.len() && es[rows[k as int] as int].is_ended_spec(*today)
                    && forall|t: int| 0 <= t < k ==> !(#[trigger] es[rows[t] as int]).is_ended_spec(*today),
                None => forall|t: int| 0 <= t < rows.len() ==> !(#[trigger] es[rows[t] as int]).is_ended_spec(*today),
            }
        }),
{
    let ghost es = expenses@;
    let ghost fv = strings_view(categories@);
    let mut ended: Vec<bool> = Vec::new();
    let mut due: Vec<i64> = Vec::new();
    let mut i: usize = 0;
    while i < expenses.len()
        invariant
            es == expenses@,
            all_schedulable(es, *today),
            i <= es.len(),
            ended@.len() == i,
            due@.len() == i,
            forall|t: int| 0 <= t < i ==> #[trigger] ended@[t] == es[t].is_ended_spec(*today),
            forall|t: int| 0 <= t < i ==> #[trigger] due@[t] == due_key(es[t], *today),
        decreases es.len() - i,
    {
        let e = &expenses[i];
        assert(e.can_schedule(*today));
        ended.push(e.is_ended(today));
        let d = match e.days_until_next(today) {
            Some(n) => {
                proof {
                    let f = e.start_date->Some_0;
                    let iv = e.interval->Some_0;
                    let w = choose|w: Date| iv.is_next_payment(f, *today, w) && w.valid() && n == w.ord() - today.ord();
                    lemma_next_payment_is_spec(iv, f, *today, w);
                }
                n
            },
            None => i64::MAX,
        };
        due.push(d);
        i = i + 1;
    }
    let mut rows: Vec<usize> = Vec::new();
    let mut hidden: usize = 0;
    let mut j: usize = 0;
    while j < expenses.len()
        invariant
            es == expenses@,
            fv == strings_view(categories@),
            j <= es.len(),
            ended@.len() == es.len(),
            due@.len() == es.len(),
            forall|t: int| 0 <= t < es.len() ==> #[trigger] ended@[t] == es[t].is_ended_spec(*today),
            forall|t: int| 0 <= t < es.len() ==> #[trigger] due@[t] == due_key(es[t], *today),
            forall|a: int, b: int|
                0 <= a < b < rows@.len() ==> listed_before(es, *today, #[trigger] rows@[a] as int, #[trigger] rows@[b] as int),
            forall|x: usize| rows@.contains(x) <==> (x < j && shown(es[x as int], *today, all, fv)),
            forall|k: int| 0 <= k < rows@.len() ==> #[trigger] rows@[k] < j,
            hidden == hidden_count(es, *today, all, fv, j as int),
        decreases es.len() - j,
    {
        let m = matches_categories(&expenses[j], categories);
        assert(categories@.map_values(|s: String| s@) =~= fv);
        if m && (all || !ended[j]) {
            let mut p: usize = 0;
            while p < rows.len() && !goes_before(&ended, &due, j, rows[p])
                invariant
                    es == expenses@,
                    j < es.len(),
                    ended@.len() == es.len(),
                    due@.len() == es.len(),
                    forall|t: int| 0 <= t < es.len() ==> #[trigger] ended@[t] == es[t].is_ended_spec(*today),
                    forall|t: int| 0 <= t < es.len() ==> #[trigger] due@[t] == due_key(es[t], *today),
                    forall|k: int| 0 <= k < rows@.len() ==> #[trigger] rows@[k] < j,
                    p <= rows@.len(),
                    forall|q: int| 0 <= q < p ==> !listed_before(es, *today, j as int, #[trigger] rows@[q] as int),
                decreases rows@.len() - p,
            {
                p = p + 1;
            }
            let ghost old_rows = rows@;
            proof {
                if p < old_rows.len() {
                    assert(old_rows.contains(old_rows[p as int]));
                }
            }
            rows.insert(p, j);
            proof {
                old_rows.insert_ensures(p as int, j);
                assert forall|a: int, b: int|
                    0 <= a < b < rows@.len() implies listed_before(es, *today, #[trigger] rows@[a] as int, #[trigger] rows@[b] as int) by {
                    if a < p {
                        assert(rows@[a] == old_rows[a]);
                        assert(old_rows.contains(old_rows[a]));
                        if b == p {
                            assert(!listed_before(es, *today, j as int, old_rows[a] as int));
                        } else if b < p {
                            assert(rows@[b] == old_rows[b]);
                        } else {
                            assert(rows@[b] == old_rows[b - 1]);
                        }
                    } else if a == p {
                        assert(rows@[b] == old_rows[b - 1]);
                        assert(old_rows.contains(old_rows[b - 1]));
                        if b - 1 > p {
                            assert(listed_before(es, *today, old_rows[p as int] as int, old_rows[b - 1] as int));
                        }
                    } else {
                        assert(rows@[a] == old_rows[a - 1]);
                        assert(rows@[b] == old_rows[b - 1]);
                    }
                }
                assert forall|k: int| 0 <= k < rows@.len() implies #[trigger] rows@[k] < j + 1 by {
                    if k < p {
                        assert(rows@[k] == old_rows[k]);
                    } else if k > p {
                        assert(rows@[k] == old_rows[k - 1]);
                    }
                }
                assert forall|x: usize| rows@.contains(x) <==> (x < j + 1 && shown(es[x as int], *today, all, fv)) by {
                    if rows@.contains(x) {
                        let k = choose|k: int| 0 <= k < rows@.len() && rows@[k] == x;
                        if k < p {
                            assert(old_rows[k] == x);
                            assert(old_rows.contains(x));
                        } else if k > p {
                            assert(old_rows[k - 1] == x);
                            assert(old_rows.contains(x));
                        }
                    }
                    if x < j + 1 && shown(es[x as int], *today, all, fv) {
                        if x == j {
                            assert(rows@[p as int] == x);
                        } else {
                            assert(old_rows.contains(x));
                            let k = choose|k: int| 0 <= k < old_rows.len() && old_rows[k] == x;
                            if k < p {
                                assert(rows@[k] == x);
                            } else {
                                assert(rows@[k + 1] == x);
                            }
                        }
                    }
                }
            }
        } else {
            proof {
                assert forall|x: usize| rows@.contains(x) <==> (x < j + 1 && shown(es[x as int], *today, all, fv)) by {
                    if x == j {
                        assert(!shown(es[x as int], *today, all, fv));
                    }
                }
            }
            if m && !all && ended[j] {
                proof {
                    lemma_hidden_count_bound(es, *today, all, fv, j as int);
                }
                hidden = hidden + 1;
            }
        }
        j = j + 1;
    }
    let mut show_ends = false;
    let mut k: usize = 0;
    while k < rows.len()
        invariant
            es == expenses@,
            forall|t: int| 0 <= t < rows@.len() ==> #[trigger] rows@[t] < es.len(),
            k <= rows@.len(),
            show_ends == exists|t: int| 0 <= t < k && (#[trigger] es[rows@[t] as int]).end_date is Some,
        decreases rows@.len() - k,
    {
        if expenses[rows[k]].end_date.is_some() {
            show_ends = true;
        }
        k = k + 1;
    }
    let mut q: usize = 0;
    while q < rows.len() && !ended[rows[q]]
        invariant
            es == expenses@,
            ended@.len() == es.len(),
            forall|t: int| 0 <= t < es.len() ==> #[trigger] ended@[t] == es[t].is_ended_spec(*today),
            forall|k: int| 0 <= k < rows@.len() ==> #[trigger] rows@[k] < es.len(),
            q <= rows@.len(),
            forall|t: int| 0 <= t < q ==> !(#[trigger] es[rows@[t] as int]).is_ended_spec(*today),
        decreases rows@.len() - q,
    {
        q = q + 1;
    }
    let ended_start = if q < rows.len() {
        Some(q)
    } else {
        None
    };
    proof {
        unscheduled_rows_come_last(es, *today, rows@);
    }
    ListPlan { rows, hidden_ended: hidden, show_ends, ended_start }
}

/// Whether expense `a` goes before expense `b`, from their ended flags and days to payment.
fn goes_before(ended: &Vec<bool>, due: &Vec<i64>, a: usize, b: usize) -> (r: bool)
    requires
        a < ended@.len(),
        b < ended@.len(),
        ended@.len() == due@.len(),
    ensures
        r == ((!ended@[a as int] && ended@[b as int]) || (ended@[a as int] == ended@[b as int] && due@[a as int] < due@[b as int])),
{
    (!ended[a] && ended[b]) || (ended[a] == ended[b] && due[a] < due[b])
}

/// `s` or the empty text.
pub open spec fn text_or_empty(o: Option<Seq<char>>) -> Seq<char> {
    match o {
        Some(s) => s,
        None => Seq::empty(),
    }
}

/// The due cell: the next payment relative to `today`, empty when ended or unscheduled.
pub open spec fn due_cell_spec(e: Expense, today: Date) -> Seq<char> {
    if e.is_ended_spec(today) {
        Seq::empty()
    } else {
        match (e.start_date, e.interval) {
            (Some(f), Some(i)) => relative_date_spec(next_payment_spec(i, f, today), today),
            _ => Seq::empty(),
        }
    }
}

/// The cells of an expense's row: `@id`, name, amount (`-` without one),
/// due, category, and the end date when the table shows an `ends` column.
pub open spec fn row_cells_spec(e: Expense, today: Date, show_ends: bool, amount_text: Seq<char>) -> Seq<Seq<char>> {
    let base = seq![
        "@"@ + dec(e.id as nat),
        e@.name,
        if e.amount is Some { amount_text } else { "-"@ },
        due_cell_spec(e, today),
        text_or_empty(e@.category)
    ];
    if show_ends {
        base.push(
            match e.end_date {
                Some(d) => relative_date_spec(d, today),
                None => Seq::empty(),
            },
        )
    } else {
        base
    }
}

/// The plain cells of an expense's row; `amount_text` is its formatted amount.
pub fn build_row(expense: &Expense, today: &Date, show_ends: bool, amount_text: &str) -> (r: Vec<String>)
    requires
        expense.can_schedule(*today),
    ensures
        strings_view(r@) == row_cells_spec(*expense, *today, show_ends, amount_text@),
{
    let mut id = string_of("@");
    let n = u64_to_string(expense.id);
    push_str(&mut id, n.as_str());
    let amount = if expense.amount.is_some() {
        string_of(amount_text)
    } else {
        string_of("-")
    };
    let due = if expense.is_ended(today) {
        String::new()
    } else {
        match expense.next_payment(today) {
            Some(d) => {
                proof {
                    lemma_next_payment_is_spec(expense.interval->Some_0, expense.start_date->Some_0, *today, d);
                }
                format_relative_date(&d, today)
            },
            None => String::new(),
        }
    };
    let category = match &expense.category {
        Some(c) => string_of(c.as_str()),
        None => String::new(),
    };
    let mut row: Vec<String> = Vec::new();
    row.push(id);
    row.push(string_of(expense.name.as_str()));
    row.push(amount);
    row.push(due);
    row.push(category);
    if show_ends {
        let ends = match &expense.end_date {
            Some(d) => format_relative_date(d, today),
            None => String::new(),
        };
        row.push(ends);
    }
    assert(strings_view(row@) =~= row_cells_spec(*expense, *today, show_ends, amount_text@));
    row
}

/// The column titles, with `ends` when the table shows end dates.
pub open spec fn headers_spec(show_ends: bool) -> Seq<Seq<char>> {
    let base = seq!["@"@, "name"@, "amount"@, "due"@, "category"@];
    if show_ends {
        base.push("ends"@)
    } else {
        base
    }
}

pub fn headers(show_ends: bool) -> (r: Vec<String>)
    ensures
        strings_view(r@) == headers_spec(show_ends),
{
    let mut h: Vec<String> = Vec::new();
    h.push(string_of("@"));
    h.push(string_of("name"));
    h.push(string_of("amount"));
    h.push(string_of("due"));
    h.push(string_of("category"));
    if show_ends {
        h.push(string_of("ends"));
    }
    assert(strings_view(h@) =~= headers_spec(show_ends));
    h
}

/// The widest of the title and the first `n` rows' cells in column `i`.
pub open spec fn column_width(headers: Seq<Seq<char>>, rows: Seq<Seq<Seq<char>>>, i: int, n: int) -> int
    decreases n,
{
    if n <= 0 {
        headers[i].len() as int
    } else {
        let w = column_width(headers, rows, i, n - 1);
        let c = rows[n - 1][i].len() as int;
        if c > w {
            c
        } else {
            w
        }
    }
}

/// Every row has a cell under every title.
pub open spec fn rows_cover(headers: Seq<Seq<char>>, rows: Seq<Seq<Seq<char>>>) -> bool {
    forall|r: int| 0 <= r < rows.len() ==> (#[trigger] rows[r]).len() >= headers.len()
}

/// The width of each column: its widest cell, title included, in characters.
pub fn column_widths(headers: &Vec<String>, rows: &Vec<Vec<String>>) -> (r: Vec<usize>)
    requires
        rows_cover(strings_view(headers@), crate::csv_format::records_view(rows@)),
    ensures
        r@.len() == headers@.len(),
        forall|i: int| 0 <= i < r@.len() ==> #[trigger] r@[i] == column_width(
            strings_view(headers@),
            crate::csv_format::records_view(rows@),
            i,
            rows@.len() as int,
        ),
{
    let ghost hv = strings_view(headers@);
    let ghost rv = crate::csv_format::records_view(rows@);
    let mut widths: Vec<usize> = Vec::new();
    let mut i: usize = 0;
    while i < headers.len()
        invariant
            hv == strings_view(headers@),
            rv == crate::csv_format::records_view(rows@),
            rows_cover(hv, rv),
            i <= headers@.len(),
            widths@.len() == i,
            forall|t: int| 0 <= t < i ==> #[trigger] widths@[t] == column_width(hv, rv, t, rows@.len() as int),
        decreases headers@.len() - i,
    {
        let mut w: usize = headers[i].unicode_len();
        let mut n: usize = 0;
        while n < rows.len()
            invariant
                hv == strings_view(headers@),
                rv == crate::csv_format::records_view(rows@),
                rows_cover(hv, rv),
                i < headers@.len(),
                n <= rows@.len(),
                w == column_width(hv, rv, i as int, n as int),
            decreases rows@.len() - n,
        {
            assert(rv[n as int].len() >= hv.len());
            assert(rv[n as int][i as int] == rows@[n as int]@[i as int]@);
            let c = rows[n][i].unicode_len();
            if c > w {
                w = c;
            }
            n = n + 1;
        }
        widths.push(w);
        i = i + 1;
    }
    widths
}

/// A cell padded to its column: the amount column (number 2) to the right,
/// the others to the left; `plain_w` is the cell's width without colors.
pub open spec fn aligned_spec(cell: Seq<char>, plain_w: int, width: int, column: int) -> Seq<char> {
    if column == 2 {
        spaces(saturating_sub(width, plain_w)) + cell
    } else {
        cell + spaces(saturating_sub(width, plain_w))
    }
}

pub fn align_cell(cell: &str, plain_w: usize, width: usize, column: usize) -> (r: String)
    ensures
        r@ == aligned_spec(cell@, plain_w as int, width as int, column as int),
{
    if column == 2 {
        pad_start(cell, plain_w, width)
    } else {
        pad_end(cell, plain_w, width)
    }
}

/// `n` box-drawing dashes.
pub open spec fn dashes(n: int) -> Seq<char> {
    Seq::new(if n > 0 { n as nat } else { 0 }, |_i: int| '─')
}

/// The rule under the titles: dashes across each column, two spaces apart.
pub open spec fn separator_spec(widths: Seq<usize>) -> Seq<char> {
    join_seq(widths.map_values(|w: usize| dashes(w as int)), "  "@)
}

pub fn separator(widths: &Vec<usize>) -> (r: String)
    ensures
        r@ == separator_spec(widths@),
{
    let mut cells: Vec<String> = Vec::new();
    let mut i: usize = 0;
    while i < widths.len()
        invariant
            i <= widths@.len(),
            strings_view(cells@) == widths@.take(i as int).map_values(|w: usize| dashes(w as int)),
        decreases widths@.len() - i,
    {
        let mut s = String::new();
        push_repeat(&mut s, '─', widths[i]);
        let ghost c0 = cells@;
        cells.push(s);
        proof {
            assert(s@ =~= dashes(widths@[i as int] as int));
            assert(strings_view(cells@) =~= strings_view(c0).push(s@));
            assert(widths@.take(i + 1) =~= widths@.take(i as int).push(widths@[i as int]));
            assert(widths@.take(i + 1).map_values(|w: usize| dashes(w as int)) =~= widths@.take(
                i as int,
            ).map_values(|w: usize| dashes(w as int)).push(dashes(widths@[i as int] as int)));
        }
        i = i + 1;
    }
    assert(widths@.take(i as int) =~= widths@);
    assert(cells@.map_values(|s: String| s@) =~= strings_view(cells@));
    join_strings(&cells, "  ")
}

/// One line of the table: each cell aligned to its column, two spaces apart.
/// `shown` holds the cells as printed (colored), `plain` their plain text.
pub open spec fn line_spec(shown: Seq<Seq<char>>, plain: Seq<Seq<char>>, widths: Seq<usize>) -> Seq<char> {
    join_seq(
        Seq::new(
            widths.len(),
            |i: int| aligned_spec(shown[i], plain[i].len() as int, widths[i] as int, i),
        ),
        "  "@,
    )
}

pub fn table_line(shown: &Vec<String>, plain: &Vec<String>, widths: &Vec<usize>) -> (r: String)
    requires
        shown@.len() >= widths@.len(),
        plain@.len() >= widths@.len(),
    ensures
        r@ == line_spec(strings_view(shown@), strings_view(plain@), widths@),
{
    let ghost sv = strings_view(shown@);
    let ghost pv = strings_view(plain@);
    let ghost f = |i: int| aligned_spec(sv[i], pv[i].len() as int, widths@[i] as int, i);
    let mut cells: Vec<String> = Vec::new();
    let mut i: usize = 0;
    while i < widths.len()
        invariant
            sv == strings_view(shown@),
            pv == strings_view(plain@),
            f == (|i: int| aligned_spec(sv[i], pv[i].len() as int, widths@[i] as int, i)),
            shown@.len() >= widths@.len(),
            plain@.len() >= widths@.len(),
            i <= widths@.len(),
            strings_view(cells@) == Seq::new(i as nat, f),
        decreases widths@.len() - i,
    {
        let w = plain[i].unicode_len();
        let c = align_cell(shown[i].as_str(), w, widths[i], i);
        let ghost c0 = cells@;
        cells.push(c);
        proof {
            assert(sv[i as int] == shown@[i as int]@);
            assert(pv[i as int] == plain@[i as int]@);
            assert(c@ == f(i as int));
            assert(strings_view(cells@) =~= strings_view(c0).push(c@));
            assert(Seq::new((i + 1) as nat, f) =~= Seq::new(i as nat, f).push(f(i as int)));
        }
        i = i + 1;
    }
    assert(cells@.map_values(|s: String| s@) =~= strings_view(cells@));
    join_strings(&cells, "  ")
}

/// "1 expense", or the count and "expenses".
pub open spec fn count_label_spec(n: nat) -> Seq<char> {
    if n == 1 {
        "1 expense"@
    } else {
        dec(n) + " expenses"@
    }
}

pub fn count_label(n: usize) -> (r: String)
    ensures
        r@ == count_label_spec(n as nat),
{
    if n == 1 {
        string_of("1 expense")
    } else {
        let mut s = usize_to_string(n);
        push_str(&mut s, " expenses");
        s
    }
}

/// What `list` prints when nothing is listed.
pub open spec fn nothing_listed_spec(total: nat, hidden: nat, filtered: bool) -> Seq<char> {
    if total == 0 {
        "No expenses yet. Run 'recu add' to track your first subscription.\n"@
    } else if !filtered {
        "All "@ + dec(hidden) + " expenses are ended. Run 'recu ls --all' to view them.\n"@
    } else {
        "No expenses match category filter.\n"@
    }
}

pub fn nothing_listed(total: usize, hidden: usize, filtered: bool) -> (r: String)
    ensures
        r@ == nothing_listed_spec(total as nat, hidden as nat, filtered),
{
    if total == 0 {
        string_of("No expenses yet. Run 'recu add' to track your first subscription.\n")
    } else if !filtered {
        let mut s = string_of("All ");
        let h = usize_to_string(hidden);
        push_str(&mut s, h.as_str());
        push_str(&mut s, " expenses are ended. Run 'recu ls --all' to view them.\n");
        s
    } else {
        string_of("No expenses match category filter.\n")
    }
}

/// The note under the table about ended expenses left out.
pub open spec fn hidden_note_spec(hidden: nat) -> Seq<char> {
    "+ "@ + dec(hidden) + " ended (recu ls --all)"@
}

pub fn hidden_note(hidden: usize) -> (r: String)
    ensures
        r@ == hidden_note_spec(hidden as nat),
{
    let mut s = string_of("+ ");
    let h = usize_to_string(hidden);
    push_str(&mut s, h.as_str());
    push_str(&mut s, " ended (recu ls --all)");
    s
}

} // verus!
