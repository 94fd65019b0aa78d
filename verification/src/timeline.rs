//! The `timeline` and `upcoming` views: every payment of every expense in a
//! window of days, in date order, grouped by month, laid out as a table.
//! Amounts are formatted by the caller (they are floating point) and handed
//! in as text; the caller also makes month headings and the total bold.
use vstd::prelude::*;

use crate::calendar::charges_on;
use crate::date::{
    add_days, chrono_format, date_le, date_lt, first_of_month, format_date, lemma_ord_lex, lemma_ord_range,
    max_ord, min_ord, Date,
};
use crate::expense::{
    lemma_can_advance, lemma_next_payment_is_spec, lemma_next_payment_until, next_payment_spec, string_of, Expense, Interval,
};
use crate::listing::dashes;
use crate::text::{dec, push_repeat, push_str, u64_to_string};
use crate::ui::{char_width, pad_end, pad_start, spaces};
use vstd::utf8::encode_utf8;

verus! {

/// `d` is a payment day of an expense first paid on `first`: the next
/// payment on or after `d` is `d` itself.
pub open spec fn pays_on(i: Interval, first: Date, d: Date) -> bool {
    next_payment_spec(i, first, d) == d
}

/// The payment days from `from` to `end` of an expense first paid on `first`,
/// in increasing order.
pub fn payment_dates(i: &Interval, first: &Date, from: &Date, end: &Date) -> (r: Vec<Date>)
    requires
        first.valid(),
        from.valid(),
        end.valid(),
        from.ord() <= end.ord(),
        end.ord() + 7 <= max_ord(),
    ensures
        forall|k: int|
            0 <= k < r@.len() ==> (#[trigger] r@[k]).valid() && from.ord() <= r@[k].ord() <= end.ord()
                && pays_on(*i, *first, r@[k]),
        forall|a: int, b: int| 0 <= a < b < r@.len() ==> (#[trigger] r@[a]).ord() < (#[trigger] r@[b]).ord(),
        forall|d: Date|
            d.valid() && from.ord() <= d.ord() <= end.ord() && #[trigger] pays_on(*i, *first, d) ==> r@.contains(d),
{
    proof {
        lemma_ord_range(*from);
    }
    let mut out: Vec<Date> = Vec::new();
    proof {
        lemma_can_advance(*i, *first, *from);
    }
    let mut d = i.next_payment(first, from);
    let ghost mut cur = *from;
    while date_le(&d, end)
        invariant
            first.valid(),
            from.valid(),
            end.valid(),
            end.ord() + 7 <= max_ord(),
            cur.valid(),
            from.ord() <= cur.ord() <= end.ord() + 1,
            i.is_next_payment(*first, cur, d),
            d.valid(),
            cur.ord() <= d.ord(),
            forall|k: int|
                0 <= k < out@.len() ==> (#[trigger] out@[k]).valid() && from.ord() <= out@[k].ord() < cur.ord()
                    && pays_on(*i, *first, out@[k]),
            forall|a: int, b: int|
                0 <= a < b < out@.len() ==> (#[trigger] out@[a]).ord() < (#[trigger] out@[b]).ord(),
            forall|y: Date|
                y.valid() && from.ord() <= y.ord() < cur.ord() && #[trigger] pays_on(*i, *first, y) ==> out@.contains(y),
        decreases end.ord() + 1 - cur.ord(),
    {
        proof {
            lemma_next_payment_until(*i, *first, cur, d, d);
            lemma_next_payment_is_spec(*i, *first, d, d);
        }
        let ghost before = out@;
        let ghost old_cur = cur;
        out.push(d);
        proof {
            lemma_ord_range(d);
        }
        let nx = add_days(&d, 1).unwrap();
        proof {
            cur = nx;
            assert forall|y: Date|
                y.valid() && from.ord() <= y.ord() < cur.ord() && #[trigger] pays_on(*i, *first, y) implies out@.contains(y) by {
                if y.ord() < old_cur.ord() {
                    assert(before.contains(y));
                    let k = choose|k: int| 0 <= k < before.len() && before[k] == y;
                    assert(out@[k] == y);
                } else if y.ord() < d.ord() {
                    lemma_next_payment_until(*i, *first, old_cur, d, y);
                    lemma_next_payment_is_spec(*i, *first, y, d);
                } else {
                    lemma_ord_lex(y, d);
                    assert(out@[before.len() as int] == y);
                }
            }
        }
        proof {
            lemma_can_advance(*i, *first, nx);
        }
        d = i.next_payment(first, &nx);
    }
    proof {
        assert forall|y: Date|
            y.valid() && from.ord() <= y.ord() <= end.ord() && #[trigger] pays_on(*i, *first, y) implies out@.contains(y) by {
            if y.ord() >= cur.ord() {
                lemma_next_payment_until(*i, *first, cur, d, y);
                lemma_next_payment_is_spec(*i, *first, y, d);
            }
        }
    }
    out
}

/// The expense takes part in the timeline: it has a start date, an interval
/// and an amount.
pub open spec fn on_timeline(e: Expense) -> bool {
    e.start_date is Some && e.interval is Some && e.amount is Some
}

/// Row `a` is listed before row `b`: an earlier day, or the same day and an
/// expense earlier in the file (the sort by day keeps file order).
pub open spec fn row_before(a: (Date, usize), b: (Date, usize)) -> bool {
    a.0.ord() < b.0.ord() || (a.0.ord() == b.0.ord() && a.1 < b.1)
}

/// Expense `row.1` takes part in the timeline and pays on day `row.0`.
pub open spec fn payment_row(es: Seq<Expense>, row: (Date, usize)) -> bool {
    &&& row.1 < es.len()
    &&& on_timeline(es[row.1 as int])
    &&& row.0.valid()
    &&& charges_on(es[row.1 as int], row.0)
}

/// A payment on a day from `from` to `end`.
pub open spec fn in_window(es: Seq<Expense>, from: Date, end: Date, row: (Date, usize)) -> bool {
    payment_row(es, row) && from.ord() <= row.0.ord() <= end.ord()
}

/// Every payment from `from` to `end` of the expenses that have a start
/// date, an interval and an amount, as (day, index into `expenses`), by
/// day and, on one day, in file order.
pub fn timeline_rows(expenses: &Vec<Expense>, from: &Date, end: &Date) -> (r: Vec<(Date, usize)>)
    requires
        from.valid(),
        end.valid(),
        from.ord() <= end.ord(),
        end.ord() + 7 <= max_ord(),
        forall|i: int| 0 <= i < expenses@.len() ==> (#[trigger] expenses@[i])@.wf(),
    ensures
        forall|a: int, b: int| 0 <= a < b < r@.len() ==> row_before(#[trigger] r@[a], #[trigger] r@[b]),
        forall|row: (Date, usize)| r@.contains(row) <==> in_window(expenses@, *from, *end, row),
{
    let ghost es = expenses@;
    let mut rows: Vec<(Date, usize)> = Vec::new();
    let mut x: usize = 0;
    while x < expenses.len()
        invariant
            es == expenses@,
            from.valid(),
            end.valid(),
            from.ord() <= end.ord(),
            end.ord() + 7 <= max_ord(),
            forall|i: int| 0 <= i < es.len() ==> (#[trigger] es[i])@.wf(),
            x <= es.len(),
            forall|a: int, b: int| 0 <= a < b < rows@.len() ==> row_before(#[trigger] rows@[a], #[trigger] rows@[b]),
            forall|row: (Date, usize)| rows@.contains(row) <==> (row.1 < x && in_window(es, *from, *end, row)),
        decreases es.len() - x,
    {
        let e = &expenses[x];
        if e.start_date.is_some() && e.interval.is_some() && e.amount.is_some() {
            let f = e.start_date.unwrap();
            let iv = e.interval.unwrap();
            assert(e@.wf());
            let ds = payment_dates(&iv, &f, from, end);
            let mut k: usize = 0;
            while k < ds.len()
                invariant
                    es == expenses@,
                    x < es.len(),
                    es[x as int].start_date == Some(f),
                    es[x as int].interval == Some(iv),
                    on_timeline(es[x as int]),
                    k <= ds@.len(),
                    forall|t: int|
                        0 <= t < ds@.len() ==> (#[trigger] ds@[t]).valid() && from.ord() <= ds@[t].ord() <= end.ord()
                            && pays_on(iv, f, ds@[t]),
                    forall|a: int, b: int| 0 <= a < b < ds@.len() ==> (#[trigger] ds@[a]).ord() < (#[trigger] ds@[b]).ord(),
                    forall|a: int, b: int| 0 <= a < b < rows@.len() ==> row_before(#[trigger] rows@[a], #[trigger] rows@[b]),
                    forall|row: (Date, usize)| rows@.contains(row) <==> (
                        (row.1 < x && in_window(es, *from, *end, row))
                        || (row.1 == x && exists|t: int| 0 <= t < k && #[trigger] ds@[t] == row.0)),
                decreases ds@.len() - k,
            {
                let d = ds[k];
                proof {
                    assert forall|q: int| 0 <= q < rows@.len() implies (#[trigger] rows@[q]).0.valid() by {
                        assert(rows@.contains(rows@[q]));
                        if rows@[q].1 == x {
                            let t = choose|t: int| 0 <= t < k && #[trigger] ds@[t] == rows@[q].0;
                        }
                    }
                }
                let mut p: usize = 0;
                while p < rows.len() && !date_lt(&d, &rows[p].0)
                    invariant
                        k < ds@.len(),
                        d == ds@[k as int],
                        d.valid(),
                        p <= rows@.len(),
                        forall|q: int| 0 <= q < rows@.len() ==> (#[trigger] rows@[q]).0.valid(),
                        forall|q: int| 0 <= q < p ==> (#[trigger] rows@[q]).0.ord() <= d.ord(),
                    decreases rows@.len() - p,
                {
                    p = p + 1;
                }
                let ghost old_rows = rows@;
                proof {
                    assert forall|q: int| 0 <= q < old_rows.len() implies #[trigger] row_before(old_rows[q], (d, x)) == (q < p) by {
                        assert(old_rows.contains(old_rows[q]));
                        if q < p {
                            if old_rows[q].1 == x {
                                let t = choose|t: int| 0 <= t < k && #[trigger] ds@[t] == old_rows[q].0;
                                assert(ds@[t].ord() < ds@[k as int].ord());
                            }
                        } else {
                            if p < q {
                                assert(row_before(old_rows[p as int], old_rows[q]));
                            }
                        }
                    }
                }
                rows.insert(p, (d, x));
                proof {
                    old_rows.insert_ensures(p as int, (d, x));
                    assert forall|a: int, b: int| 0 <= a < b < rows@.len() implies row_before(#[trigger] rows@[a], #[trigger] rows@[b]) by {
                        if a < p {
                            assert(rows@[a] == old_rows[a]);
                            if b == p {
                                assert(row_before(old_rows[a], (d, x)));
                            } else if b < p {
                                assert(rows@[b] == old_rows[b]);
                            } else {
                                assert(rows@[b] == old_rows[b - 1]);
                            }
                        } else if a == p {
                            assert(rows@[b] == old_rows[b - 1]);
                            assert(!row_before(old_rows[b - 1], (d, x)));
                        } else {
                            assert(rows@[a] == old_rows[a - 1]);
                            assert(rows@[b] == old_rows[b - 1]);
                        }
                    }
                    assert forall|row: (Date, usize)| rows@.contains(row) <==> (
                        (row.1 < x && in_window(es, *from, *end, row))
                        || (row.1 == x && exists|t: int| 0 <= t < k + 1 && #[trigger] ds@[t] == row.0)) by {
                        if rows@.contains(row) {
                            let q = choose|q: int| 0 <= q < rows@.len() && rows@[q] == row;
                            if q < p {
                                assert(old_rows[q] == row);
                                assert(old_rows.contains(row));
                            } else if q > p {
                                assert(old_rows[q - 1] == row);
                                assert(old_rows.contains(row));
                            } else {
                                assert(ds@[k as int] == row.0);
                            }
                            if row.1 == x && !(row.1 < x) && row != (d, x) {
                                let t = choose|t: int| 0 <= t < k && #[trigger] ds@[t] == row.0;
                                assert(0 <= t < k + 1 && ds@[t] == row.0);
                            }
                        }
                        if (row.1 < x && in_window(es, *from, *end, row))
                            || (row.1 == x && exists|t: int| 0 <= t < k + 1 && #[trigger] ds@[t] == row.0) {
                            if row == (d, x) {
                                assert(rows@[p as int] == row);
                            } else {
                                if row.1 == x {
                                    let t = choose|t: int| 0 <= t < k + 1 && #[trigger] ds@[t] == row.0;
                                    if t == k {
                                        assert(row == (d, x));
                                    }
                                    assert(0 <= t < k && ds@[t] == row.0);
                                }
                                assert(old_rows.contains(row));
                                let q = choose|q: int| 0 <= q < old_rows.len() && old_rows[q] == row;
                                if q < p {
                                    assert(rows@[q] == row);
                                } else {
                                    assert(rows@[q + 1] == row);
                                }
                            }
                        }
                    }
                }
                k = k + 1;
            }
            proof {
                assert forall|row: (Date, usize)| rows@.contains(row) <==> (row.1 < x + 1 && in_window(es, *from, *end, row)) by {
                    if row.1 == x {
                        if in_window(es, *from, *end, row) {
                            assert(pays_on(iv, f, row.0));
                            assert(ds@.contains(row.0));
                            let t = choose|t: int| 0 <= t < ds@.len() && ds@[t] == row.0;
                        }
                        if exists|t: int| 0 <= t < ds@.len() && #[trigger] ds@[t] == row.0 {
                            let t = choose|t: int| 0 <= t < ds@.len() && #[trigger] ds@[t] == row.0;
                            assert(pays_on(iv, f, ds@[t]));
                        }
                    }
                }
            }
        } else {
            proof {
                assert forall|row: (Date, usize)| rows@.contains(row) <==> (row.1 < x + 1 && in_window(es, *from, *end, row)) by {
                    if row.1 == x {
                        assert(!on_timeline(es[x as int]));
                    }
                }
            }
        }
        x = x + 1;
    }
    rows
}

/// The window of a timeline: `past_days` before `today` to `days` after it.
pub fn timeline_window(today: &Date, past_days: u32, days: u32) -> (r: (Date, Date))
    requires
        today.valid(),
        min_ord() <= today.ord() - past_days,
        today.ord() + days + 7 <= max_ord(),
    ensures
        r.0.valid(),
        r.1.valid(),
        r.0.ord() == today.ord() - past_days,
        r.1.ord() == today.ord() + days,
{
    let from = add_days(today, 0 - (past_days as i64)).unwrap();
    let end = add_days(today, days as i64).unwrap();
    (from, end)
}

/// Length of `s` in UTF-8 bytes, as `str::len` returns it.
pub open spec fn byte_len(s: Seq<char>) -> int {
    (encode_utf8(s).len() as usize) as int
}

/// The largest of `floor` and the byte lengths of `texts[x]` over the first
/// `n` rows `(_, x)`.
pub open spec fn column_bytes(rows: Seq<(Date, usize)>, texts: Seq<Seq<char>>, floor: int, n: int) -> int
    decreases n,
{
    if n <= 0 {
        floor
    } else {
        let w = column_bytes(rows, texts, floor, n - 1);
        let b = byte_len(texts[rows[n - 1].1 as int]);
        if b > w {
            b
        } else {
            w
        }
    }
}

/// The column titles: `date` in eight columns, `name` in `name_w`, and
/// `amount` right-aligned in `amount_w`.
pub open spec fn title_line(name_w: int, amount_w: int) -> Seq<char> {
    "date"@ + spaces(4) + "  "@ + "name"@ + spaces(name_w - 4) + "  "@ + spaces(amount_w - 6) + "amount"@
}

/// The rule under the titles.
pub open spec fn rule_line(name_w: int, amount_w: int) -> Seq<char> {
    dashes(8) + "  "@ + dashes(name_w) + "  "@ + dashes(amount_w)
}

/// A payment: the day of the month right-aligned in eight columns, the name
/// left-aligned in `name_w`, the amount right-aligned in `amount_w`
/// (widths counted in characters, as `format!` pads).
pub open spec fn payment_line(d: Date, name: Seq<char>, amount: Seq<char>, name_w: int, amount_w: int) -> Seq<char> {
    spaces(8 - dec(d.day as nat).len()) + dec(d.day as nat) + "  "@ + name + spaces(name_w - name.len())
        + "  "@ + spaces(amount_w - amount.len()) + amount
}

/// A month's heading: its short name and year, as chrono's `%b %Y` writes them.
pub open spec fn month_heading(d: Date) -> Seq<char> {
    chrono_format(d.year as int, d.month as int, 1, "%b %Y"@)
}

/// Row `k` is the first of its month.
pub open spec fn starts_month(rows: Seq<(Date, usize)>, k: int) -> bool {
    k == 0 || rows[k].0.year != rows[k - 1].0.year || rows[k].0.month != rows[k - 1].0.month
}

/// The lines of the first `n` rows, each month's rows after its heading;
/// a line is paired with whether it is shown bold.
pub open spec fn body_lines(
    rows: Seq<(Date, usize)>,
    names: Seq<Seq<char>>,
    amounts: Seq<Seq<char>>,
    name_w: int,
    amount_w: int,
    n: int,
) -> Seq<(Seq<char>, bool)>
    decreases n,
{
    if n <= 0 {
        Seq::empty()
    } else {
        let prev = body_lines(rows, names, amounts, name_w, amount_w, n - 1);
        let (d, x) = rows[n - 1];
        let headed = if starts_month(rows, n - 1) {
            prev.push((month_heading(d), true))
        } else {
            prev
        };
        headed.push((payment_line(d, names[x as int], amounts[x as int], name_w, amount_w), false))
    }
}

/// The whole table: titles, rule, then the months with their payments.
/// Names are at least four bytes wide and amounts six, as the titles are.
pub open spec fn timeline_lines_spec(
    rows: Seq<(Date, usize)>,
    names: Seq<Seq<char>>,
    amounts: Seq<Seq<char>>,
) -> Seq<(Seq<char>, bool)> {
    let name_w = column_bytes(rows, names, 4, rows.len() as int);
    let amount_w = column_bytes(rows, amounts, 6, rows.len() as int);
    seq![(title_line(name_w, amount_w), false), (rule_line(name_w, amount_w), false)] + body_lines(
        rows,
        names,
        amounts,
        name_w,
        amount_w,
        rows.len() as int,
    )
}

pub open spec fn texts_view(v: Seq<String>) -> Seq<Seq<char>> {
    v.map_values(|s: String| s@)
}

pub open spec fn lines_view(v: Seq<(String, bool)>) -> Seq<(Seq<char>, bool)> {
    v.map_values(|l: (String, bool)| (l.0@, l.1))
}

proof fn lemma_column_bytes_floor(rows: Seq<(Date, usize)>, texts: Seq<Seq<char>>, floor: int, n: int)
    ensures
        column_bytes(rows, texts, floor, n) >= floor,
    decreases n,
{
    if n > 0 {
        lemma_column_bytes_floor(rows, texts, floor, n - 1);
    }
}

fn column_bytes_exec(rows: &Vec<(Date, usize)>, texts: &Vec<String>, floor: usize) -> (r: usize)
    requires
        forall|k: int| 0 <= k < rows@.len() ==> (#[trigger] rows@[k]).1 < texts@.len(),
    ensures
        r == column_bytes(rows@, texts_view(texts@), floor as int, rows@.len() as int),
{
    let ghost tv = texts_view(texts@);
    let mut w = floor;
    let mut k: usize = 0;
    while k < rows.len()
        invariant
            tv == texts_view(texts@),
            forall|k: int| 0 <= k < rows@.len() ==> (#[trigger] rows@[k]).1 < texts@.len(),
            k <= rows@.len(),
            w == column_bytes(rows@, tv, floor as int, k as int),
        decreases rows@.len() - k,
    {
        let tx = texts[rows[k].1].as_str();
        let b = tx.len();
        assert(tv[rows@[k as int].1 as int] == texts@[rows@[k as int].1 as int]@);
        assert(tx@ == texts@[rows@[k as int].1 as int]@);
        assert(b == byte_len(tx@));
        if b > w {
            w = b;
        }
        k = k + 1;
    }
    w
}

fn spaces_exec(s: &mut String, n: usize)
    ensures
        final(s)@ == old(s)@ + spaces(n as int),
{
    let ghost s0 = s@;
    push_repeat(s, ' ', n);
    assert(s@ =~= s0 + spaces(n as int));
}

fn title_line_exec(name_w: usize, amount_w: usize) -> (r: String)
    requires
        name_w >= 4,
        amount_w >= 6,
    ensures
        r@ == title_line(name_w as int, amount_w as int),
{
    let mut s = string_of("date");
    spaces_exec(&mut s, 4);
    push_str(&mut s, "  ");
    push_str(&mut s, "name");
    spaces_exec(&mut s, name_w - 4);
    push_str(&mut s, "  ");
    spaces_exec(&mut s, amount_w - 6);
    push_str(&mut s, "amount");
    s
}

fn rule_line_exec(name_w: usize, amount_w: usize) -> (r: String)
    ensures
        r@ == rule_line(name_w as int, amount_w as int),
{
    let mut s = String::new();
    let ghost s0 = s@;
    push_repeat(&mut s, '─', 8);
    push_str(&mut s, "  ");
    push_repeat(&mut s, '─', name_w);
    push_str(&mut s, "  ");
    push_repeat(&mut s, '─', amount_w);
    assert(s@ =~= rule_line(name_w as int, amount_w as int));
    s
}

fn payment_line_exec(d: &Date, name: &str, amount: &str, name_w: usize, amount_w: usize) -> (r: String)
    ensures
        r@ == payment_line(*d, name@, amount@, name_w as int, amount_w as int),
{
    let day = u64_to_string(d.day as u64);
    let mut s = pad_start(day.as_str(), char_width(day.as_str()), 8);
    push_str(&mut s, "  ");
    let n = pad_end(name, char_width(name), name_w);
    push_str(&mut s, n.as_str());
    push_str(&mut s, "  ");
    let a = pad_start(amount, char_width(amount), amount_w);
    push_str(&mut s, a.as_str());
    assert(spaces(crate::ui::saturating_sub(8, day@.len() as int)) =~= spaces(8 - day@.len()));
    assert(spaces(crate::ui::saturating_sub(name_w as int, name@.len() as int)) =~= spaces(name_w - name@.len()));
    assert(spaces(crate::ui::saturating_sub(amount_w as int, amount@.len() as int)) =~= spaces(amount_w - amount@.len()));
    assert(s@ =~= payment_line(*d, name@, amount@, name_w as int, amount_w as int));
    s
}

/// The table of a timeline: titles, rule, and for each month a heading then
/// its payments, from `rows` as `timeline_rows` gives them (by day), with
/// `names[x]` and `amounts[x]` the name and amount text of expense `x`.
/// Each line comes with whether it is shown bold (the month headings).
pub fn timeline_lines(rows: &Vec<(Date, usize)>, names: &Vec<String>, amounts: &Vec<String>) -> (r: Vec<(String, bool)>)
    requires
        names@.len() == amounts@.len(),
        forall|k: int| 0 <= k < rows@.len() ==> (#[trigger] rows@[k]).1 < names@.len() && rows@[k].0.valid(),
    ensures
        lines_view(r@) == timeline_lines_spec(
            rows@,
            texts_view(names@),
            texts_view(amounts@),
        ),
{
    let ghost nv = texts_view(names@);
    let ghost av = texts_view(amounts@);
    let name_w = column_bytes_exec(rows, names, 4);
    let amount_w = column_bytes_exec(rows, amounts, 6);
    proof {
        lemma_column_bytes_floor(rows@, nv, 4, rows@.len() as int);
        lemma_column_bytes_floor(rows@, av, 6, rows@.len() as int);
    }
    let mut out: Vec<(String, bool)> = Vec::new();
    out.push((title_line_exec(name_w, amount_w), false));
    out.push((rule_line_exec(name_w, amount_w), false));
    let ghost head = seq![(title_line(name_w as int, amount_w as int), false), (rule_line(name_w as int, amount_w as int), false)];
    assert(lines_view(out@) =~= head);
    let mut k: usize = 0;
    while k < rows.len()
        invariant
            nv == texts_view(names@),
            av == texts_view(amounts@),
            names@.len() == amounts@.len(),
            forall|k: int| 0 <= k < rows@.len() ==> (#[trigger] rows@[k]).1 < names@.len() && rows@[k].0.valid(),
            k <= rows@.len(),
            lines_view(out@) == head + body_lines(
                rows@,
                nv,
                av,
                name_w as int,
                amount_w as int,
                k as int,
            ),
        decreases rows@.len() - k,
    {
        let d = rows[k].0;
        let x = rows[k].1;
                let starts = k == 0 || rows[k].0.year != rows[k - 1].0.year || rows[k].0.month != rows[k - 1].0.month;
        assert(starts == starts_month(rows@, k as int));
        let ghost prev = body_lines(rows@, nv, av, name_w as int, amount_w as int, k as int);
        let ghost headed = if starts {
            prev.push((month_heading(d), true))
        } else {
            prev
        };
        let ghost out0 = out@;
        assert(lines_view(out0) == head + prev);
        if starts {
            let first = first_of_month(&d);
            let h = format_date(&first, "%b %Y");
            assert(h@ == month_heading(d));
            out.push((h, true));
            assert(out@ == out0.push((h, true)));
            assert(lines_view(out@) =~= lines_view(out0).push((h@, true)));
        }
        assert(lines_view(out@) =~= head + headed);
        assert(nv[x as int] == names@[x as int]@);
        assert(av[x as int] == amounts@[x as int]@);
        let line = payment_line_exec(&d, names[x].as_str(), amounts[x].as_str(), name_w, amount_w);
        let ghost entry = (payment_line(d, nv[x as int], av[x as int], name_w as int, amount_w as int), false);
        assert(line@ == entry.0);
        let ghost out1 = out@;
        out.push((line, false));
        assert(lines_view(out@) =~= lines_view(out1).push(entry));
        assert(body_lines(rows@, nv, av, name_w as int, amount_w as int, k + 1) == headed.push(entry));
        assert(lines_view(out@) =~= head + body_lines(
            rows@,
            nv,
            av,
            name_w as int,
            amount_w as int,
            k + 1,
        ));
        k = k + 1;
    }
    out
}

/// What a timeline shows.
pub enum TimelineView {
    /// The store holds no expense.
    NoExpenses,
    /// No payment falls in the window.
    NothingInWindow,
    /// The payments, as `timeline_rows` gives them, and the table's lines
    /// (each with whether it is bold).
    Table { rows: Vec<(Date, usize)>, lines: Vec<(String, bool)> },
}

pub open spec fn names_view(es: Seq<Expense>) -> Seq<Seq<char>> {
    es.map_values(|e: Expense| e.name@)
}

/// The timeline of `expenses` from `past_days` before `today` to `days`
/// after it, with `amounts[x]` the amount text shown for expense `x`.
pub fn timeline_view(
    expenses: &Vec<Expense>,
    today: &Date,
    past_days: u32,
    days: u32,
    amounts: &Vec<String>,
) -> (r: TimelineView)
    requires
        today.valid(),
        min_ord() <= today.ord() - past_days,
        today.ord() + days + 7 <= max_ord(),
        amounts@.len() == expenses@.len(),
        forall|i: int| 0 <= i < expenses@.len() ==> (#[trigger] expenses@[i])@.wf(),
    ensures
        expenses@.len() == 0 <==> r is NoExpenses,
        ({
            let from = today.ord() - past_days;
            let end = today.ord() + days;
            match r {
                TimelineView::NoExpenses => true,
                TimelineView::NothingInWindow => forall|row: (Date, usize)|
                    !(payment_row(expenses@, row) && from <= row.0.ord() <= end),
                TimelineView::Table { rows, lines } => {
                    &&& rows@.len() > 0
                    &&& forall|a: int, b: int| 0 <= a < b < rows@.len() ==> row_before(#[trigger] rows@[a], #[trigger] rows@[b])
                    &&& forall|row: (Date, usize)| rows@.contains(row) <==> (payment_row(expenses@, row)
                        && from <= row.0.ord() <= end)
                    &&& lines_view(lines@) == timeline_lines_spec(rows@, names_view(expenses@), texts_view(amounts@))
                },
            }
        }),
{
    if expenses.len() == 0 {
        return TimelineView::NoExpenses;
    }
    let (from, end) = timeline_window(today, past_days, days);
    let rows = timeline_rows(expenses, &from, &end);
    proof {
        assert forall|row: (Date, usize)| in_window(expenses@, from, end, row) <==> (payment_row(expenses@, row)
            && from.ord() <= row.0.ord() <= end.ord()) by {}
    }
    if rows.len() == 0 {
        proof {
            assert forall|row: (Date, usize)| !(payment_row(expenses@, row) && from.ord() <= row.0.ord() <= end.ord()) by {
                if in_window(expenses@, from, end, row) {
                    assert(rows@.contains(row));
                }
            }
        }
        return TimelineView::NothingInWindow;
    }
    let mut names: Vec<String> = Vec::new();
    let mut i: usize = 0;
    while i < expenses.len()
        invariant
            i <= expenses@.len(),
            names@.len() == i,
            forall|k: int| 0 <= k < i ==> (#[trigger] names@[k])@ == expenses@[k].name@,
        decreases expenses@.len() - i,
    {
        names.push(crate::expense::clone_string(&expenses[i].name));
        i = i + 1;
    }
    assert(texts_view(names@) =~= names_view(expenses@));
    proof {
        assert forall|k: int| 0 <= k < rows@.len() implies (#[trigger] rows@[k]).1 < names@.len() && rows@[k].0.valid() by {
            assert(rows@.contains(rows@[k]));
        }
    }
    let lines = timeline_lines(&rows, &names, amounts);
    TimelineView::Table { rows, lines }
}

/// What `upcoming` says when nothing falls in the next `days` days.
pub fn no_upcoming_message(days: u32) -> (r: String)
    ensures
        r@ == "No upcoming expenses in the next "@ + dec(days as nat) + " days."@,
{
    let mut s = string_of("No upcoming expenses in the next ");
    let n = u64_to_string(days as u64);
    push_str(&mut s, n.as_str());
    push_str(&mut s, " days.");
    s
}

} // verus!
