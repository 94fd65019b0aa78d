//! The CSV file format of the store: one expense per row, columns found by
//! header name, unknown columns kept, short rows accepted. The `csv` crate
//! splits and joins records; this module maps records to expenses and back.
use vstd::prelude::*;

use crate::date::{chrono_parse_ymd, parse_ymd, valid_ymd, year_text, zero_padded, Date};
use crate::expense::{
    clone_string, opt_view, pairs_view, string_of, views, Expense, ExpenseView, Interval,
};
use crate::text::{all_digits, dec, eq_ic, is_digit, parse_u64, parse_u64_spec, push_str, str_eq};

verus! {

/// The records that `csv::ReaderBuilder::new().flexible(true)` reads from
/// `bytes`: the header record and the data records; on failure, the text of
/// the `csv::Error`.
pub uninterp spec fn csv_parse(bytes: Seq<u8>) -> Result<
    (Seq<Seq<char>>, Seq<Seq<Seq<char>>>),
    Seq<char>,
>;

/// A field that `csv::Writer`'s default quoting puts in quotes: one that
/// holds the delimiter `,`, the quote `"`, `\r` or `\n`.
pub open spec fn needs_quotes(f: Seq<char>) -> bool {
    exists|i: int| 0 <= i < f.len() && (#[trigger] f[i] == ',' || f[i] == '"' || f[i] == '\r' || f[i] == '\n')
}

/// `f` with each `"` doubled.
pub open spec fn doubled_quotes(f: Seq<char>) -> Seq<char>
    decreases f.len(),
{
    if f.len() == 0 {
        Seq::empty()
    } else if f.last() == '"' {
        doubled_quotes(f.drop_last()) + seq!['"', '"']
    } else {
        doubled_quotes(f.drop_last()).push(f.last())
    }
}

/// A field as written: quoted, with its quotes doubled, when it needs it.
pub open spec fn field_text(f: Seq<char>) -> Seq<char> {
    if needs_quotes(f) {
        seq!['"'] + doubled_quotes(f) + seq!['"']
    } else {
        f
    }
}

/// The first `n` fields of a record as written, `,` between them.
pub open spec fn fields_text(r: Seq<Seq<char>>, n: int) -> Seq<char>
    decreases n,
{
    if n <= 0 {
        Seq::empty()
    } else if n == 1 {
        field_text(r[0])
    } else {
        fields_text(r, n - 1) + seq![','] + field_text(r[n - 1])
    }
}

/// A record as written, with its `\n` terminator. A record that would
/// write nothing before the terminator (no field, or one empty field) is
/// written as an empty quoted field, `""`.
pub open spec fn record_text(r: Seq<Seq<char>>) -> Seq<char> {
    if r.len() == 0 || (r.len() == 1 && r[0].len() == 0) {
        seq!['"', '"', '\n']
    } else {
        fields_text(r, r.len() as int) + seq!['\n']
    }
}

/// The text of the first `n` records.
pub open spec fn records_text(rows: Seq<Seq<Seq<char>>>, n: int) -> Seq<char>
    decreases n,
{
    if n <= 0 {
        Seq::empty()
    } else {
        records_text(rows, n - 1) + record_text(rows[n - 1])
    }
}

/// The bytes that `csv::Writer` with its default settings writes for `rows`,
/// one record per row: the UTF-8 encoding of their text.
pub open spec fn csv_written(rows: Seq<Seq<Seq<char>>>) -> Seq<u8> {
    vstd::utf8::encode_utf8(records_text(rows, rows.len() as int))
}


/// `NaiveDate`'s `Display` text (ISO 8601 `%Y-%m-%d`): the year as `%Y`
/// writes it, then the month and the day in two digits each.
pub open spec fn chrono_display(y: int, m: int, d: int) -> Seq<char> {
    year_text(y) + seq!['-'] + zero_padded(m as nat, 2) + seq!['-'] + zero_padded(d as nat, 2)
}

pub open spec fn strings_view(v: Seq<String>) -> Seq<Seq<char>> {
    v.map_values(|s: String| s@)
}

pub open spec fn records_view(v: Seq<Vec<String>>) -> Seq<Seq<Seq<char>>> {
    v.map_values(|r: Vec<String>| strings_view(r@))
}

/// Reads CSV text through the `csv` crate: `ReaderBuilder::new().flexible(true)`,
/// then its headers and records. The result is named by `csv_parse`.
#[verifier::external_body]
fn read_records(bytes: &[u8]) -> (r: Result<(Vec<String>, Vec<Vec<String>>), String>)
    ensures
        match r {
            Ok((h, rs)) => csv_parse(bytes@) matches Ok((ph, prs)) && ph == strings_view(h@)
                && prs == records_view(rs@),
            Err(m) => csv_parse(bytes@) matches Err(pm) && pm == m@,
        },
{
    let mut rdr = csv::ReaderBuilder::new().flexible(true).from_reader(bytes);
    let headers: Vec<String> = match rdr.headers() {
        Ok(h) => h.iter().map(|f| f.to_string()).collect(),
        Err(e) => return Err(e.to_string()),
    };
    let mut rows: Vec<Vec<String>> = Vec::new();
    for rec in rdr.records() {
        match rec {
            Ok(r) => rows.push(r.iter().map(|f| f.to_string()).collect()),
            Err(e) => return Err(e.to_string()),
        }
    }
    Ok((headers, rows))
}

/// Every row has as many fields as the first, and that is at least two.
pub open spec fn all_same_len(rows: Seq<Seq<Seq<char>>>) -> bool {
    &&& rows.len() >= 1
    &&& rows[0].len() >= 2
    &&& forall|i: int| 0 <= i < rows.len() ==> (#[trigger] rows[i]).len() == rows[0].len()
}

/// What reading back the written rows gives: the first as headers, the rest as records.
pub open spec fn parsed_rows(rows: Seq<Seq<Seq<char>>>) -> Result<(Seq<Seq<char>>, Seq<Seq<Seq<char>>>), Seq<char>> {
    Ok((rows[0], rows.drop_first()))
}

/// The first field does not open with a byte order mark, which the reader
/// strips from the start of its input and the writer does not quote.
pub open spec fn first_cell_unmarked(rows: Seq<Seq<Seq<char>>>) -> bool {
    rows[0][0].len() == 0 || rows[0][0][0] != '\u{FEFF}'
}

/// Writes records through `csv::Writer::from_writer(Vec::new())`: the bytes
/// are `csv_written` of the rows (default settings: `,` between fields, `"`
/// around a field that needs it with inner quotes doubled, `\n` after each
/// record, a lone empty record written as `""`). The writer quotes every
/// field that needs it, so the
/// reader above gives back the rows, the first as the header record, when all
/// rows have the same number (at least two) of fields and the first field
/// does not open with a byte order mark. A writer that is not flexible
/// refuses rows of unequal length, so `requires` asks for equal ones.
#[verifier::external_body]
fn write_records(rows: &Vec<Vec<String>>) -> (r: Vec<u8>)
    requires
        rows@.len() >= 1,
        all_same_len(records_view(rows@)),
        first_cell_unmarked(records_view(rows@)),
    ensures
        r@ == csv_written(records_view(rows@)),
        csv_parse(r@) == parsed_rows(records_view(rows@)),
{
    let mut wtr = csv::Writer::from_writer(Vec::new());
    for row in rows {
        wtr.write_record(row).unwrap();
    }
    wtr.into_inner().unwrap()
}

/// `NaiveDate`'s `Display` text of a valid date, as `chrono_display` states
/// it; chrono's `%Y-%m-%d` parser reads the same date back (its `%Y` takes
/// an explicit sign followed by any number of digits).
#[verifier::external_body]
pub(crate) fn date_to_string(d: &Date) -> (r: String)
    requires
        d.valid(),
    ensures
        r@ == chrono_display(d.year as int, d.month as int, d.day as int),
        r@.len() > 0,
        chrono_parse_ymd(r@) == Some(
            (d.year as int, d.month as int, d.day as int),
        ),
{
    chrono::NaiveDate::from_ymd_opt(d.year, d.month, d.day).unwrap().to_string()
}

// ----- reading -----
/// A sign: `+` or `-`.
pub open spec fn is_sign(c: char) -> bool {
    c == '+' || c == '-'
}

pub open spec fn drop_sign(s: Seq<char>) -> Seq<char> {
    if s.len() > 0 && is_sign(s[0]) {
        s.drop_first()
    } else {
        s
    }
}

/// Index of the first `c` in `s` accepted by `p`, or `s.len()`.
pub open spec fn first_index(s: Seq<char>, a: char, b: char) -> int
    decreases s.len(),
{
    if s.len() == 0 {
        0
    } else {
        let k = first_index(s.drop_last(), a, b);
        if k < s.len() - 1 {
            k
        } else if s.last() == a || s.last() == b {
            s.len() - 1
        } else {
            s.len() as int
        }
    }
}

/// `Digit+ | Digit+ '.' Digit* | Digit* '.' Digit+`
pub open spec fn mantissa_ok(m: Seq<char>) -> bool {
    let d = first_index(m, '.', '.');
    if d == m.len() {
        m.len() > 0 && all_digits(m)
    } else {
        let int_part = m.subrange(0, d);
        let frac = m.subrange(d + 1, m.len() as int);
        all_digits(int_part) && all_digits(frac) && (int_part.len() > 0 || frac.len() > 0)
    }
}

/// `Sign? Digit+`
pub open spec fn exponent_ok(x: Seq<char>) -> bool {
    drop_sign(x).len() > 0 && all_digits(drop_sign(x))
}

/// A literal that `f64::from_str` accepts: an optional sign, then `inf`,
/// `infinity`, `nan` (any case) or a decimal number with an optional exponent.
pub open spec fn float_lit(s: Seq<char>) -> bool {
    let b = drop_sign(s);
    if eq_ic(b, "inf"@) || eq_ic(b, "infinity"@) || eq_ic(b, "nan"@) {
        true
    } else {
        let e = first_index(b, 'e', 'E');
        mantissa_ok(b.subrange(0, e)) && (e == b.len() || exponent_ok(
            b.subrange(e + 1, b.len() as int),
        ))
    }
}

proof fn lemma_first_index_prefix(s: Seq<char>, a: char, b: char, i: int)
    requires
        0 <= i <= s.len(),
        forall|k: int| 0 <= k < i ==> s[k] != a && s[k] != b,
    ensures
        first_index(s.take(i), a, b) == i,
    decreases i,
{
    if i > 0 {
        assert(s.take(i).drop_last() =~= s.take(i - 1));
        lemma_first_index_prefix(s, a, b, i - 1);
    }
}

pub(crate) proof fn lemma_first_index_found(s: Seq<char>, a: char, b: char, i: int)
    requires
        0 <= i < s.len(),
        forall|k: int| 0 <= k < i ==> s[k] != a && s[k] != b,
        s[i] == a || s[i] == b,
    ensures
        first_index(s, a, b) == i,
    decreases s.len(),
{
    if s.len() - 1 > i {
        assert(s.drop_last()[i] == s[i]);
        lemma_first_index_found(s.drop_last(), a, b, i);
    } else {
        assert(s.drop_last() =~= s.take(i));
        lemma_first_index_prefix(s, a, b, i);
    }
}

pub(crate) proof fn lemma_first_index_none(s: Seq<char>, a: char, b: char)
    requires
        forall|k: int| 0 <= k < s.len() ==> s[k] != a && s[k] != b,
    ensures
        first_index(s, a, b) == s.len(),
{
    lemma_first_index_prefix(s, a, b, s.len() as int);
    assert(s.take(s.len() as int) =~= s);
}

/// Index of the first `a` or `b` in `v[from..to]`, relative to `from`.
fn find_first(v: &Vec<char>, from: usize, to: usize, a: char, b: char) -> (r: usize)
    requires
        from <= to <= v@.len(),
    ensures
        r == first_index(v@.subrange(from as int, to as int), a, b),
        r <= to - from,
{
    let ghost s = v@.subrange(from as int, to as int);
    let mut i = from;
    while i < to
        invariant
            from <= i <= to <= v@.len(),
            s == v@.subrange(from as int, to as int),
            forall|k: int| 0 <= k < i - from ==> s[k] != a && s[k] != b,
        decreases to - i,
    {
        if v[i] == a || v[i] == b {
            proof {
                lemma_first_index_found(s, a, b, i - from);
            }
            return i - from;
        }
        i = i + 1;
    }
    proof {
        lemma_first_index_none(s, a, b);
    }
    to - from
}

fn all_digits_in(v: &Vec<char>, from: usize, to: usize) -> (r: bool)
    requires
        from <= to <= v@.len(),
    ensures
        r == all_digits(v@.subrange(from as int, to as int)),
{
    let ghost s = v@.subrange(from as int, to as int);
    let mut i = from;
    while i < to
        invariant
            from <= i <= to <= v@.len(),
            s == v@.subrange(from as int, to as int),
            forall|k: int| 0 <= k < i - from ==> is_digit(#[trigger] s[k]),
        decreases to - i,
    {
        if !('0' <= v[i] && v[i] <= '9') {
            assert(!is_digit(s[i - from]));
            return false;
        }
        i = i + 1;
    }
    true
}

fn eq_ic_slice(v: &Vec<char>, from: usize, lit: &str) -> (r: bool)
    requires
        from <= v@.len(),
    ensures
        r == eq_ic(v@.subrange(from as int, v@.len() as int), lit@),
{
    let tail = crate::text::string_from_slice(v, from, v.len());
    crate::text::eq_ignore_ascii_case(tail.as_str(), lit)
}

fn mantissa_ok_exec(v: &Vec<char>, from: usize, to: usize) -> (r: bool)
    requires
        from <= to <= v@.len(),
    ensures
        r == mantissa_ok(v@.subrange(from as int, to as int)),
{
    let ghost m = v@.subrange(from as int, to as int);
    let d = find_first(v, from, to, '.', '.');
    if d == to - from {
        to > from && all_digits_in(v, from, to)
    } else {
        assert(m.subrange(0, d as int) =~= v@.subrange(from as int, (from + d) as int));
        assert(m.subrange(d + 1, m.len() as int) =~= v@.subrange(
            (from + d + 1) as int,
            to as int,
        ));
        all_digits_in(v, from, from + d) && all_digits_in(v, from + d + 1, to) && (d > 0 || to
            - from - d - 1 > 0)
    }
}

fn exponent_ok_exec(v: &Vec<char>, from: usize) -> (r: bool)
    requires
        from <= v@.len(),
    ensures
        r == exponent_ok(v@.subrange(from as int, v@.len() as int)),
{
    let n = v.len();
    let ghost x = v@.subrange(from as int, n as int);
    let ys: usize = if from < n && (v[from] == '+' || v[from] == '-') {
        from + 1
    } else {
        from
    };
    assert(drop_sign(x) =~= v@.subrange(ys as int, n as int));
    ys < n && all_digits_in(v, ys, n)
}

fn special_float(v: &Vec<char>, start: usize) -> (r: bool)
    requires
        start <= v@.len(),
    ensures
        ({
            let b = v@.subrange(start as int, v@.len() as int);
            r == (eq_ic(b, "inf"@) || eq_ic(b, "infinity"@) || eq_ic(b, "nan"@))
        }),
{
    eq_ic_slice(v, start, "inf") || eq_ic_slice(v, start, "infinity") || eq_ic_slice(
        v,
        start,
        "nan",
    )
}

/// Whether `s` is a literal that `f64::from_str` accepts.
pub fn is_float_literal(s: &str) -> (r: bool)
    ensures
        r == float_lit(s@),
{
    let v = crate::text::chars_of(s);
    let n = v.len();
    let start: usize = if n > 0 && (v[0] == '+' || v[0] == '-') {
        1
    } else {
        0
    };
    let ghost b = v@.subrange(start as int, n as int);
    assert(b =~= drop_sign(s@));
    if special_float(&v, start) {
        return true;
    }
    let e = find_first(&v, start, n, 'e', 'E');
    let ghost m = b.subrange(0, e as int);
    assert(m =~= v@.subrange(start as int, (start + e) as int));
    if !mantissa_ok_exec(&v, start, start + e) {
        return false;
    }
    if start + e == n {
        return true;
    }
    assert(b.subrange(e + 1, b.len() as int) =~= v@.subrange((start + e + 1) as int, n as int));
    exponent_ok_exec(&v, start + e + 1)
}

pub open spec fn none_if_empty(v: Seq<char>) -> Option<Seq<char>> {
    if v.len() == 0 {
        None
    } else {
        Some(v)
    }
}

/// `None` for an empty cell, else the cell's text.
pub fn empty_to_none(v: &str) -> (r: Option<String>)
    ensures
        opt_view(r) == none_if_empty(v@),
{
    if v.unicode_len() == 0 {
        None
    } else {
        Some(string_of(v))
    }
}

pub open spec fn interval_named(v: Seq<char>) -> Option<Interval> {
    if v == "weekly"@ {
        Some(Interval::Weekly)
    } else if v == "monthly"@ {
        Some(Interval::Monthly)
    } else if v == "quarterly"@ {
        Some(Interval::Quarterly)
    } else if v == "yearly"@ {
        Some(Interval::Yearly)
    } else {
        None
    }
}

pub open spec fn invalid_date_message(v: Seq<char>) -> Seq<char> {
    "invalid date '"@ + v + "', expected YYYY-MM-DD"@
}

/// A date cell: empty for none, else a `YYYY-MM-DD` date.
pub open spec fn date_cell(v: Seq<char>) -> Result<Option<Date>, Seq<char>> {
    if v.len() == 0 {
        Ok(None)
    } else {
        match chrono_parse_ymd(v) {
            Some((y, m, d)) => if valid_ymd(y, m, d) {
                Ok(Some(Date { year: y as i32, month: m as u32, day: d as u32 }))
            } else {
                Err(invalid_date_message(v))
            },
            None => Err(invalid_date_message(v)),
        }
    }
}

/// Index of the first pair with key `k`, or `pairs.len()`.
pub open spec fn key_index(pairs: Seq<(Seq<char>, Seq<char>)>, k: Seq<char>) -> int
    decreases pairs.len(),
{
    if pairs.len() == 0 {
        0
    } else {
        let j = key_index(pairs.drop_last(), k);
        if j < pairs.len() - 1 {
            j
        } else if pairs.last().0 == k {
            pairs.len() - 1
        } else {
            pairs.len() as int
        }
    }
}

proof fn lemma_key_index(pairs: Seq<(Seq<char>, Seq<char>)>, k: Seq<char>, i: int)
    requires
        0 <= i <= pairs.len(),
        forall|t: int| 0 <= t < i ==> (#[trigger] pairs[t]).0 != k,
        i < pairs.len() ==> pairs[i].0 == k,
    ensures
        key_index(pairs, k) == i,
    decreases pairs.len(),
{
    if pairs.len() > 0 {
        if i < pairs.len() - 1 {
            assert(pairs.drop_last()[i] == pairs[i]);
            lemma_key_index(pairs.drop_last(), k, i);
        } else {
            assert forall|t: int| 0 <= t < pairs.len() - 1 implies (
            #[trigger] pairs.drop_last()[t]).0 != k by {
                assert(pairs.drop_last()[t] == pairs[t]);
            }
            lemma_key_index(pairs.drop_last(), k, pairs.len() - 1);
        }
    }
}

/// `pairs` with the value of key `k` set to `v`, appended when `k` is new.
pub open spec fn insert_pair(
    pairs: Seq<(Seq<char>, Seq<char>)>,
    k: Seq<char>,
    v: Seq<char>,
) -> Seq<(Seq<char>, Seq<char>)> {
    let i = key_index(pairs, k);
    if i < pairs.len() {
        pairs.update(i, (k, v))
    } else {
        pairs.push((k, v))
    }
}

/// One cell of a row, under header `h`, applied to the expense read so far.
pub open spec fn apply_cell(e: ExpenseView, h: Seq<char>, v: Seq<char>) -> Result<
    ExpenseView,
    Seq<char>,
> {
    if h == "id"@ {
        match parse_u64_spec(v) {
            Some(n) => Ok(ExpenseView { id: n, ..e }),
            None => Err("invalid id '"@ + v + "'"@),
        }
    } else if h == "name"@ {
        Ok(ExpenseView { name: v, ..e })
    } else if h == "amount"@ {
        if v.len() == 0 {
            Ok(ExpenseView { amount: None, ..e })
        } else if float_lit(v) {
            Ok(ExpenseView { amount: Some(v), ..e })
        } else {
            Err("invalid amount '"@ + v + "'"@)
        }
    } else if h == "currency"@ {
        Ok(ExpenseView { currency: none_if_empty(v), ..e })
    } else if h == "start_date"@ {
        match date_cell(v) {
            Ok(d) => Ok(ExpenseView { start_date: d, ..e }),
            Err(m) => Err(m),
        }
    } else if h == "interval"@ {
        if v.len() == 0 {
            Ok(ExpenseView { interval: None, ..e })
        } else {
            match interval_named(v) {
                Some(i) => Ok(ExpenseView { interval: Some(i), ..e }),
                None => Err("invalid interval '"@ + v + "'"@),
            }
        }
    } else if h == "category"@ {
        Ok(ExpenseView { category: none_if_empty(v), ..e })
    } else if h == "end_date"@ {
        match date_cell(v) {
            Ok(d) => Ok(ExpenseView { end_date: d, ..e }),
            Err(m) => Err(m),
        }
    } else {
        Ok(ExpenseView { extra: insert_pair(e.extra, h, v), ..e })
    }
}

pub open spec fn blank_expense() -> ExpenseView {
    ExpenseView {
        id: 0,
        name: Seq::empty(),
        amount: None,
        currency: None,
        start_date: None,
        interval: None,
        category: None,
        end_date: None,
        extra: Seq::empty(),
    }
}

/// The first `n` cells of a row applied, in column order.
pub open spec fn apply_cells(h: Seq<Seq<char>>, cells: Seq<Seq<char>>, n: int) -> Result<
    ExpenseView,
    Seq<char>,
>
    decreases n,
{
    if n <= 0 {
        Ok(blank_expense())
    } else {
        match apply_cells(h, cells, n - 1) {
            Ok(e) => apply_cell(e, h[n - 1], cells[n - 1]),
            Err(m) => Err(m),
        }
    }
}

pub open spec fn min_len(a: int, b: int) -> int {
    if a <= b {
        a
    } else {
        b
    }
}

/// The expense a row describes: headers and cells paired up to the shorter of the two.
pub open spec fn row_spec(h: Seq<Seq<char>>, cells: Seq<Seq<char>>) -> Result<
    ExpenseView,
    Seq<char>,
> {
    apply_cells(h, cells, min_len(h.len() as int, cells.len() as int))
}

/// The expenses of all rows, in order; the first row that fails decides the error.
pub open spec fn rows_spec(h: Seq<Seq<char>>, rows: Seq<Seq<Seq<char>>>) -> Result<
    Seq<ExpenseView>,
    Seq<char>,
>
    decreases rows.len(),
{
    if rows.len() == 0 {
        Ok(Seq::empty())
    } else {
        match rows_spec(h, rows.drop_last()) {
            Ok(es) => match row_spec(h, rows.last()) {
                Ok(e) => Ok(es.push(e)),
                Err(m) => Err(m),
            },
            Err(m) => Err(m),
        }
    }
}

/// The expenses that CSV bytes hold, or the message of the first thing that cannot be read.
pub open spec fn decode(bytes: Seq<u8>) -> Result<Seq<ExpenseView>, Seq<char>> {
    match csv_parse(bytes) {
        Ok((h, rows)) => rows_spec(h, rows),
        Err(m) => Err(m),
    }
}

fn set_extra(extra: &mut Vec<(String, String)>, k: &String, v: &str)
    ensures
        pairs_view(final(extra)@) == insert_pair(pairs_view(old(extra)@), k@, v@),
{
    let ghost pv = pairs_view(extra@);
    let mut i: usize = 0;
    while i < extra.len()
        invariant
            pv == pairs_view(extra@),
            extra@ == old(extra)@,
            i <= extra@.len(),
            forall|t: int| 0 <= t < i ==> (#[trigger] pv[t]).0 != k@,
        decreases extra@.len() - i,
    {
        if str_eq(extra[i].0.as_str(), k.as_str()) {
            proof {
                assert(pv[i as int].0 == k@);
                lemma_key_index(pv, k@, i as int);
            }
            let ghost old_extra = extra@;
            let kk = clone_string(k);
            let vv = string_of(v);
            extra.set(i, (kk, vv));
            assert(pairs_view(extra@) =~= pv.update(i as int, (k@, v@)));
            assert(insert_pair(pv, k@, v@) == pv.update(i as int, (k@, v@)));
            return;
        }
        i = i + 1;
    }
    proof {
        lemma_key_index(pv, k@, pv.len() as int);
    }
    let kk = clone_string(k);
    let vv = string_of(v);
    extra.push((kk, vv));
    assert(pairs_view(extra@) =~= pv.push((k@, v@)));
}

fn quoted_message(prefix: &str, v: &str, suffix: &str) -> (r: String)
    ensures
        r@ == prefix@ + v@ + suffix@,
{
    let mut m = string_of(prefix);
    push_str(&mut m, v);
    push_str(&mut m, suffix);
    m
}

fn read_date_cell(v: &str) -> (r: Result<Option<Date>, String>)
    ensures
        match r {
            Ok(d) => date_cell(v@) == Ok::<_, Seq<char>>(d) && (d matches Some(x) ==> x.valid()),
            Err(m) => date_cell(v@) == Err::<Option<Date>, _>(m@),
        },
{
    if v.unicode_len() == 0 {
        return Ok(None);
    }
    match parse_ymd(v) {
        Some(d) => Ok(Some(d)),
        None => Err(quoted_message("invalid date '", v, "', expected YYYY-MM-DD")),
    }
}

/// Applies one cell to the expense read so far.
fn apply_cell_exec(e: &mut Expense, h: &String, v: &String) -> (r: Result<(), String>)
    requires
        old(e)@.wf(),
    ensures
        final(e)@.wf(),
        match r {
            Ok(()) => apply_cell(old(e)@, h@, v@) == Ok::<_, Seq<char>>(final(e)@),
            Err(m) => apply_cell(old(e)@, h@, v@) == Err::<ExpenseView, _>(m@),
        },
{
    let hs = h.as_str();
    let vs = v.as_str();
    if str_eq(hs, "id") {
        match parse_u64(vs) {
            Some(n) => {
                e.id = n;
                Ok(())
            },
            None => Err(quoted_message("invalid id '", vs, "'")),
        }
    } else if str_eq(hs, "name") {
        e.name = clone_string(v);
        Ok(())
    } else if str_eq(hs, "amount") {
        if vs.unicode_len() == 0 {
            e.amount = None;
            Ok(())
        } else if is_float_literal(vs) {
            e.amount = Some(clone_string(v));
            Ok(())
        } else {
            Err(quoted_message("invalid amount '", vs, "'"))
        }
    } else if str_eq(hs, "currency") {
        e.currency = empty_to_none(vs);
        Ok(())
    } else if str_eq(hs, "start_date") {
        match read_date_cell(vs) {
            Ok(d) => {
                e.start_date = d;
                Ok(())
            },
            Err(m) => Err(m),
        }
    } else if str_eq(hs, "interval") {
        if vs.unicode_len() == 0 {
            e.interval = None;
            Ok(())
        } else {
            match Interval::from_name(vs) {
                Some(i) => {
                    proof {
                        reveal_strlit("weekly");
                        reveal_strlit("monthly");
                        reveal_strlit("quarterly");
                        reveal_strlit("yearly");
                        assert(interval_named(v@) == Some(i));
                    }
                    e.interval = Some(i);
                    Ok(())
                },
                None => {
                    proof {
                        assert(Interval::Weekly.name_spec() != v@);
                        assert(Interval::Monthly.name_spec() != v@);
                        assert(Interval::Quarterly.name_spec() != v@);
                        assert(Interval::Yearly.name_spec() != v@);
                    }
                    Err(quoted_message("invalid interval '", vs, "'"))
                },
            }
        }
    } else if str_eq(hs, "category") {
        e.category = empty_to_none(vs);
        Ok(())
    } else if str_eq(hs, "end_date") {
        match read_date_cell(vs) {
            Ok(d) => {
                e.end_date = d;
                Ok(())
            },
            Err(m) => Err(m),
        }
    } else {
        set_extra(&mut e.extra, h, vs);
        Ok(())
    }
}

/// The expense that one CSV row describes under the given headers.
pub fn row_to_expense(headers: &Vec<String>, record: &Vec<String>) -> (r: Result<Expense, String>)
    ensures
        match r {
            Ok(e) => row_spec(strings_view(headers@), strings_view(record@)) == Ok::<
                _,
                Seq<char>,
            >(e@) && e@.wf(),
            Err(m) => row_spec(strings_view(headers@), strings_view(record@)) == Err::<
                ExpenseView,
                _,
            >(m@),
        },
{
    let ghost hv = strings_view(headers@);
    let ghost cv = strings_view(record@);
    let n = if headers.len() <= record.len() {
        headers.len()
    } else {
        record.len()
    };
    let mut e = Expense {
        id: 0,
        name: String::new(),
        amount: None,
        currency: None,
        start_date: None,
        interval: None,
        category: None,
        end_date: None,
        extra: Vec::new(),
    };
    assert(e@ == blank_expense()) by {
        assert(e@.extra =~= Seq::<(Seq<char>, Seq<char>)>::empty());
    }
    let mut i: usize = 0;
    while i < n
        invariant
            hv == strings_view(headers@),
            cv == strings_view(record@),
            n == min_len(headers@.len() as int, record@.len() as int),
            i <= n,
            apply_cells(hv, cv, i as int) == Ok::<_, Seq<char>>(e@),
            e@.wf(),
        decreases n - i,
    {
        let res = apply_cell_exec(&mut e, &headers[i], &record[i]);
        match res {
            Ok(()) => {},
            Err(m) => {
                proof {
                    lemma_apply_cells_err(hv, cv, (i + 1) as int, n as int, m@);
                }
                return Err(m);
            },
        }
        i = i + 1;
    }
    Ok(e)
}

proof fn lemma_apply_cells_err(h: Seq<Seq<char>>, c: Seq<Seq<char>>, i: int, n: int, m: Seq<char>)
    requires
        0 <= i <= n,
        apply_cells(h, c, i) == Err::<ExpenseView, _>(m),
    ensures
        apply_cells(h, c, n) == Err::<ExpenseView, _>(m),
    decreases n - i,
{
    if i < n {
        lemma_apply_cells_err(h, c, i, n - 1, m);
    }
}

proof fn lemma_rows_err(h: Seq<Seq<char>>, rows: Seq<Seq<Seq<char>>>, i: int, m: Seq<char>)
    requires
        0 <= i <= rows.len(),
        rows_spec(h, rows.take(i)) == Err::<Seq<ExpenseView>, _>(m),
    ensures
        rows_spec(h, rows) == Err::<Seq<ExpenseView>, _>(m),
    decreases rows.len() - i,
{
    if i < rows.len() {
        assert(rows.drop_last().take(i) =~= rows.take(i));
        lemma_rows_err(h, rows.drop_last(), i, m);
    } else {
        assert(rows.take(i) =~= rows);
    }
}

/// The expenses that CSV bytes hold.
pub fn decode_expenses(bytes: &[u8]) -> (r: Result<Vec<Expense>, String>)
    ensures
        match r {
            Ok(es) => decode(bytes@) == Ok::<_, Seq<char>>(views(es@)) && forall|i: int|
                0 <= i < es@.len() ==> (#[trigger] es@[i])@.wf(),
            Err(m) => decode(bytes@) == Err::<Seq<ExpenseView>, _>(m@),
        },
{
    let (headers, rows) = match read_records(bytes) {
        Ok(x) => x,
        Err(m) => return Err(m),
    };
    let ghost hv = strings_view(headers@);
    let ghost rv = records_view(rows@);
    let mut out: Vec<Expense> = Vec::new();
    let mut i: usize = 0;
    assert(rv.take(0) =~= Seq::<Seq<Seq<char>>>::empty());
    assert(views(out@) =~= Seq::<ExpenseView>::empty());
    while i < rows.len()
        invariant
            hv == strings_view(headers@),
            rv == records_view(rows@),
            csv_parse(bytes@) == Ok::<_, Seq<char>>((hv, rv)),
            i <= rows@.len(),
            rows_spec(hv, rv.take(i as int)) == Ok::<_, Seq<char>>(views(out@)),
            forall|k: int| 0 <= k < out@.len() ==> (#[trigger] out@[k])@.wf(),
        decreases rows@.len() - i,
    {
        assert(rv.take(i + 1).drop_last() =~= rv.take(i as int));
        assert(rv.take(i + 1).last() == rv[i as int]);
        match row_to_expense(&headers, &rows[i]) {
            Ok(e) => {
                let ghost before = out@;
                out.push(e);
                assert(views(out@) =~= views(before).push(e@));
            },
            Err(m) => {
                proof {
                    lemma_rows_err(hv, rv, i + 1, m@);
                }
                return Err(m);
            },
        }
        i = i + 1;
    }
    assert(rv.take(i as int) =~= rv);
    Ok(out)
}

// ----- reading back what was written -----
/// What chrono documents of a date's text: it is not empty, and the
/// `%Y-%m-%d` parser reads the same date back.
pub open spec fn date_reads_back(o: Option<Date>) -> bool {
    o matches Some(d) ==> {
        let t = chrono_display(d.year as int, d.month as int, d.day as int);
        t.len() > 0 && chrono_parse_ymd(t) == Some((d.year as int, d.month as int, d.day as int))
    }
}

pub open spec fn dates_read_back(e: ExpenseView) -> bool {
    date_reads_back(e.start_date) && date_reads_back(e.end_date)
}

/// An expense that the file format writes and reads back: valid dates, an
/// amount that is empty or a float literal, and no extra column named like
/// one of the store's own.
pub open spec fn storable(e: ExpenseView) -> bool {
    &&& e.wf()
    &&& (e.amount matches Some(a) ==> a.len() == 0 || float_lit(a))
    &&& forall|i: int| 0 <= i < e.extra.len() ==> !known_columns().contains(#[trigger] e.extra[i].0)
}

pub open spec fn all_storable(es: Seq<ExpenseView>) -> bool {
    forall|i: int| 0 <= i < es.len() ==> storable(#[trigger] es[i])
}

proof fn lemma_key_index_range(pairs: Seq<(Seq<char>, Seq<char>)>, k: Seq<char>)
    ensures
        0 <= key_index(pairs, k) <= pairs.len(),
    decreases pairs.len(),
{
    if pairs.len() > 0 {
        lemma_key_index_range(pairs.drop_last(), k);
    }
}

proof fn lemma_apply_cell_storable(e: ExpenseView, h: Seq<char>, v: Seq<char>)
    requires
        storable(e),
        apply_cell(e, h, v) is Ok,
    ensures
        storable(apply_cell(e, h, v)->Ok_0),
{
    let r = apply_cell(e, h, v)->Ok_0;
    if h != "id"@ && h != "name"@ && h != "amount"@ && h != "currency"@ && h != "start_date"@
        && h != "interval"@ && h != "category"@ && h != "end_date"@ {
        assert(!known_columns().contains(h)) by {
            if known_columns().contains(h) {
                let k = choose|k: int| 0 <= k < known_columns().len() && known_columns()[k] == h;
            }
        }
        let ex = e.extra;
        let ki = key_index(ex, h);
        lemma_key_index_range(ex, h);
        assert(r.extra == insert_pair(ex, h, v));
        assert forall|i: int| 0 <= i < r.extra.len() implies !known_columns().contains(#[trigger] r.extra[i].0) by {
            if ki < ex.len() {
                if i != ki {
                    assert(r.extra[i] == ex[i]);
                }
            } else if i < ex.len() {
                assert(r.extra[i] == ex[i]);
            }
        }
    }
}

proof fn lemma_apply_cells_storable(h: Seq<Seq<char>>, cells: Seq<Seq<char>>, n: int)
    requires
        apply_cells(h, cells, n) is Ok,
    ensures
        storable(apply_cells(h, cells, n)->Ok_0),
    decreases n,
{
    if n > 0 {
        lemma_apply_cells_storable(h, cells, n - 1);
        lemma_apply_cell_storable(apply_cells(h, cells, n - 1)->Ok_0, h[n - 1], cells[n - 1]);
    } else {
        assert(blank_expense().extra.len() == 0);
    }
}

proof fn lemma_rows_storable(h: Seq<Seq<char>>, rows: Seq<Seq<Seq<char>>>)
    requires
        rows_spec(h, rows) is Ok,
    ensures
        all_storable(rows_spec(h, rows)->Ok_0),
    decreases rows.len(),
{
    if rows.len() > 0 {
        lemma_rows_storable(h, rows.drop_last());
        let c = rows.last();
        lemma_apply_cells_storable(h, c, min_len(h.len() as int, c.len() as int));
        let es = rows_spec(h, rows.drop_last())->Ok_0;
        let all = rows_spec(h, rows)->Ok_0;
        assert forall|i: int| 0 <= i < all.len() implies storable(#[trigger] all[i]) by {
            if i < es.len() {
                assert(all[i] == es[i]);
            }
        }
    }
}

/// Whatever the file format reads is storable: it is written and read back
/// unchanged but for the normalizations `stored` describes.
pub proof fn lemma_decoded_storable(bytes: Seq<u8>)
    requires
        decode(bytes) is Ok,
    ensures
        all_storable(decode(bytes)->Ok_0),
{
    let (h, rows) = csv_parse(bytes)->Ok_0;
    lemma_rows_storable(h, rows);
}

/// What reading back `e`'s row under the extra columns `keys` gives: an
/// empty text cell reads as none, and every extra column holds its value
/// (empty where `e` had none).
pub open spec fn stored(e: ExpenseView, keys: Seq<Seq<char>>) -> ExpenseView {
    ExpenseView {
        amount: none_if_empty(opt_text(e.amount)),
        currency: none_if_empty(opt_text(e.currency)),
        category: none_if_empty(opt_text(e.category)),
        extra: keys.map_values(|k: Seq<char>| (k, lookup(e.extra, k))),
        ..e
    }
}

/// What reading back the file of `es` gives.
pub open spec fn stored_all(es: Seq<ExpenseView>) -> Seq<ExpenseView> {
    let keys = extra_key_union(es);
    es.map_values(|e: ExpenseView| stored(e, keys))
}

pub open spec fn no_dups(s: Seq<Seq<char>>) -> bool {
    forall|i: int, j: int| 0 <= i < j < s.len() ==> #[trigger] s[i] != #[trigger] s[j]
}

/// Some extra column of some expense of `es` is named `k`.
pub open spec fn some_extra_key(es: Seq<ExpenseView>, k: Seq<char>) -> bool {
    exists|i: int, j: int| 0 <= i < es.len() && 0 <= j < es[i].extra.len() && (#[trigger] es[i].extra[j]).0 == k
}

proof fn lemma_add_keys(keys: Seq<Seq<char>>, pairs: Seq<(Seq<char>, Seq<char>)>)
    requires
        no_dups(keys),
    ensures
        no_dups(add_keys(keys, pairs)),
        forall|x: Seq<char>| #[trigger] add_keys(keys, pairs).contains(x) ==> keys.contains(x) || exists|j: int|
            0 <= j < pairs.len() && (#[trigger] pairs[j]).0 == x,
    decreases pairs.len(),
{
    if pairs.len() > 0 {
        let p0 = pairs.drop_last();
        lemma_add_keys(keys, p0);
        let k2 = add_keys(keys, p0);
        assert forall|x: Seq<char>| #[trigger] add_keys(keys, pairs).contains(x) implies keys.contains(x) || exists|j: int|
            0 <= j < pairs.len() && (#[trigger] pairs[j]).0 == x by {
            if k2.contains(x) {
                if !keys.contains(x) {
                    let j = choose|j: int| 0 <= j < p0.len() && (#[trigger] p0[j]).0 == x;
                    assert(pairs[j] == p0[j]);
                }
            } else {
                assert(pairs[pairs.len() - 1].0 == x);
            }
        }
        if !k2.contains(pairs.last().0) {
            let k3 = k2.push(pairs.last().0);
            assert forall|i: int, j: int| 0 <= i < j < k3.len() implies #[trigger] k3[i] != #[trigger] k3[j] by {
                if j == k3.len() - 1 {
                    assert(k2[i] == k3[i]);
                    if k3[i] == k3[j] {
                        assert(k2.contains(pairs.last().0));
                    }
                } else {
                    assert(k2[i] == k3[i] && k2[j] == k3[j]);
                }
            }
        }
    }
}

proof fn lemma_union_keys(es: Seq<ExpenseView>)
    ensures
        no_dups(extra_key_union(es)),
        forall|x: Seq<char>| #[trigger] extra_key_union(es).contains(x) ==> some_extra_key(es, x),
    decreases es.len(),
{
    if es.len() == 0 {
        assert(no_dups(Seq::<Seq<char>>::empty()));
    } else {
        let e0 = es.drop_last();
        lemma_union_keys(e0);
        lemma_add_keys(extra_key_union(e0), es.last().extra);
        assert forall|x: Seq<char>| #[trigger] extra_key_union(es).contains(x) implies some_extra_key(es, x) by {
            if extra_key_union(e0).contains(x) {
                let (i, j) = choose|i: int, j: int| 0 <= i < e0.len() && 0 <= j < e0[i].extra.len() && (#[trigger] e0[i].extra[j]).0 == x;
                assert(es[i] == e0[i]);
                assert(es[i].extra[j].0 == x);
            } else {
                let j = choose|j: int| 0 <= j < es.last().extra.len() && (#[trigger] es.last().extra[j]).0 == x;
                assert(es[es.len() - 1].extra[j].0 == x);
            }
        }
    }
}

proof fn lemma_interval_named(i: Interval)
    ensures
        i.name_spec().len() > 0,
        interval_named(i.name_spec()) == Some(i),
{
    reveal_strlit("weekly");
    reveal_strlit("monthly");
    reveal_strlit("quarterly");
    reveal_strlit("yearly");
    assert("weekly"@.len() != "monthly"@.len());
    assert("weekly"@.len() != "quarterly"@.len());
    assert("weekly"@[0] != "yearly"@[0]);
    assert("monthly"@.len() != "quarterly"@.len());
    assert("monthly"@.len() != "yearly"@.len());
    assert("quarterly"@.len() != "yearly"@.len());
}

proof fn lemma_column_literals()
    ensures
        known_columns().len() == 8,
        known_columns()[0] == "id"@,
        known_columns()[1] == "name"@,
        known_columns()[2] == "amount"@,
        known_columns()[3] == "currency"@,
        known_columns()[4] == "start_date"@,
        known_columns()[5] == "interval"@,
        known_columns()[6] == "category"@,
        known_columns()[7] == "end_date"@,
        "id"@ != "name"@ && "id"@ != "amount"@ && "id"@ != "currency"@ && "id"@ != "start_date"@,
        "id"@ != "interval"@ && "id"@ != "category"@ && "id"@ != "end_date"@,
        "name"@ != "amount"@ && "name"@ != "currency"@ && "name"@ != "start_date"@,
        "name"@ != "interval"@ && "name"@ != "category"@ && "name"@ != "end_date"@,
        "amount"@ != "currency"@ && "amount"@ != "start_date"@ && "amount"@ != "interval"@,
        "amount"@ != "category"@ && "amount"@ != "end_date"@,
        "currency"@ != "start_date"@ && "currency"@ != "interval"@ && "currency"@ != "category"@,
        "currency"@ != "end_date"@,
        "start_date"@ != "interval"@ && "start_date"@ != "category"@ && "start_date"@ != "end_date"@,
        "interval"@ != "category"@ && "interval"@ != "end_date"@,
        "category"@ != "end_date"@,
{
    reveal_strlit("id");
    reveal_strlit("name");
    reveal_strlit("amount");
    reveal_strlit("currency");
    reveal_strlit("start_date");
    reveal_strlit("interval");
    reveal_strlit("category");
    reveal_strlit("end_date");
    assert("id"@.len() != "name"@.len());
    assert("id"@.len() != "amount"@.len());
    assert("id"@.len() != "currency"@.len());
    assert("id"@.len() != "start_date"@.len());
    assert("id"@.len() != "interval"@.len());
    assert("id"@.len() != "category"@.len());
    assert("id"@.len() != "end_date"@.len());
    assert("name"@.len() != "amount"@.len());
    assert("name"@.len() != "currency"@.len());
    assert("name"@.len() != "start_date"@.len());
    assert("name"@.len() != "interval"@.len());
    assert("name"@.len() != "category"@.len());
    assert("name"@[0] != "end_date"@[0]);
    assert("amount"@.len() != "currency"@.len());
    assert("amount"@.len() != "start_date"@.len());
    assert("amount"@.len() != "interval"@.len());
    assert("amount"@.len() != "category"@.len());
    assert("amount"@.len() != "end_date"@.len());
    assert("currency"@.len() != "start_date"@.len());
    assert("currency"@[0] != "interval"@[0]);
    assert("currency"@[2] != "category"@[2]);
    assert("currency"@[0] != "end_date"@[0]);
    assert("start_date"@.len() != "interval"@.len());
    assert("start_date"@.len() != "category"@.len());
    assert("start_date"@.len() != "end_date"@.len());
    assert("interval"@[0] != "category"@[0]);
    assert("interval"@[0] != "end_date"@[0]);
    assert("category"@[0] != "end_date"@[0]);
}

/// The eight owned cells of a row read back as the owned fields of `stored`.
proof fn lemma_owned_cells(e: ExpenseView, keys: Seq<Seq<char>>)
    requires
        storable(e),
        dates_read_back(e),
    ensures
        apply_cells(known_columns() + keys, row_of(e, keys), 8) == Ok::<ExpenseView, Seq<char>>(
            stored(e, Seq::empty()),
        ),
{
    let h = known_columns() + keys;
    let c = row_of(e, keys);
    lemma_column_literals();
    crate::text::lemma_parse_dec(e.id);
    let b0 = blank_expense();
    let b1 = ExpenseView { id: e.id, ..b0 };
    let b2 = ExpenseView { name: e.name, ..b1 };
    let b3 = ExpenseView { amount: none_if_empty(opt_text(e.amount)), ..b2 };
    let b4 = ExpenseView { currency: none_if_empty(opt_text(e.currency)), ..b3 };
    let b5 = ExpenseView { start_date: e.start_date, ..b4 };
    let b6 = ExpenseView { interval: e.interval, ..b5 };
    let b7 = ExpenseView { category: none_if_empty(opt_text(e.category)), ..b6 };
    let b8 = ExpenseView { end_date: e.end_date, ..b7 };
    assert(h[0] == "id"@ && h[1] == "name"@ && h[2] == "amount"@ && h[3] == "currency"@);
    assert(h[4] == "start_date"@ && h[5] == "interval"@ && h[6] == "category"@ && h[7] == "end_date"@);
    assert(c[0] == crate::text::dec(e.id as nat));
    assert(apply_cells(h, c, 0) == Ok::<ExpenseView, Seq<char>>(b0));
    assert(apply_cells(h, c, 1) == Ok::<ExpenseView, Seq<char>>(b1));
    assert(apply_cells(h, c, 2) == Ok::<ExpenseView, Seq<char>>(b2));
    assert(apply_cells(h, c, 3) == Ok::<ExpenseView, Seq<char>>(b3));
    assert(apply_cells(h, c, 4) == Ok::<ExpenseView, Seq<char>>(b4));
    match e.start_date {
        Some(d) => {
            assert(date_cell(c[4]) == Ok::<Option<Date>, Seq<char>>(Some(d)));
        },
        None => {},
    }
    assert(apply_cells(h, c, 5) == Ok::<ExpenseView, Seq<char>>(b5));
    match e.interval {
        Some(i) => {
            lemma_interval_named(i);
        },
        None => {},
    }
    assert(apply_cells(h, c, 6) == Ok::<ExpenseView, Seq<char>>(b6));
    assert(apply_cells(h, c, 7) == Ok::<ExpenseView, Seq<char>>(b7));
    match e.end_date {
        Some(d) => {
            assert(date_cell(c[7]) == Ok::<Option<Date>, Seq<char>>(Some(d)));
        },
        None => {},
    }
    assert(apply_cells(h, c, 8) == Ok::<ExpenseView, Seq<char>>(b8));
    assert(stored(e, Seq::empty()).extra =~= Seq::<(Seq<char>, Seq<char>)>::empty());
    assert(b8 == stored(e, Seq::empty()));
}

/// The extra cells of a row read back as its extra columns, one by one.
proof fn lemma_extra_cells(e: ExpenseView, keys: Seq<Seq<char>>, m: int)
    requires
        storable(e),
        dates_read_back(e),
        no_dups(keys),
        forall|i: int| 0 <= i < keys.len() ==> !known_columns().contains(#[trigger] keys[i]),
        0 <= m <= keys.len(),
    ensures
        apply_cells(known_columns() + keys, row_of(e, keys), 8 + m) == Ok::<ExpenseView, Seq<char>>(
            stored(e, keys.take(m)),
        ),
    decreases m,
{
    let h = known_columns() + keys;
    let c = row_of(e, keys);
    if m == 0 {
        lemma_owned_cells(e, keys);
        assert(keys.take(0) =~= Seq::<Seq<char>>::empty());
    } else {
        lemma_extra_cells(e, keys, m - 1);
        lemma_column_literals();
        let prev = stored(e, keys.take(m - 1));
        let k = keys[m - 1];
        let v = lookup(e.extra, k);
        assert(h[8 + m - 1] == k);
        assert(c[8 + m - 1] == v);
        assert(!known_columns().contains(k));
        if k == "id"@ { assert(known_columns()[0] == k); }
        if k == "name"@ { assert(known_columns()[1] == k); }
        if k == "amount"@ { assert(known_columns()[2] == k); }
        if k == "currency"@ { assert(known_columns()[3] == k); }
        if k == "start_date"@ { assert(known_columns()[4] == k); }
        if k == "interval"@ { assert(known_columns()[5] == k); }
        if k == "category"@ { assert(known_columns()[6] == k); }
        if k == "end_date"@ { assert(known_columns()[7] == k); }
        let f = |k: Seq<char>| (k, lookup(e.extra, k));
        let pe = prev.extra;
        assert(pe == keys.take(m - 1).map_values(f));
        assert forall|t: int| 0 <= t < pe.len() implies (#[trigger] pe[t]).0 != k by {
            assert(pe[t].0 == keys[t]);
        }
        lemma_key_index(pe, k, pe.len() as int);
        assert(keys.take(m).map_values(f) =~= pe.push((k, v)));
    }
}

proof fn lemma_rows_read_back(es: Seq<ExpenseView>, keys: Seq<Seq<char>>)
    requires
        all_storable(es),
        forall|i: int| 0 <= i < es.len() ==> dates_read_back(#[trigger] es[i]),
        no_dups(keys),
        forall|i: int| 0 <= i < keys.len() ==> !known_columns().contains(#[trigger] keys[i]),
    ensures
        rows_spec(known_columns() + keys, es.map_values(|e: ExpenseView| row_of(e, keys))) == Ok::<
            Seq<ExpenseView>,
            Seq<char>,
        >(es.map_values(|e: ExpenseView| stored(e, keys))),
    decreases es.len(),
{
    if es.len() > 0 {
        let e0 = es.drop_last();
        assert forall|i: int| 0 <= i < e0.len() implies storable(#[trigger] e0[i]) && dates_read_back(e0[i]) by {
            assert(e0[i] == es[i]);
        }
        lemma_rows_read_back(e0, keys);
        let rows = es.map_values(|e: ExpenseView| row_of(e, keys));
        assert(rows.drop_last() =~= e0.map_values(|e: ExpenseView| row_of(e, keys)));
        let e = es.last();
        assert(storable(es[es.len() - 1]) && dates_read_back(es[es.len() - 1]));
        lemma_extra_cells(e, keys, keys.len() as int);
        assert(keys.take(keys.len() as int) =~= keys);
        let h = known_columns() + keys;
        assert(rows.last() == row_of(e, keys));
        assert(min_len(h.len() as int, row_of(e, keys).len() as int) == 8 + keys.len());
        assert(es.map_values(|e: ExpenseView| stored(e, keys)) =~= e0.map_values(
            |e: ExpenseView| stored(e, keys),
        ).push(stored(e, keys)));
    } else {
        assert(es.map_values(|e: ExpenseView| row_of(e, keys)) =~= Seq::<Seq<Seq<char>>>::empty());
        assert(es.map_values(|e: ExpenseView| stored(e, keys)) =~= Seq::<ExpenseView>::empty());
    }
}

/// The rows of the file of `es` read back as `stored_all(es)`.
proof fn lemma_file_reads_back(es: Seq<ExpenseView>)
    requires
        all_storable(es),
        forall|i: int| 0 <= i < es.len() ==> dates_read_back(#[trigger] es[i]),
    ensures
        rows_spec(file_rows(es)[0], file_rows(es).drop_first()) == Ok::<Seq<ExpenseView>, Seq<char>>(
            stored_all(es),
        ),
{
    let keys = extra_key_union(es);
    lemma_union_keys(es);
    assert forall|i: int| 0 <= i < keys.len() implies !known_columns().contains(#[trigger] keys[i]) by {
        assert(keys.contains(keys[i]));
        let (a, b) = choose|a: int, b: int| 0 <= a < es.len() && 0 <= b < es[a].extra.len() && (#[trigger] es[a].extra[b]).0 == keys[i];
        assert(storable(es[a]));
    }
    lemma_rows_read_back(es, keys);
    assert(file_rows(es).drop_first() =~= es.map_values(|e: ExpenseView| row_of(e, keys)));
}

// ----- writing -----
/// The columns that the store owns, in file order.
pub open spec fn known_columns() -> Seq<Seq<char>> {
    seq![
        "id"@,
        "name"@,
        "amount"@,
        "currency"@,
        "start_date"@,
        "interval"@,
        "category"@,
        "end_date"@
    ]
}

/// `keys` followed by the keys of `pairs` not yet among them, in order.
pub open spec fn add_keys(keys: Seq<Seq<char>>, pairs: Seq<(Seq<char>, Seq<char>)>) -> Seq<
    Seq<char>,
>
    decreases pairs.len(),
{
    if pairs.len() == 0 {
        keys
    } else {
        let k2 = add_keys(keys, pairs.drop_last());
        if k2.contains(pairs.last().0) {
            k2
        } else {
            k2.push(pairs.last().0)
        }
    }
}

/// Every extra column name used by the expenses, in order of first use.
pub open spec fn extra_key_union(es: Seq<ExpenseView>) -> Seq<Seq<char>>
    decreases es.len(),
{
    if es.len() == 0 {
        Seq::empty()
    } else {
        add_keys(extra_key_union(es.drop_last()), es.last().extra)
    }
}

/// The value of the first pair with key `k`, or empty.
pub open spec fn lookup(pairs: Seq<(Seq<char>, Seq<char>)>, k: Seq<char>) -> Seq<char>
    decreases pairs.len(),
{
    if pairs.len() == 0 {
        Seq::empty()
    } else {
        let prev = lookup(pairs.drop_last(), k);
        if exists|i: int| 0 <= i < pairs.len() - 1 && (#[trigger] pairs[i]).0 == k {
            prev
        } else if pairs.last().0 == k {
            pairs.last().1
        } else {
            Seq::empty()
        }
    }
}

pub open spec fn opt_text(o: Option<Seq<char>>) -> Seq<char> {
    match o {
        Some(s) => s,
        None => Seq::empty(),
    }
}

pub open spec fn date_text(o: Option<Date>) -> Seq<char> {
    match o {
        Some(d) => chrono_display(d.year as int, d.month as int, d.day as int),
        None => Seq::empty(),
    }
}

pub open spec fn interval_text(o: Option<Interval>) -> Seq<char> {
    match o {
        Some(i) => i.name_spec(),
        None => Seq::empty(),
    }
}

/// The cells of one expense's row under the given extra columns.
pub open spec fn row_of(e: ExpenseView, keys: Seq<Seq<char>>) -> Seq<Seq<char>> {
    seq![
        crate::text::dec(e.id as nat),
        e.name,
        opt_text(e.amount),
        opt_text(e.currency),
        date_text(e.start_date),
        interval_text(e.interval),
        opt_text(e.category),
        date_text(e.end_date)
    ] + keys.map_values(|k: Seq<char>| lookup(e.extra, k))
}

/// All rows of the file: the header, then one row per expense.
pub open spec fn file_rows(es: Seq<ExpenseView>) -> Seq<Seq<Seq<char>>> {
    let keys = extra_key_union(es);
    seq![known_columns() + keys] + es.map_values(|e: ExpenseView| row_of(e, keys))
}

/// The bytes of the CSV file that holds `es`.
pub open spec fn encode(es: Seq<ExpenseView>) -> Seq<u8> {
    csv_written(file_rows(es))
}

fn contains_key(keys: &Vec<String>, k: &String) -> (r: bool)
    ensures
        r == strings_view(keys@).contains(k@),
{
    let ghost kv = strings_view(keys@);
    let mut i: usize = 0;
    while i < keys.len()
        invariant
            kv == strings_view(keys@),
            i <= keys@.len(),
            forall|t: int| 0 <= t < i ==> kv[t] != k@,
        decreases keys@.len() - i,
    {
        if str_eq(keys[i].as_str(), k.as_str()) {
            assert(kv[i as int] == k@);
            return true;
        }
        i = i + 1;
    }
    false
}

/// The extra column names of `entries`, in order of first use.
pub fn extra_key_union_exec(entries: &Vec<Expense>) -> (r: Vec<String>)
    ensures
        strings_view(r@) == extra_key_union(views(entries@)),
{
    let ghost ev = views(entries@);
    let mut keys: Vec<String> = Vec::new();
    let mut i: usize = 0;
    while i < entries.len()
        invariant
            ev == views(entries@),
            i <= entries@.len(),
            strings_view(keys@) == extra_key_union(ev.take(i as int)),
        decreases entries@.len() - i,
    {
        let extra = &entries[i].extra;
        let ghost pv = pairs_view(extra@);
        assert(ev.take(i + 1).drop_last() =~= ev.take(i as int));
        assert(ev.take(i + 1).last().extra == pv);
        let ghost base = strings_view(keys@);
        let mut j: usize = 0;
        while j < extra.len()
            invariant
                pv == pairs_view(extra@),
                j <= extra@.len(),
                strings_view(keys@) == add_keys(base, pv.take(j as int)),
            decreases extra@.len() - j,
        {
            assert(pv.take(j + 1).drop_last() =~= pv.take(j as int));
            assert(pv.take(j + 1).last().0 == extra@[j as int].0@);
            if !contains_key(&keys, &extra[j].0) {
                let ghost before = keys@;
                keys.push(clone_string(&extra[j].0));
                assert(strings_view(keys@) =~= strings_view(before).push(extra@[j as int].0@));
            }
            j = j + 1;
        }
        assert(pv.take(j as int) =~= pv);
        i = i + 1;
    }
    assert(ev.take(i as int) =~= ev);
    keys
}

fn lookup_exec(pairs: &Vec<(String, String)>, k: &String) -> (r: String)
    ensures
        r@ == lookup(pairs_view(pairs@), k@),
{
    let ghost pv = pairs_view(pairs@);
    let mut i: usize = 0;
    while i < pairs.len()
        invariant
            pv == pairs_view(pairs@),
            i <= pairs@.len(),
            forall|t: int| 0 <= t < i ==> (#[trigger] pv[t]).0 != k@,
        decreases pairs@.len() - i,
    {
        if str_eq(pairs[i].0.as_str(), k.as_str()) {
            proof {
                lemma_lookup_first(pv, k@, i as int);
            }
            return clone_string(&pairs[i].1);
        }
        i = i + 1;
    }
    proof {
        lemma_lookup_none(pv, k@);
    }
    String::new()
}

proof fn lemma_lookup_first(pairs: Seq<(Seq<char>, Seq<char>)>, k: Seq<char>, i: int)
    requires
        0 <= i < pairs.len(),
        pairs[i].0 == k,
        forall|t: int| 0 <= t < i ==> (#[trigger] pairs[t]).0 != k,
    ensures
        lookup(pairs, k) == pairs[i].1,
    decreases pairs.len(),
{
    if i < pairs.len() - 1 {
        assert(pairs.drop_last()[i] == pairs[i]);
        lemma_lookup_first(pairs.drop_last(), k, i);
        assert(pairs[i].0 == k);
    } else {
        assert forall|t: int| 0 <= t < pairs.len() - 1 implies (#[trigger] pairs[t]).0 != k by {}
    }
}

proof fn lemma_lookup_none(pairs: Seq<(Seq<char>, Seq<char>)>, k: Seq<char>)
    requires
        forall|t: int| 0 <= t < pairs.len() ==> (#[trigger] pairs[t]).0 != k,
    ensures
        lookup(pairs, k) == Seq::<char>::empty(),
    decreases pairs.len(),
{
    if pairs.len() > 0 {
        assert forall|t: int| 0 <= t < pairs.drop_last().len() implies (
        #[trigger] pairs.drop_last()[t]).0 != k by {
            assert(pairs.drop_last()[t] == pairs[t]);
        }
        lemma_lookup_none(pairs.drop_last(), k);
    }
}

fn opt_cell(o: &Option<String>) -> (r: String)
    ensures
        r@ == opt_text(opt_view(*o)),
{
    match o {
        Some(s) => clone_string(s),
        None => String::new(),
    }
}

fn date_cell_text(o: &Option<Date>) -> (r: String)
    requires
        o matches Some(d) ==> d.valid(),
    ensures
        r@ == date_text(*o),
        date_reads_back(*o),
{
    match o {
        Some(d) => date_to_string(d),
        None => String::new(),
    }
}

/// The cells of `e`'s row.
fn expense_to_row(e: &Expense, keys: &Vec<String>) -> (r: Vec<String>)
    requires
        e@.wf(),
    ensures
        strings_view(r@) == row_of(e@, strings_view(keys@)),
        r@.len() == 8 + keys@.len(),
        date_reads_back(e.start_date),
        date_reads_back(e.end_date),
{
    let mut row: Vec<String> = Vec::new();
    row.push(crate::text::u64_to_string(e.id));
    row.push(clone_string(&e.name));
    row.push(opt_cell(&e.amount));
    row.push(opt_cell(&e.currency));
    row.push(date_cell_text(&e.start_date));
    row.push(
        match &e.interval {
            Some(i) => string_of(i.name()),
            None => String::new(),
        },
    );
    row.push(opt_cell(&e.category));
    row.push(date_cell_text(&e.end_date));
    let ghost base = row@;
    let ghost kv = strings_view(keys@);
    assert(strings_view(base) =~= seq![
        crate::text::dec(e.id as nat),
        e@.name,
        opt_text(e@.amount),
        opt_text(e@.currency),
        date_text(e@.start_date),
        interval_text(e@.interval),
        opt_text(e@.category),
        date_text(e@.end_date)
    ]);
    let mut i: usize = 0;
    while i < keys.len()
        invariant
            kv == strings_view(keys@),
            i <= keys@.len(),
            row@.len() == 8 + i,
            strings_view(row@) == strings_view(base) + kv.take(i as int).map_values(
                |k: Seq<char>| lookup(e@.extra, k),
            ),
        decreases keys@.len() - i,
    {
        let v = lookup_exec(&e.extra, &keys[i]);
        let ghost before = row@;
        row.push(v);
        proof {
            let f = |k: Seq<char>| lookup(e@.extra, k);
            assert(strings_view(row@) =~= strings_view(before).push(v@));
            assert(kv.take(i + 1) =~= kv.take(i as int).push(kv[i as int]));
            assert(kv.take(i + 1).map_values(f) =~= kv.take(i as int).map_values(f).push(f(kv[i as int])));
            assert(kv[i as int] == keys@[i as int]@);
            assert(strings_view(row@) =~= strings_view(base) + kv.take(i + 1).map_values(f));
        }
        i = i + 1;
    }
    assert(kv.take(i as int) =~= kv);
    row
}

/// The bytes of the CSV file that holds `entries`: the owned columns, then
/// every extra column in order of first use, one row per expense.
pub fn encode_expenses(entries: &Vec<Expense>) -> (r: Vec<u8>)
    requires
        forall|i: int| 0 <= i < entries@.len() ==> (#[trigger] entries@[i])@.wf(),
    ensures
        r@ == encode(views(entries@)),
        decode(r@) == rows_spec(file_rows(views(entries@))[0], file_rows(views(entries@)).drop_first()),
        all_storable(views(entries@)) ==> decode(r@) == Ok::<Seq<ExpenseView>, Seq<char>>(
            stored_all(views(entries@)),
        ),
{
    let ghost ev = views(entries@);
    let keys = extra_key_union_exec(entries);
    let ghost kv = strings_view(keys@);
    let mut header: Vec<String> = Vec::new();
    header.push(string_of("id"));
    header.push(string_of("name"));
    header.push(string_of("amount"));
    header.push(string_of("currency"));
    header.push(string_of("start_date"));
    header.push(string_of("interval"));
    header.push(string_of("category"));
    header.push(string_of("end_date"));
    let mut k: usize = 0;
    while k < keys.len()
        invariant
            kv == strings_view(keys@),
            k <= keys@.len(),
            strings_view(header@) == known_columns() + kv.take(k as int),
        decreases keys@.len() - k,
    {
        let ghost before = header@;
        let key = clone_string(&keys[k]);
        header.push(key);
        proof {
            assert(strings_view(header@) =~= strings_view(before).push(key@));
            assert(kv.take(k + 1) =~= kv.take(k as int).push(kv[k as int]));
            assert(strings_view(header@) =~= known_columns() + kv.take(k + 1));
        }
        k = k + 1;
    }
    assert(kv.take(k as int) =~= kv);
    let ncols = header.len();
    let mut rows: Vec<Vec<String>> = Vec::new();
    rows.push(header);
    let mut i: usize = 0;
    while i < entries.len()
        invariant
            ev == views(entries@),
            kv == strings_view(keys@),
            kv == extra_key_union(ev),
            forall|t: int| 0 <= t < entries@.len() ==> (#[trigger] entries@[t])@.wf(),
            i <= entries@.len(),
            rows@.len() == i + 1,
            ncols == 8 + kv.len(),
            forall|t: int| 0 <= t < rows@.len() ==> (#[trigger] rows@[t])@.len() == ncols,
            records_view(rows@) == file_rows(ev).take(i + 1),
            forall|t: int| 0 <= t < i ==> #[trigger] dates_read_back(ev[t]),
        decreases entries@.len() - i,
    {
        let row = expense_to_row(&entries[i], &keys);
        assert(dates_read_back(ev[i as int]));
        let ghost before = rows@;
        rows.push(row);
        assert(records_view(rows@) =~= file_rows(ev).take(i + 2));
        i = i + 1;
    }
    assert(file_rows(ev).take(i + 1) =~= file_rows(ev));
    proof {
        reveal_strlit("id");
        assert(records_view(rows@)[0] == known_columns() + kv);
        assert(records_view(rows@)[0][0] == "id"@);
    }
    let r = write_records(&rows);
    proof {
        if all_storable(ev) {
            lemma_file_reads_back(ev);
        }
    }
    r
}

} // verus!
