//! The older commands around the note store: the slug that names a note's
//! file, the currency that the locale suggests when adding an expense, and
//! the older listing (its rows, labels and table).
use vstd::prelude::*;

use crate::currency::{iso_currency, iso_find, join_seq, to_lowercase, to_uppercase, unicode_lower, unicode_upper};
use crate::date::Date;
use crate::expense::{lemma_next_payment_is_spec, next_payment_spec, opt_view, string_of, Expense, Interval};
use crate::text::{chars_of, dec, is_whitespace, is_ws, lower_seq, push_char, push_str, usize_to_string};
use vstd::utf8::is_ascii_chars;
use crate::timeline::byte_len;
use crate::ui::{char_width, pad_end, pad_start, spaces};
use crate::listing::dashes;

verus! {

/// The words of `s`: its maximal runs of characters that are not whitespace,
/// as `str::split_whitespace` yields them.
pub open spec fn words(s: Seq<char>) -> Seq<Seq<char>>
    decreases s.len(),
{
    if s.len() == 0 {
        Seq::empty()
    } else {
        let w = words(s.drop_last());
        let c = s.last();
        if is_ws(c) {
            w
        } else if s.len() >= 2 && !is_ws(s[s.len() - 2]) {
            w.drop_last().push(w.last().push(c))
        } else {
            w.push(seq![c])
        }
    }
}

/// Whether `char::is_alphanumeric` holds: the Unicode `Alphabetic` property or
/// a numeric general category (`Nd`, `Nl`, `No`).
pub uninterp spec fn unicode_alphanumeric(c: char) -> bool;

/// `char::is_alphanumeric`, its result named by `unicode_alphanumeric`. Among
/// ASCII characters, std's documentation makes it hold of letters and digits only.
#[verifier::external_body]
fn is_alphanumeric(c: char) -> (r: bool)
    ensures
        r == unicode_alphanumeric(c),
        (c as u32) < 128 ==> (r <==> ('a' <= c <= 'z' || 'A' <= c <= 'Z' || '0' <= c <= '9')),
{
    c.is_alphanumeric()
}

/// The characters of `s` that are alphanumeric or `-`, in order.
pub open spec fn slug_chars(s: Seq<char>) -> Seq<char>
    decreases s.len(),
{
    if s.len() == 0 {
        Seq::empty()
    } else {
        let prev = slug_chars(s.drop_last());
        if unicode_alphanumeric(s.last()) || s.last() == '-' {
            prev.push(s.last())
        } else {
            prev
        }
    }
}

/// The slug of a name: lower-cased, its words joined by `-`, and everything
/// but alphanumerics and `-` dropped.
pub open spec fn slug_spec(name: Seq<char>) -> Seq<char> {
    slug_chars(join_seq(words(unicode_lower(name)), "-"@))
}

proof fn lemma_join_extend_last(w: Seq<Seq<char>>, c: char)
    requires
        w.len() > 0,
    ensures
        join_seq(w.drop_last().push(w.last().push(c)), "-"@) == join_seq(w, "-"@).push(c),
{
    let w2 = w.drop_last().push(w.last().push(c));
    assert(w2.drop_last() =~= w.drop_last());
    if w.len() == 1 {
        assert(w2.len() == 1);
    } else {
        assert(join_seq(w2, "-"@) =~= join_seq(w.drop_last(), "-"@) + "-"@ + w.last().push(c));
    }
}

/// An ASCII letter or digit.
pub open spec fn ascii_alnum(c: char) -> bool {
    ('a' <= c <= 'z') || ('A' <= c <= 'Z') || ('0' <= c <= '9')
}

/// The ASCII letters, digits and `-` of `s`, in order.
pub open spec fn ascii_slug_chars(s: Seq<char>) -> Seq<char>
    decreases s.len(),
{
    if s.len() == 0 {
        Seq::empty()
    } else {
        let prev = ascii_slug_chars(s.drop_last());
        if ascii_alnum(s.last()) || s.last() == '-' {
            prev.push(s.last())
        } else {
            prev
        }
    }
}

/// The slug that names a note's file. For an ASCII name: lower-cased, its
/// words joined by `-`, and all but ASCII letters, digits and `-` dropped.
pub fn slugify(name: &str) -> (r: String)
    ensures
        r@ == slug_spec(name@),
        is_ascii_chars(name@) ==> r@ == ascii_slug_chars(join_seq(words(lower_seq(name@)), "-"@)),
{
    let lower = to_lowercase(name);
    let cs = chars_of(lower.as_str());
    let ghost s = lower@;
    let mut joined = String::new();
    let mut in_word = false;
    let mut any_word = false;
    let mut i: usize = 0;
    assert(s.take(0) =~= Seq::<char>::empty());
    while i < cs.len()
        invariant
            cs@ == s,
            i <= s.len(),
            joined@ == join_seq(words(s.take(i as int)), "-"@),
            in_word == (i > 0 && !is_ws(s[i - 1])),
            any_word == (words(s.take(i as int)).len() > 0),
            in_word ==> any_word,
            is_ascii_chars(s) ==> is_ascii_chars(joined@),
        decreases s.len() - i,
    {
        let c = cs[i];
        let ghost w = words(s.take(i as int));
        assert(s.take(i + 1).drop_last() =~= s.take(i as int));
        assert(s.take(i + 1).last() == c);
        if is_whitespace(c) {
            in_word = false;
        } else if in_word {
            proof {
                lemma_join_extend_last(w, c);
            }
            push_char(&mut joined, c);
        } else {
            if any_word {
                push_char(&mut joined, '-');
                proof {
                    reveal_strlit("-");
                }
                assert(w.push(seq![c]).drop_last() =~= w);
                assert(joined@.push(c) =~= join_seq(w, "-"@) + "-"@ + seq![c]);
            } else {
                assert(w.push(seq![c]) =~= seq![seq![c]]);
                assert(joined@.push(c) =~= seq![c]);
            }
            push_char(&mut joined, c);
            in_word = true;
            any_word = true;
        }
        i = i + 1;
    }
    assert(s.take(i as int) =~= s);
    let js = chars_of(joined.as_str());
    let ghost j = joined@;
    let mut out = String::new();
    let mut k: usize = 0;
    assert(j.take(0) =~= Seq::<char>::empty());
    while k < js.len()
        invariant
            js@ == j,
            k <= j.len(),
            out@ == slug_chars(j.take(k as int)),
            is_ascii_chars(j) ==> out@ == ascii_slug_chars(j.take(k as int)),
        decreases j.len() - k,
    {
        let c = js[k];
        assert(j.take(k + 1).drop_last() =~= j.take(k as int));
        assert(j.take(k + 1).last() == c);
        if is_alphanumeric(c) || c == '-' {
            push_char(&mut out, c);
        }
        k = k + 1;
    }
    assert(j.take(k as int) =~= j);
    proof {
        if is_ascii_chars(name@) {
            assert(s == lower_seq(name@));
            assert(is_ascii_chars(s)) by {
                assert forall|i: int| 0 <= i < s.len() implies '\0' <= #[trigger] s[i] <= '\u{7f}' by {
                    assert(s[i] == crate::text::lower(name@[i]));
                }
            }
        }
    }
    out
}

/// The currency used in a country, by its ISO 3166 code.
pub open spec fn country_currency_spec(c: Seq<char>) -> Option<Seq<char>> {
    if c == "US"@ || c == "EC"@ || c == "SV"@ || c == "PA"@ { Some("usd"@) }
    else if c == "GB"@ { Some("gbp"@) }
    else if c == "AU"@ { Some("aud"@) }
    else if c == "CA"@ { Some("cad"@) }
    else if c == "CH"@ { Some("chf"@) }
    else if c == "CN"@ { Some("cny"@) }
    else if c == "JP"@ { Some("jpy"@) }
    else if c == "KR"@ { Some("krw"@) }
    else if c == "SE"@ { Some("sek"@) }
    else if c == "NO"@ { Some("nok"@) }
    else if c == "DK"@ { Some("dkk"@) }
    else if c == "NZ"@ { Some("nzd"@) }
    else if c == "SG"@ { Some("sgd"@) }
    else if c == "HK"@ { Some("hkd"@) }
    else if c == "IN"@ { Some("inr"@) }
    else if c == "BR"@ { Some("brl"@) }
    else if c == "MX"@ { Some("mxn"@) }
    else if c == "RU"@ { Some("rub"@) }
    else if c == "ZA"@ { Some("zar"@) }
    else if c == "PL"@ { Some("pln"@) }
    else if c == "CZ"@ { Some("czk"@) }
    else if c == "HU"@ { Some("huf"@) }
    else if c == "RO"@ { Some("ron"@) }
    else if c == "TR"@ { Some("try"@) }
    else if c == "IL"@ { Some("ils"@) }
    else if c == "TH"@ { Some("thb"@) }
    else if c == "MY"@ { Some("myr"@) }
    else if c == "ID"@ { Some("idr"@) }
    else if c == "PH"@ { Some("php"@) }
    else if c == "UA"@ { Some("uah"@) }
    else if c == "AR"@ { Some("ars"@) }
    else if c == "CL"@ { Some("clp"@) }
    else if c == "CO"@ { Some("cop"@) }
    else if c == "PE"@ { Some("pen"@) }
    else if c == "VN"@ { Some("vnd"@) }
    else if c == "BD"@ { Some("bdt"@) }
    else if c == "PK"@ { Some("pkr"@) }
    else if c == "EG"@ { Some("egp"@) }
    else if c == "NG"@ { Some("ngn"@) }
    else if c == "KE"@ { Some("kes"@) }
    else if c == "DE"@ || c == "FR"@ || c == "IT"@ || c == "ES"@ || c == "NL"@ || c == "BE"@
        || c == "AT"@ || c == "PT"@ || c == "FI"@ || c == "IE"@ || c == "GR"@ || c == "SK"@
        || c == "SI"@ || c == "LU"@ || c == "CY"@ || c == "MT"@ || c == "EE"@ || c == "LV"@
        || c == "LT"@ { Some("eur"@) }
    else { None }
}

fn is(a: &str, b: &str) -> (r: bool)
    ensures
        r == (a@ == b@),
{
    crate::text::str_eq(a, b)
}

/// The currency of a country, by its upper-case ISO 3166 code.
pub fn country_to_currency(country: &str) -> (r: Option<&'static str>)
    ensures
        match r {
            Some(c) => country_currency_spec(country@) == Some(c@),
            None => country_currency_spec(country@) is None,
        },
{
    let c = country;
    if is(c, "US") || is(c, "EC") || is(c, "SV") || is(c, "PA") { Some("usd") }
    else if is(c, "GB") { Some("gbp") }
    else if is(c, "AU") { Some("aud") }
    else if is(c, "CA") { Some("cad") }
    else if is(c, "CH") { Some("chf") }
    else if is(c, "CN") { Some("cny") }
    else if is(c, "JP") { Some("jpy") }
    else if is(c, "KR") { Some("krw") }
    else if is(c, "SE") { Some("sek") }
    else if is(c, "NO") { Some("nok") }
    else if is(c, "DK") { Some("dkk") }
    else if is(c, "NZ") { Some("nzd") }
    else if is(c, "SG") { Some("sgd") }
    else if is(c, "HK") { Some("hkd") }
    else if is(c, "IN") { Some("inr") }
    else if is(c, "BR") { Some("brl") }
    else if is(c, "MX") { Some("mxn") }
    else if is(c, "RU") { Some("rub") }
    else if is(c, "ZA") { Some("zar") }
    else if is(c, "PL") { Some("pln") }
    else if is(c, "CZ") { Some("czk") }
    else if is(c, "HU") { Some("huf") }
    else if is(c, "RO") { Some("ron") }
    else if is(c, "TR") { Some("try") }
    else if is(c, "IL") { Some("ils") }
    else if is(c, "TH") { Some("thb") }
    else if is(c, "MY") { Some("myr") }
    else if is(c, "ID") { Some("idr") }
    else if is(c, "PH") { Some("php") }
    else if is(c, "UA") { Some("uah") }
    else if is(c, "AR") { Some("ars") }
    else if is(c, "CL") { Some("clp") }
    else if is(c, "CO") { Some("cop") }
    else if is(c, "PE") { Some("pen") }
    else if is(c, "VN") { Some("vnd") }
    else if is(c, "BD") { Some("bdt") }
    else if is(c, "PK") { Some("pkr") }
    else if is(c, "EG") { Some("egp") }
    else if is(c, "NG") { Some("ngn") }
    else if is(c, "KE") { Some("kes") }
    else if is(c, "DE") || is(c, "FR") || is(c, "IT") || is(c, "ES") || is(c, "NL") || is(c, "BE")
        || is(c, "AT") || is(c, "PT") || is(c, "FI") || is(c, "IE") || is(c, "GR") || is(c, "SK")
        || is(c, "SI") || is(c, "LU") || is(c, "CY") || is(c, "MT") || is(c, "EE") || is(c, "LV")
        || is(c, "LT") { Some("eur") }
    else { None }
}

/// The part of `s` before the first `c` (all of `s` without one).
pub open spec fn before_char(s: Seq<char>, c: char) -> Seq<char> {
    s.take(crate::csv_format::first_index(s, c, c))
}

/// The part of `s` after the first `c`, when there is one.
pub open spec fn after_char(s: Seq<char>, c: char) -> Option<Seq<char>> {
    let i = crate::csv_format::first_index(s, c, c);
    if i < s.len() {
        Some(s.skip(i + 1))
    } else {
        None
    }
}

/// The country of a locale such as `en_US.UTF-8`: the second `_`-separated
/// part of what precedes the first `.`.
pub open spec fn locale_country(value: Seq<char>) -> Option<Seq<char>> {
    match after_char(before_char(value, '.'), '_') {
        Some(rest) => Some(before_char(rest, '_')),
        None => None,
    }
}

/// What the locale variables decide, taken in order (`LC_MONETARY`,
/// `LC_ALL`, `LANG`; unset ones are `None`): the first set one whose
/// country has a currency gives it; a set one without a country ends the search.
pub open spec fn locale_currency_spec(values: Seq<Option<Seq<char>>>) -> Option<Seq<char>>
    decreases values.len(),
{
    if values.len() == 0 {
        None
    } else {
        match values[0] {
            None => locale_currency_spec(values.drop_first()),
            Some(v) => match locale_country(v) {
                None => None,
                Some(c) => match country_currency_spec(c) {
                    Some(cur) => Some(cur),
                    None => locale_currency_spec(values.drop_first()),
                },
            },
        }
    }
}

/// The index of the first `c` in `v[from..]`, or `v.len()`.
pub(crate) fn find_char(v: &Vec<char>, from: usize, c: char) -> (r: usize)
    requires
        from <= v@.len(),
    ensures
        from <= r <= v@.len(),
        r == from + crate::csv_format::first_index(v@.skip(from as int), c, c),
{
    let ghost s = v@.skip(from as int);
    let mut i = from;
    while i < v.len() && v[i] != c
        invariant
            from <= i <= v@.len(),
            s == v@.skip(from as int),
            forall|t: int| from <= t < i ==> v@[t] != c,
        decreases v@.len() - i,
    {
        i = i + 1;
    }
    proof {
        if i < v@.len() {
            crate::csv_format::lemma_first_index_found(s, c, c, i - from);
        } else {
            crate::csv_format::lemma_first_index_none(s, c, c);
        }
    }
    i
}

/// The country part of a locale value, when it has one.
pub fn country_of_locale(value: &str) -> (r: Option<String>)
    ensures
        match r {
            Some(c) => locale_country(value@) == Some(c@),
            None => locale_country(value@) is None,
        },
{
    let v = chars_of(value);
    let dot = find_char(&v, 0, '.');
    let ghost loc = before_char(value@, '.');
    assert(v@.skip(0) =~= v@);
    assert(loc =~= v@.subrange(0, dot as int));
    let loc_v = crate::text::chars_of(crate::text::string_from_slice(v.as_slice(), 0, dot).as_str());
    assert(loc_v@ =~= loc);
    let us = find_char(&loc_v, 0, '_');
    assert(loc_v@.skip(0) =~= loc_v@);
    if us >= loc_v.len() {
        return None;
    }
    let rest_start = us + 1;
    let end = find_char(&loc_v, rest_start, '_');
    let c = crate::text::string_from_slice(loc_v.as_slice(), rest_start, end);
    assert(c@ =~= before_char(loc.skip(us + 1), '_'));
    Some(c)
}

/// The currency the locale variables point to (see `locale_currency_spec`).
pub fn locale_currency(values: &Vec<Option<String>>) -> (r: Option<String>)
    ensures
        opt_view(r) == locale_currency_spec(values@.map_values(|o: Option<String>| opt_view(o))),
{
    let ghost vs = values@.map_values(|o: Option<String>| opt_view(o));
    let mut i: usize = 0;
    assert(vs.skip(0) =~= vs);
    while i < values.len()
        invariant
            vs == values@.map_values(|o: Option<String>| opt_view(o)),
            i <= values@.len(),
            locale_currency_spec(vs) == locale_currency_spec(vs.skip(i as int)),
        decreases values@.len() - i,
    {
        assert(vs.skip(i as int)[0] == opt_view(values@[i as int]));
        assert(vs.skip(i as int).drop_first() =~= vs.skip(i + 1));
        match &values[i] {
            None => {},
            Some(v) => match country_of_locale(v.as_str()) {
                None => return None,
                Some(c) => match country_to_currency(c.as_str()) {
                    Some(cur) => return Some(string_of(cur)),
                    None => {},
                },
            },
        }
        i = i + 1;
    }
    None
}

/// How far ahead `days` is, in the largest whole unit: today, days, weeks
/// (7 to 29 days), months of 30 days, or years of 365 days.
pub open spec fn format_days_spec(days: int) -> Seq<char> {
    if days == 0 {
        "today"@
    } else if 1 <= days <= 6 {
        "in "@ + count_text(days, "day"@)
    } else if 7 <= days <= 29 {
        "in "@ + count_text(days / 7, "week"@)
    } else if 30 <= days <= 364 {
        "in "@ + count_text(days / 30, "month"@)
    } else {
        "in "@ + count_text(trunc_div(days, 365), "year"@)
    }
}

/// `n` units, the unit in the plural unless `n` is one: "1 day", "3 weeks".
pub open spec fn count_text(n: int, unit: Seq<char>) -> Seq<char> {
    int_text(n) + " "@ + unit + if n == 1 { Seq::<char>::empty() } else { "s"@ }
}

/// Integer division rounding toward zero, as `/` on machine integers does.
pub open spec fn trunc_div(a: int, b: int) -> int {
    if a >= 0 {
        a / b
    } else {
        -((-a) / b)
    }
}

/// An integer as `Display` writes it.
pub open spec fn int_text(n: int) -> Seq<char> {
    if n < 0 {
        "-"@ + crate::text::dec((-n) as nat)
    } else {
        crate::text::dec(n as nat)
    }
}

fn push_count(s: &mut String, n: i64, unit: &str)
    ensures
        final(s)@ == old(s)@ + count_text(n as int, unit@),
{
    let ghost s0 = s@;
    if n < 0 {
        crate::text::push_str(s, "-");
        let m = crate::text::u64_to_string((0 - (n as i128)) as u64);
        crate::text::push_str(s, m.as_str());
        assert(s@ =~= s0 + int_text(n as int));
    } else {
        let m = crate::text::u64_to_string(n as u64);
        crate::text::push_str(s, m.as_str());
        assert(s@ =~= s0 + int_text(n as int));
    }
    crate::text::push_str(s, " ");
    crate::text::push_str(s, unit);
    if n != 1 {
        crate::text::push_str(s, "s");
    }
    assert(s@ =~= s0 + count_text(n as int, unit@));
}

/// A count of days ahead as words: "today", "in 3 days", "in 2 weeks", ...
pub fn format_days(days: i64) -> (r: String)
    ensures
        r@ == format_days_spec(days as int),
{
    if days == 0 {
        return string_of("today");
    }
    let mut s = string_of("in ");
    if 1 <= days && days <= 6 {
        push_count(&mut s, days, "day");
    } else if 7 <= days && days <= 29 {
        push_count(&mut s, days / 7, "week");
    } else if 30 <= days && days <= 364 {
        push_count(&mut s, days / 30, "month");
    } else {
        let neg = days < 0;
        let mag: u64 = if neg { (0 - (days as i128)) as u64 } else { days as u64 };
        let q: u64 = mag / 365;
        let y: i64 = if neg { 0 - (q as i64) } else { q as i64 };
        assert(y as int == trunc_div(days as int, 365));
        push_count(&mut s, y, "year");
    }
    s
}

/// The unit shown after an amount: `/week`, `/month`, `/quarter`, `/year`.
pub fn interval_label(interval: &Interval) -> (r: &'static str)
    ensures
        r@ == match *interval {
            Interval::Weekly => "/week"@,
            Interval::Monthly => "/month"@,
            Interval::Quarterly => "/quarter"@,
            Interval::Yearly => "/year"@,
        },
{
    match interval {
        Interval::Weekly => "/week",
        Interval::Monthly => "/month",
        Interval::Quarterly => "/quarter",
        Interval::Yearly => "/year",
    }
}

/// The interval's unit: `week`, `month`, `quarter`, `year`.
pub open spec fn interval_unit(i: Interval) -> Seq<char> {
    match i {
        Interval::Weekly => "week"@,
        Interval::Monthly => "month"@,
        Interval::Quarterly => "quarter"@,
        Interval::Yearly => "year"@,
    }
}

fn interval_unit_exec(i: &Interval) -> (r: &'static str)
    ensures
        r@ == interval_unit(*i),
{
    match i {
        Interval::Weekly => "week",
        Interval::Monthly => "month",
        Interval::Quarterly => "quarter",
        Interval::Yearly => "year",
    }
}

/// The symbol of the currency that `code` names, found by its upper case.
pub open spec fn symbol_spec(code: Seq<char>) -> Option<Seq<char>> {
    match iso_currency(unicode_upper(code)) {
        Some((_, s, _)) => Some(s),
        None => None,
    }
}

/// The symbol of the currency that `code` names, when there is one.
pub fn currency_symbol(code: &str) -> (r: Option<String>)
    ensures
        opt_view(r) == symbol_spec(code@),
{
    let up = to_uppercase(code);
    match iso_find(up.as_str()) {
        Some(c) => Some(c.symbol),
        None => None,
    }
}

/// The rate column: the currency symbol and `/unit` (`$/month`), the
/// symbol alone, the unit alone, or nothing.
pub open spec fn rate_cell_spec(symbol: Option<Seq<char>>, interval: Option<Interval>) -> Seq<char> {
    match (symbol, interval) {
        (Some(s), Some(i)) => s + "/"@ + interval_unit(i),
        (Some(s), None) => s,
        (None, Some(i)) => interval_unit(i),
        (None, None) => Seq::empty(),
    }
}

/// The rate column of an expense with currency symbol `symbol`.
pub fn rate_cell(symbol: Option<&str>, interval: Option<Interval>) -> (r: String)
    ensures
        r@ == rate_cell_spec(
            match symbol {
                Some(s) => Some(s@),
                None => None,
            },
            interval,
        ),
{
    let mut r = String::new();
    match symbol {
        Some(s) => push_str(&mut r, s),
        None => {},
    }
    match interval {
        Some(i) => {
            if symbol.is_some() {
                push_str(&mut r, "/");
            }
            push_str(&mut r, interval_unit_exec(&i));
        },
        None => {},
    }
    assert(r@ =~= rate_cell_spec(
        match symbol {
            Some(s) => Some(s@),
            None => None,
        },
        interval,
    ));
    r
}

/// The due column: when the next payment is, in words, for an expense
/// with a start date and an interval.
pub open spec fn due_text(e: Expense, today: Date) -> Seq<char> {
    match (e.start_date, e.interval) {
        (Some(f), Some(i)) => format_days_spec(next_payment_spec(i, f, today).ord() - today.ord()),
        _ => Seq::empty(),
    }
}

/// The cells of the older listing's row for expense number `index` (from
/// 0): `@id`, name, amount (`-` without one), rate and due.
pub open spec fn note_row_spec(index: int, e: Expense, today: Date, amount_text: Option<Seq<char>>) -> Seq<Seq<char>> {
    seq![
        "@"@ + dec((index + 1) as nat),
        e.name@,
        match amount_text {
            Some(a) => a,
            None => "-"@,
        },
        rate_cell_spec(
            match e.currency {
                Some(c) => symbol_spec(c@),
                None => None,
            },
            e.interval,
        ),
        due_text(e, today),
    ]
}

/// The cells of the older listing's row for expense number `index`, with
/// its amount as the caller formats it.
pub fn note_row(index: usize, e: &Expense, today: &Date, amount_text: Option<&str>) -> (r: Vec<String>)
    requires
        index < usize::MAX,
        e.can_schedule(*today),
    ensures
        r@.map_values(|s: String| s@) == note_row_spec(
            index as int,
            *e,
            *today,
            match amount_text {
                Some(a) => Some(a@),
                None => None,
            },
        ),
{
    let mut id = string_of("@");
    let n = usize_to_string(index + 1);
    push_str(&mut id, n.as_str());
    let amount = match amount_text {
        Some(a) => string_of(a),
        None => string_of("-"),
    };
    let sym = match &e.currency {
        Some(c) => currency_symbol(c.as_str()),
        None => None,
    };
    let rate = match &sym {
        Some(s) => rate_cell(Some(s.as_str()), e.interval),
        None => rate_cell(None, e.interval),
    };
    let due = match e.days_until_next(today) {
        Some(days) => {
            proof {
                let f = e.start_date->Some_0;
                let iv = e.interval->Some_0;
                let w = choose|w: Date| iv.is_next_payment(f, *today, w) && w.valid() && days == w.ord() - today.ord();
                lemma_next_payment_is_spec(iv, f, *today, w);
            }
            format_days(days)
        },
        None => String::new(),
    };
    let r = vec![id, crate::expense::clone_string(&e.name), amount, rate, due];
    assert(r@.map_values(|s: String| s@) =~= note_row_spec(
        index as int,
        *e,
        *today,
        match amount_text {
            Some(a) => Some(a@),
            None => None,
        },
    ));
    r
}

/// Titles of the older listing.
pub open spec fn note_headers() -> Seq<Seq<char>> {
    seq!["#"@, "name"@, "amount"@, "rate"@, "due"@]
}

/// Width of column `c`: the longest of its title and its first `n` cells,
/// in bytes.
pub open spec fn note_width(rows: Seq<Seq<Seq<char>>>, c: int, n: int) -> int
    decreases n,
{
    if n <= 0 {
        byte_len(note_headers()[c])
    } else {
        let w = note_width(rows, c, n - 1);
        let b = byte_len(rows[n - 1][c]);
        if b > w {
            b
        } else {
            w
        }
    }
}

/// One line of the older listing: five cells two spaces apart, each padded
/// to its width in characters, the amount right-aligned.
pub open spec fn note_line_spec(cells: Seq<Seq<char>>, w: Seq<int>) -> Seq<char> {
    cells[0] + spaces(w[0] - cells[0].len()) + "  "@ + cells[1] + spaces(w[1] - cells[1].len()) + "  "@
        + spaces(w[2] - cells[2].len()) + cells[2] + "  "@ + cells[3] + spaces(w[3] - cells[3].len()) + "  "@
        + cells[4] + spaces(w[4] - cells[4].len())
}

/// The rule under the titles.
pub open spec fn note_rule_spec(w: Seq<int>) -> Seq<char> {
    dashes(w[0]) + "  "@ + dashes(w[1]) + "  "@ + dashes(w[2]) + "  "@ + dashes(w[3]) + "  "@ + dashes(w[4])
}

pub open spec fn rows_view(rows: Seq<Vec<String>>) -> Seq<Seq<Seq<char>>> {
    rows.map_values(|r: Vec<String>| r@.map_values(|s: String| s@))
}

/// The lines of the older listing: titles, rule, then a line per row.
pub open spec fn note_table_spec(rows: Seq<Seq<Seq<char>>>) -> Seq<Seq<char>> {
    let n = rows.len() as int;
    let w = seq![note_width(rows, 0, n), note_width(rows, 1, n), note_width(rows, 2, n), note_width(rows, 3, n), note_width(rows, 4, n)];
    seq![note_line_spec(note_headers(), w), note_rule_spec(w)] + rows.map_values(|r: Seq<Seq<char>>| note_line_spec(r, w))
}

fn note_header_cells() -> (r: Vec<String>)
    ensures
        r@.len() == 5,
        forall|k: int| 0 <= k < 5 ==> (#[trigger] r@[k])@ == note_headers()[k],
{
    let r = vec![string_of("#"), string_of("name"), string_of("amount"), string_of("rate"), string_of("due")];
    assert(r@.map_values(|s: String| s@) =~= note_headers());
    r
}

fn note_line(cells: &Vec<String>, w: &Vec<usize>) -> (r: String)
    requires
        cells@.len() == 5,
        w@.len() == 5,
    ensures
        r@ == note_line_spec(cells@.map_values(|s: String| s@), w@.map_values(|x: usize| x as int)),
{
    let mut r = String::new();
    let a = pad_end(cells[0].as_str(), char_width(cells[0].as_str()), w[0]);
    push_str(&mut r, a.as_str());
    push_str(&mut r, "  ");
    let b = pad_end(cells[1].as_str(), char_width(cells[1].as_str()), w[1]);
    push_str(&mut r, b.as_str());
    push_str(&mut r, "  ");
    let c = pad_start(cells[2].as_str(), char_width(cells[2].as_str()), w[2]);
    push_str(&mut r, c.as_str());
    push_str(&mut r, "  ");
    let d = pad_end(cells[3].as_str(), char_width(cells[3].as_str()), w[3]);
    push_str(&mut r, d.as_str());
    push_str(&mut r, "  ");
    let e = pad_end(cells[4].as_str(), char_width(cells[4].as_str()), w[4]);
    push_str(&mut r, e.as_str());
    let ghost cv = cells@.map_values(|s: String| s@);
    let ghost wv = w@.map_values(|x: usize| x as int);
    assert forall|k: int| 0 <= k < 5 implies spaces(crate::ui::saturating_sub(w@[k] as int, cells@[k]@.len() as int))
        =~= spaces(wv[k] - cv[k].len()) by {}
    assert(r@ =~= note_line_spec(cv, wv));
    r
}

fn note_rule(w: &Vec<usize>) -> (r: String)
    requires
        w@.len() == 5,
    ensures
        r@ == note_rule_spec(w@.map_values(|x: usize| x as int)),
{
    let ghost wv = w@.map_values(|x: usize| x as int);
    let mut r = String::new();
    crate::text::push_repeat(&mut r, '─', w[0]);
    push_str(&mut r, "  ");
    crate::text::push_repeat(&mut r, '─', w[1]);
    push_str(&mut r, "  ");
    crate::text::push_repeat(&mut r, '─', w[2]);
    push_str(&mut r, "  ");
    crate::text::push_repeat(&mut r, '─', w[3]);
    push_str(&mut r, "  ");
    crate::text::push_repeat(&mut r, '─', w[4]);
    assert forall|k: int| 0 <= k < 5 implies Seq::new(w@[k] as nat, |_i: int| '─') =~= dashes(wv[k]) by {}
    assert(r@ =~= note_rule_spec(wv));
    r
}

/// The older listing's lines for rows of five cells each (as `note_row` gives).
pub fn note_table(rows: &Vec<Vec<String>>) -> (r: Vec<String>)
    requires
        forall|k: int| 0 <= k < rows@.len() ==> (#[trigger] rows@[k])@.len() == 5,
    ensures
        r@.map_values(|s: String| s@) == note_table_spec(rows_view(rows@)),
{
    let ghost rv = rows_view(rows@);
    let headers = note_header_cells();
    let mut w: Vec<usize> = Vec::new();
    let mut c: usize = 0;
    while c < 5
        invariant
            rv == rows_view(rows@),
            forall|k: int| 0 <= k < rows@.len() ==> (#[trigger] rows@[k])@.len() == 5,
            headers@.len() == 5,
            forall|k: int| 0 <= k < 5 ==> (#[trigger] headers@[k])@ == note_headers()[k],
            c <= 5,
            w@.len() == c,
            forall|j: int| 0 <= j < c ==> #[trigger] w@[j] == note_width(rv, j, rv.len() as int),
        decreases 5 - c,
    {
        let hb = headers[c].as_str().len();
        let mut best = hb;
        let mut k: usize = 0;
        while k < rows.len()
            invariant
                rv == rows_view(rows@),
                forall|k: int| 0 <= k < rows@.len() ==> (#[trigger] rows@[k])@.len() == 5,
                c < 5,
                k <= rows@.len(),
                best == note_width(rv, c as int, k as int),
            decreases rows@.len() - k,
        {
            let b = rows[k][c].as_str().len();
            assert(rv[k as int][c as int] == rows@[k as int]@[c as int]@);
            if b > best {
                best = b;
            }
            k = k + 1;
        }
        w.push(best);
        c = c + 1;
    }
    let ghost wv = w@.map_values(|x: usize| x as int);
    assert(wv =~= seq![note_width(rv, 0, rv.len() as int), note_width(rv, 1, rv.len() as int), note_width(rv, 2, rv.len() as int), note_width(rv, 3, rv.len() as int), note_width(rv, 4, rv.len() as int)]);
    let mut out: Vec<String> = Vec::new();
    assert(headers@.map_values(|s: String| s@) =~= note_headers());
    out.push(note_line(&headers, &w));
    out.push(note_rule(&w));
    let mut k: usize = 0;
    while k < rows.len()
        invariant
            rv == rows_view(rows@),
            forall|k: int| 0 <= k < rows@.len() ==> (#[trigger] rows@[k])@.len() == 5,
            w@.len() == 5,
            wv == w@.map_values(|x: usize| x as int),
            k <= rows@.len(),
            out@.len() == k + 2,
            out@[0]@ == note_line_spec(note_headers(), wv),
            out@[1]@ == note_rule_spec(wv),
            forall|j: int| 2 <= j < k + 2 ==> (#[trigger] out@[j])@ == note_line_spec(rv[j - 2], wv),
        decreases rows@.len() - k,
    {
        assert(rows@[k as int]@.map_values(|s: String| s@) == rv[k as int]);
        let line = note_line(&rows[k], &w);
        out.push(line);
        k = k + 1;
    }
    let ghost lines = rv.map_values(|r: Seq<Seq<char>>| note_line_spec(r, wv));
    assert forall|j: int| 0 <= j < rv.len() implies #[trigger] lines[j] == note_line_spec(rv[j], wv) by {}
    assert(out@.map_values(|s: String| s@) =~= seq![note_line_spec(note_headers(), wv), note_rule_spec(wv)] + lines);
    out
}

} // verus!
