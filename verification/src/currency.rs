//! ISO 4217 currencies: lookup by code through `rusty_money`, the curated list
//! offered to users, and normalization of a user-typed code.
use vstd::prelude::*;
use vstd::utf8::is_ascii_chars;

use crate::text::{
    ascii_uppercase, is_ws, lower, lower_seq, push_str, trim, trim_end_seq, trim_seq, trim_start_seq,
    upper_seq,
};

verus! {

/// What the library reads of a `rusty_money::iso::Currency`.
#[derive(Clone, Debug)]
pub struct CurrencyInfo {
    /// ISO alphabetic code, upper case (`USD`).
    pub code: String,
    /// Display symbol (`$`, `zł`).
    pub symbol: String,
    /// Whether the symbol is written before the amount.
    pub symbol_first: bool,
}

/// The currency that `rusty_money::iso::find` returns for a code, as
/// (alphabetic code, symbol, symbol written first).
pub uninterp spec fn iso_currency(code: Seq<char>) -> Option<(Seq<char>, Seq<char>, bool)>;

/// Unicode lower case of a string, as `str::to_lowercase` computes it.
pub uninterp spec fn unicode_lower(s: Seq<char>) -> Seq<char>;

/// Three ASCII capital letters, the form of every ISO alphabetic code in
/// `rusty_money`'s table.
pub open spec fn iso_code_form(code: Seq<char>) -> bool {
    code.len() == 3 && forall|i: int| 0 <= i < 3 ==> 'A' <= #[trigger] code[i] <= 'Z'
}

/// Three ASCII lower-case letters.
pub open spec fn lower_code_form(code: Seq<char>) -> bool {
    code.len() == 3 && forall|i: int| 0 <= i < 3 ==> 'a' <= #[trigger] code[i] <= 'z'
}

/// `rusty_money::iso::find(code)`, its result named by `iso_currency`. The
/// crate's source matches the three bytes of `code` against each currency's
/// alphabetic code, so a currency found carries `code` itself as its code;
/// every alphabetic code in its table is three ASCII capital letters.
#[verifier::external_body]
pub(crate) fn iso_find(code: &str) -> (r: Option<CurrencyInfo>)
    ensures
        r matches Some(c) ==> iso_currency(code@) == Some((c.code@, c.symbol@, c.symbol_first))
            && c.code@ == code@ && iso_code_form(code@),
        r is None ==> iso_currency(code@) is None,
{
    rusty_money::iso::find(code).map(
        |c| CurrencyInfo {
            code: c.iso_alpha_code.to_string(),
            symbol: c.symbol.to_string(),
            symbol_first: c.symbol_first,
        },
    )
}

/// `str::to_lowercase`, its result named by `unicode_lower`: each
/// character replaced by its Unicode lowercase mapping, or kept when it has
/// none. ASCII text is lowered letter by letter; and no character of the
/// result is an ASCII capital, since each of those has a lowercase mapping
/// and no lowercase mapping yields one.
#[verifier::external_body]
pub(crate) fn to_lowercase(s: &str) -> (r: String)
    ensures
        r@ == unicode_lower(s@),
        is_ascii_chars(s@) ==> r@ == lower_seq(s@),
        forall|i: int| 0 <= i < r@.len() ==> !('A' <= #[trigger] r@[i] <= 'Z'),
{
    s.to_lowercase()
}

/// Unicode upper case of a string, as `str::to_uppercase` computes it.
pub uninterp spec fn unicode_upper(s: Seq<char>) -> Seq<char>;

/// `str::to_uppercase`, its result named by `unicode_upper`.
#[verifier::external_body]
pub(crate) fn to_uppercase(s: &str) -> (r: String)
    ensures
        r@ == unicode_upper(s@),
        is_ascii_chars(s@) ==> r@ == upper_seq(s@),
{
    s.to_uppercase()
}

/// The currency with ISO code `code`, compared without regard to ASCII case.
pub open spec fn find_currency_spec(code: Seq<char>) -> Option<(Seq<char>, Seq<char>, bool)> {
    iso_currency(upper_seq(code))
}

/// Looks up an ISO 4217 currency by code (case-insensitive).
pub fn find_currency(code: &str) -> (r: Option<CurrencyInfo>)
    ensures
        r matches Some(c) ==> find_currency_spec(code@) == Some(
            (c.code@, c.symbol@, c.symbol_first),
        ) && c.code@ == upper_seq(code@) && iso_code_form(upper_seq(code@)),
        r is None ==> find_currency_spec(code@) is None,
{
    let up = ascii_uppercase(code);
    iso_find(up.as_str())
}

/// The curated list of currency codes that exchange-rate fetching and prompts support.
pub open spec fn valid_currency_codes() -> Seq<Seq<char>> {
    seq![
        "ars"@, "aud"@, "bdt"@, "brl"@, "cad"@, "chf"@, "clp"@, "cny"@, "cop"@, "czk"@, "dkk"@,
        "egp"@, "eur"@, "gbp"@, "hkd"@, "huf"@, "idr"@, "ils"@, "inr"@, "jpy"@, "kes"@, "krw"@,
        "mxn"@, "myr"@, "ngn"@, "nok"@, "nzd"@, "pen"@, "php"@, "pkr"@, "pln"@, "ron"@, "rub"@,
        "sek"@, "sgd"@, "thb"@, "try"@, "uah"@, "usd"@, "vnd"@, "zar"@
    ]
}

/// The curated list of currency codes, in alphabetical order.
pub fn valid_currencies() -> (r: Vec<&'static str>)
    ensures
        r@.map_values(|s: &str| s@) == valid_currency_codes(),
{
    let r = vec![
        "ars", "aud", "bdt", "brl", "cad", "chf", "clp", "cny", "cop", "czk", "dkk", "egp", "eur",
        "gbp", "hkd", "huf", "idr", "ils", "inr", "jpy", "kes", "krw", "mxn", "myr", "ngn", "nok",
        "nzd", "pen", "php", "pkr", "pln", "ron", "rub", "sek", "sgd", "thb", "try", "uah", "usd",
        "vnd", "zar",
    ];
    assert(r@.map_values(|s: &str| s@) =~= valid_currency_codes());
    r
}

/// Elements of `items` joined by `sep`.
pub open spec fn join_seq(items: Seq<Seq<char>>, sep: Seq<char>) -> Seq<char>
    decreases items.len(),
{
    if items.len() == 0 {
        Seq::empty()
    } else if items.len() == 1 {
        items[0]
    } else {
        join_seq(items.drop_last(), sep) + sep + items.last()
    }
}

/// `items.join(sep)` for string slices.
pub fn join_strs(items: &Vec<&str>, sep: &str) -> (r: String)
    ensures
        r@ == join_seq(items@.map_values(|s: &str| s@), sep@),
{
    let ghost views = items@.map_values(|s: &str| s@);
    let mut r = String::new();
    let mut i: usize = 0;
    while i < items.len()
        invariant
            views == items@.map_values(|s: &str| s@),
            i <= items@.len(),
            r@ == join_seq(views.take(i as int), sep@),
        decreases items@.len() - i,
    {
        if i > 0 {
            push_str(&mut r, sep);
        }
        push_str(&mut r, items[i]);
        assert(views.take(i + 1).drop_last() =~= views.take(i as int));
        i = i + 1;
    }
    assert(views.take(i as int) =~= views);
    r
}

/// `items.join(sep)` for owned strings.
pub fn join_strings(items: &Vec<String>, sep: &str) -> (r: String)
    ensures
        r@ == join_seq(items@.map_values(|s: String| s@), sep@),
{
    let ghost views = items@.map_values(|s: String| s@);
    let mut r = String::new();
    let mut i: usize = 0;
    while i < items.len()
        invariant
            views == items@.map_values(|s: String| s@),
            i <= items@.len(),
            r@ == join_seq(views.take(i as int), sep@),
        decreases items@.len() - i,
    {
        if i > 0 {
            push_str(&mut r, sep);
        }
        push_str(&mut r, items[i].as_str());
        assert(views.take(i + 1).drop_last() =~= views.take(i as int));
        i = i + 1;
    }
    assert(views.take(i as int) =~= views);
    r
}

/// The message that `normalize_currency` gives for an unknown code `s`.
pub open spec fn invalid_currency_message(s: Seq<char>) -> Seq<char> {
    "invalid currency \""@ + s + "\"; valid: "@ + join_seq(valid_currency_codes(), ", "@)
        + "\nexample: recu add --name Netflix --amount 9.99 --currency usd --interval monthly"@
}

/// Trims and lower-cases a currency code, accepting it only when it names an
/// ISO 4217 currency.
pub fn normalize_currency(s: &str) -> (r: Result<String, String>)
    ensures
        ({
            let lower = unicode_lower(trim_seq(s@));
            match r {
                Ok(c) => c@ == lower && find_currency_spec(lower) is Some,
                Err(msg) => msg@ == invalid_currency_message(s@) && find_currency_spec(
                    lower,
                ) is None,
            }
        }),
        is_ascii_chars(trim_seq(s@)) ==> match r {
            Ok(c) => c@ == lower_seq(trim_seq(s@)),
            Err(_) => find_currency_spec(lower_seq(trim_seq(s@))) is None,
        },
        r matches Ok(c) ==> lower_code_form(c@),
{
    let trimmed = trim(s);
    let lower = to_lowercase(trimmed.as_str());
    match find_currency(lower.as_str()) {
        Some(_) => {
            assert(lower_code_form(lower@)) by {
                assert forall|i: int| 0 <= i < 3 implies 'a' <= #[trigger] lower@[i] <= 'z' by {
                    assert(upper_seq(lower@)[i] == crate::text::upper(lower@[i]));
                }
            }
            Ok(lower)
        },
        None => {
            let codes = valid_currencies();
            let mut msg = String::new();
            push_str(&mut msg, "invalid currency \"");
            push_str(&mut msg, s);
            push_str(&mut msg, "\"; valid: ");
            let joined = join_strs(&codes, ", ");
            push_str(&mut msg, joined.as_str());
            push_str(
                &mut msg,
                "\nexample: recu add --name Netflix --amount 9.99 --currency usd --interval monthly",
            );
            Err(msg)
        },
    }
}

/// A code that `normalize_currency` returned reads, trimmed and lower-cased,
/// as itself, and is ASCII: normalizing it again accepts it and gives it
/// back unchanged.
pub proof fn normalized_code_is_fixed(c: Seq<char>)
    requires
        lower_code_form(c),
    ensures
        is_ascii_chars(trim_seq(c)),
        lower_seq(trim_seq(c)) == c,
{
    assert(!is_ws(c[0]) && !is_ws(c[2]));
    assert(trim_start_seq(c) == c);
    assert(trim_end_seq(c) == c);
    assert(lower_seq(c) =~= c) by {
        assert forall|i: int| 0 <= i < c.len() implies #[trigger] lower_seq(c)[i] == c[i] by {
            assert(lower_seq(c)[i] == lower(c[i]));
        }
    }
}

} // verus!
