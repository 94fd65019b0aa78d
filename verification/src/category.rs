//! The `category` commands: naming a category by `@id` (its place in the
//! sorted list) or by name ignoring ASCII case, the checks on a destination
//! name, the list as text or JSON, and the reports of a removal or rename.
use vstd::prelude::*;

use crate::csv_format::strings_view;
use crate::currency::{join_seq, join_strings};
use crate::error::{err_view, ErrV, ErrorKind, StoreError};
use crate::expense::{clone_string, string_of};
use crate::store::{
    categories_spec, clear_spec, counts_view, first_where, has_ic, lemma_first_where, list_spec,
    reassign_spec, strs_view, can_write, Store, StoreView,
};
use crate::text::{
    chars_of, dec, eq_ic, eq_ignore_ascii_case, parse_usize, parse_usize_spec, push_str,
    string_from_slice, trim, trim_seq, usize_to_string,
};
use crate::ui::{pad_end, spaces, saturating_sub};

verus! {

pub open spec fn list_hint() -> Seq<char> {
    ". Run 'recu category list' to see available categories"@
}

/// The message for a name that no category has: the known categories, and
/// an example command.
pub open spec fn unknown_category_spec(target: Seq<char>, cats: Seq<Seq<char>>) -> Seq<char> {
    let known = if cats.len() == 0 {
        "(none)"@
    } else {
        join_seq(cats, ", "@)
    };
    let example = if cats.len() == 0 {
        "recu category list"@
    } else {
        "recu list --category "@ + cats[0]
    };
    "unknown category '"@ + target + "'; known: "@ + known + "\nexample: "@ + example
}

/// The first category equal to `target` up to ASCII case, or `cats.len()`.
pub open spec fn category_index(cats: Seq<Seq<char>>, target: Seq<char>) -> int {
    first_where(cats.len() as int, |i: int| eq_ic(cats[i], target))
}

/// The category `target` names: `@n` is the `n`-th of `cats` (from 1),
/// anything else a name matched ignoring ASCII case.
pub open spec fn resolve_target_spec(target: Seq<char>, cats: Seq<Seq<char>>) -> Result<Seq<char>, ErrV> {
    if target.len() > 0 && target[0] == '@' {
        match parse_usize_spec(target.drop_first()) {
            None => Err((ErrorKind::InvalidInput, "invalid id '"@ + target + "'"@)),
            Some(id) => if id == 0 || id > cats.len() {
                Err((ErrorKind::NotFound, "no category at @"@ + dec(id as nat) + list_hint()))
            } else {
                Ok(cats[id - 1])
            },
        }
    } else {
        let i = category_index(cats, target);
        if i < cats.len() {
            Ok(cats[i])
        } else {
            Err((ErrorKind::NotFound, unknown_category_spec(target, cats)))
        }
    }
}

/// Every target resolved, in order; the first that fails decides the error.
pub open spec fn resolve_each_spec(targets: Seq<Seq<char>>, cats: Seq<Seq<char>>) -> Result<Seq<Seq<char>>, ErrV>
    decreases targets.len(),
{
    if targets.len() == 0 {
        Ok(Seq::empty())
    } else {
        match resolve_each_spec(targets.drop_last(), cats) {
            Err(x) => Err(x),
            Ok(prev) => match resolve_target_spec(targets.last(), cats) {
                Err(x) => Err(x),
                Ok(c) => Ok(prev.push(c)),
            },
        }
    }
}

/// Every target resolved, in order; a target naming a category already
/// named (ignoring ASCII case) is an error.
pub open spec fn resolve_sources_spec(targets: Seq<Seq<char>>, cats: Seq<Seq<char>>) -> Result<Seq<Seq<char>>, ErrV>
    decreases targets.len(),
{
    if targets.len() == 0 {
        Ok(Seq::empty())
    } else {
        match resolve_sources_spec(targets.drop_last(), cats) {
            Err(x) => Err(x),
            Ok(prev) => match resolve_target_spec(targets.last(), cats) {
                Err(x) => Err(x),
                Ok(c) => if has_ic(prev, c) {
                    Err((ErrorKind::InvalidInput, "duplicate source '"@ + targets.last() + "'"@))
                } else {
                    Ok(prev.push(c))
                },
            },
        }
    }
}

fn concat3(a: &str, b: &str, c: &str) -> (r: String)
    ensures
        r@ == a@ + b@ + c@,
{
    let mut m = string_of(a);
    push_str(&mut m, b);
    push_str(&mut m, c);
    m
}

/// The message for a name that no category has.
pub fn unknown_category_message(target: &str, categories: &Vec<String>) -> (r: String)
    ensures
        r@ == unknown_category_spec(target@, strings_view(categories@)),
{
    let known = if categories.len() == 0 {
        string_of("(none)")
    } else {
        join_strings(categories, ", ")
    };
    let example = if categories.len() == 0 {
        string_of("recu category list")
    } else {
        let mut e = string_of("recu list --category ");
        push_str(&mut e, categories[0].as_str());
        e
    };
    assert(categories@.map_values(|s: String| s@) =~= strings_view(categories@));
    let mut m = concat3("unknown category '", target, "'; known: ");
    push_str(&mut m, known.as_str());
    push_str(&mut m, "\nexample: ");
    push_str(&mut m, example.as_str());
    assert(m@ =~= unknown_category_spec(target@, strings_view(categories@)));
    m
}

/// The category that `target` names: `@n` for the `n`-th (from 1) of
/// `categories`, else the first whose name equals `target` ignoring ASCII case.
pub fn resolve_target(target: &str, categories: &Vec<String>) -> (r: Result<String, StoreError>)
    ensures
        match r {
            Ok(c) => resolve_target_spec(target@, strings_view(categories@)) == Ok::<Seq<char>, ErrV>(c@),
            Err(e) => resolve_target_spec(target@, strings_view(categories@)) == Err::<Seq<char>, ErrV>(err_view(e)),
        },
{
    let ghost cv = strings_view(categories@);
    let cs = chars_of(target);
    if cs.len() > 0 && cs[0] == '@' {
        let id_str = string_from_slice(cs.as_slice(), 1, cs.len());
        assert(id_str@ =~= target@.drop_first());
        match parse_usize(id_str.as_str()) {
            None => Err(StoreError::new(ErrorKind::InvalidInput, concat3("invalid id '", target, "'"))),
            Some(id) => {
                if id == 0 || id > categories.len() {
                    let ids = usize_to_string(id);
                    let m = concat3("no category at @", ids.as_str(), ". Run 'recu category list' to see available categories");
                    Err(StoreError::new(ErrorKind::NotFound, m))
                } else {
                    assert(cv[id - 1] == categories@[id - 1]@);
                    Ok(clone_string(&categories[id - 1]))
                }
            },
        }
    } else {
        let ghost p = |i: int| eq_ic(cv[i], target@);
        let mut i: usize = 0;
        while i < categories.len()
            invariant
                cv == strings_view(categories@),
                p == (|i: int| eq_ic(cv[i], target@)),
                !(target@.len() > 0 && target@[0] == '@'),
                i <= categories@.len(),
                forall|t: int| 0 <= t < i ==> !#[trigger] p(t),
            decreases categories@.len() - i,
        {
            if eq_ignore_ascii_case(categories[i].as_str(), target) {
                proof {
                    assert(cv[i as int] == categories@[i as int]@);
                    assert(p(i as int));
                    lemma_first_where(cv.len() as int, p, i as int);
                }
                return Ok(clone_string(&categories[i]));
            }
            i = i + 1;
        }
        proof {
            lemma_first_where(cv.len() as int, p, i as int);
        }
        Err(StoreError::new(ErrorKind::NotFound, unknown_category_message(target, categories)))
    }
}

/// The destination of a rename, trimmed; refused when nothing is left.
pub fn validate_dst(dst: &str) -> (r: Result<String, StoreError>)
    ensures
        match r {
            Ok(s) => trim_seq(dst@).len() > 0 && s@ == trim_seq(dst@),
            Err(e) => trim_seq(dst@).len() == 0 && err_view(e) == (
                ErrorKind::InvalidInput,
                "destination category name cannot be empty"@,
            ),
        },
{
    let trimmed = trim(dst);
    if trimmed.unicode_len() == 0 {
        return Err(
            StoreError::new(
                ErrorKind::InvalidInput,
                string_of("destination category name cannot be empty"),
            ),
        );
    }
    Ok(trimmed)
}

fn has_ic_in(names: &Vec<String>, c: &str) -> (r: bool)
    ensures
        r == has_ic(strings_view(names@), c@),
{
    let ghost sv = strings_view(names@);
    let mut i: usize = 0;
    while i < names.len()
        invariant
            sv == strings_view(names@),
            i <= names@.len(),
            forall|t: int| 0 <= t < i ==> !eq_ic(#[trigger] sv[t], c@),
        decreases names@.len() - i,
    {
        if eq_ignore_ascii_case(names[i].as_str(), c) {
            assert(eq_ic(sv[i as int], c@));
            return true;
        }
        i = i + 1;
    }
    false
}

proof fn lemma_prefix_err<T>(f: spec_fn(Seq<Seq<char>>) -> Result<T, ErrV>, ts: Seq<Seq<char>>, p: int, x: ErrV)
    requires
        0 <= p <= ts.len(),
        f(ts.take(p)) == Err::<T, ErrV>(x),
        forall|u: Seq<Seq<char>>| #![trigger f(u)] u.len() > 0 && f(u.drop_last()) is Err ==> f(u) == f(u.drop_last()),
    ensures
        f(ts) == Err::<T, ErrV>(x),
    decreases ts.len() - p,
{
    if p < ts.len() {
        assert(ts.drop_last().take(p) =~= ts.take(p));
        lemma_prefix_err(f, ts.drop_last(), p, x);
        assert(f(ts.drop_last()) is Err);
    } else {
        assert(ts.take(p) =~= ts);
    }
}

/// Resolves every source in order, refusing one that names a category
/// already named (ignoring ASCII case).
pub fn resolve_sources(targets: &Vec<String>, categories: &Vec<String>) -> (r: Result<Vec<String>, StoreError>)
    ensures
        match r {
            Ok(v) => resolve_sources_spec(strings_view(targets@), strings_view(categories@)) == Ok::<
                Seq<Seq<char>>,
                ErrV,
            >(strings_view(v@)),
            Err(e) => resolve_sources_spec(strings_view(targets@), strings_view(categories@)) == Err::<
                Seq<Seq<char>>,
                ErrV,
            >(err_view(e)),
        },
{
    let ghost tv = strings_view(targets@);
    let ghost cv = strings_view(categories@);
    let ghost f = |u: Seq<Seq<char>>| resolve_sources_spec(u, cv);
    let mut resolved: Vec<String> = Vec::new();
    assert(tv.take(0) =~= Seq::<Seq<char>>::empty());
    assert(strings_view(resolved@) =~= Seq::<Seq<char>>::empty());
    let mut i: usize = 0;
    while i < targets.len()
        invariant
            tv == strings_view(targets@),
            cv == strings_view(categories@),
            f == (|u: Seq<Seq<char>>| resolve_sources_spec(u, cv)),
            i <= targets@.len(),
            resolve_sources_spec(tv.take(i as int), cv) == Ok::<Seq<Seq<char>>, ErrV>(strings_view(resolved@)),
        decreases targets@.len() - i,
    {
        assert(tv.take(i + 1).drop_last() =~= tv.take(i as int));
        assert(tv.take(i + 1).last() == targets@[i as int]@);
        let name = match resolve_target(targets[i].as_str(), categories) {
            Ok(n) => n,
            Err(e) => {
                proof {
                    lemma_prefix_err(f, tv, i + 1, err_view(e));
                }
                return Err(e);
            },
        };
        if has_ic_in(&resolved, name.as_str()) {
            proof {
                lemma_prefix_err(
                    f,
                    tv,
                    i + 1,
                    (ErrorKind::InvalidInput, "duplicate source '"@ + tv[i as int] + "'"@),
                );
            }
            return Err(
                StoreError::new(
                    ErrorKind::InvalidInput,
                    concat3("duplicate source '", targets[i].as_str(), "'"),
                ),
            );
        }
        let ghost r0 = resolved@;
        resolved.push(name);
        assert(strings_view(resolved@) =~= strings_view(r0).push(name@));
        i = i + 1;
    }
    assert(tv.take(i as int) =~= tv);
    Ok(resolved)
}

/// Resolves every input against `categories`, in order.
pub fn resolve_targets(inputs: &Vec<String>, categories: &Vec<String>) -> (r: Result<Vec<String>, StoreError>)
    ensures
        match r {
            Ok(v) => resolve_each_spec(strings_view(inputs@), strings_view(categories@)) == Ok::<
                Seq<Seq<char>>,
                ErrV,
            >(strings_view(v@)),
            Err(e) => resolve_each_spec(strings_view(inputs@), strings_view(categories@)) == Err::<
                Seq<Seq<char>>,
                ErrV,
            >(err_view(e)),
        },
{
    let ghost tv = strings_view(inputs@);
    let ghost cv = strings_view(categories@);
    let ghost f = |u: Seq<Seq<char>>| resolve_each_spec(u, cv);
    let mut resolved: Vec<String> = Vec::new();
    assert(tv.take(0) =~= Seq::<Seq<char>>::empty());
    assert(strings_view(resolved@) =~= Seq::<Seq<char>>::empty());
    let mut i: usize = 0;
    while i < inputs.len()
        invariant
            tv == strings_view(inputs@),
            cv == strings_view(categories@),
            f == (|u: Seq<Seq<char>>| resolve_each_spec(u, cv)),
            i <= inputs@.len(),
            resolve_each_spec(tv.take(i as int), cv) == Ok::<Seq<Seq<char>>, ErrV>(strings_view(resolved@)),
        decreases inputs@.len() - i,
    {
        assert(tv.take(i + 1).drop_last() =~= tv.take(i as int));
        assert(tv.take(i + 1).last() == inputs@[i as int]@);
        let name = match resolve_target(inputs[i].as_str(), categories) {
            Ok(n) => n,
            Err(e) => {
                proof {
                    lemma_prefix_err(f, tv, i + 1, err_view(e));
                }
                return Err(e);
            },
        };
        let ghost r0 = resolved@;
        resolved.push(name);
        assert(strings_view(resolved@) =~= strings_view(r0).push(name@));
        i = i + 1;
    }
    assert(tv.take(i as int) =~= tv);
    Ok(resolved)
}

/// What `resolve_filter` gives: nothing for no inputs, else every input
/// resolved against the store's categories.
pub open spec fn resolve_filter_spec(inputs: Seq<Seq<char>>, s: StoreView) -> Result<Seq<Seq<char>>, ErrV> {
    if inputs.len() == 0 {
        Ok(Seq::empty())
    } else {
        match list_spec(s) {
            Err(x) => Err(x),
            Ok(es) => resolve_each_spec(inputs, categories_spec(es)),
        }
    }
}

/// Resolves `@id` or name inputs against the store's categories, for the
/// `--category` filters of the listing commands. No input reads nothing.
pub fn resolve_filter(inputs: &Vec<String>, store: &Store) -> (r: Result<Vec<String>, StoreError>)
    ensures
        match r {
            Ok(v) => resolve_filter_spec(strings_view(inputs@), store@) == Ok::<Seq<Seq<char>>, ErrV>(
                strings_view(v@),
            ),
            Err(e) => resolve_filter_spec(strings_view(inputs@), store@) == Err::<Seq<Seq<char>>, ErrV>(
                err_view(e),
            ),
        },
{
    if inputs.len() == 0 {
        let v: Vec<String> = Vec::new();
        assert(strings_view(v@) =~= Seq::<Seq<char>>::empty());
        return Ok(v);
    }
    let categories = store.categories()?;
    resolve_targets(inputs, &categories)
}

/// The text of `serde_json::to_string_pretty` for a list of strings.
pub uninterp spec fn json_pretty_strings(items: Seq<Seq<char>>) -> Seq<char>;

/// A string that JSON writes between its quotes as it is: no `"`, no `\`,
/// no control character below U+0020.
pub open spec fn json_verbatim(s: Seq<char>) -> bool {
    forall|i: int| 0 <= i < s.len() ==> (#[trigger] s[i] != '"' && s[i] != '\\' && ' ' <= s[i])
}

pub open spec fn all_json_verbatim(items: Seq<Seq<char>>) -> bool {
    forall|i: int| 0 <= i < items.len() ==> json_verbatim(#[trigger] items[i])
}

/// The first `n` items, each on a line of its own after the one before,
/// indented by two spaces and quoted, separated by commas.
pub open spec fn pretty_items(items: Seq<Seq<char>>, n: int) -> Seq<char>
    decreases n,
{
    if n <= 0 {
        Seq::empty()
    } else if n == 1 {
        "\n  \""@ + items[0] + "\""@
    } else {
        pretty_items(items, n - 1) + ",\n  \""@ + items[n - 1] + "\""@
    }
}

/// A pretty-printed JSON array of strings that need no escaping: `[]` when
/// empty, else `[`, the items, a newline and `]`.
pub open spec fn pretty_array(items: Seq<Seq<char>>) -> Seq<char> {
    if items.len() == 0 {
        "[]"@
    } else {
        "["@ + pretty_items(items, items.len() as int) + "\n]"@
    }
}

/// `serde_json::to_string_pretty` of a list of strings: a JSON array, two
/// spaces of indent; strings with nothing to escape are written as they
/// are. Serializing strings cannot fail (`serde_json` fails only on map keys
/// that are not strings, or on a failing writer). Strings with characters
/// to escape are left to the name `json_pretty_strings`.
#[verifier::external_body]
pub(crate) fn to_json_pretty(items: &Vec<String>) -> (r: String)
    ensures
        r@ == json_pretty_strings(strings_view(items@)),
        all_json_verbatim(strings_view(items@)) ==> r@ == pretty_array(strings_view(items@)),
{
    serde_json::to_string_pretty(items).unwrap()
}

/// `@n` padded to `width` columns, two spaces, the category, a newline.
pub open spec fn list_line(n: nat, width: int, cat: Seq<char>) -> Seq<char> {
    let id = "@"@ + dec(n);
    id + spaces(saturating_sub(width, id.len() as int)) + "  "@ + cat + "\n"@
}

/// The lines of the first `n` categories.
pub open spec fn list_lines(cats: Seq<Seq<char>>, width: int, n: int) -> Seq<char>
    decreases n,
{
    if n <= 0 {
        Seq::empty()
    } else {
        list_lines(cats, width, n - 1) + list_line(n as nat, width, cats[n - 1])
    }
}

/// What `category list` prints.
pub open spec fn render_list_spec(cats: Seq<Seq<char>>, json: bool) -> Seq<char> {
    if json {
        json_pretty_strings(cats) + "\n"@
    } else if cats.len() == 0 {
        "No categories found.\n"@
    } else {
        list_lines(cats, dec(cats.len()).len() + 1int, cats.len() as int)
    }
}

/// The output of `category list`: JSON, or one `@id  name` line per
/// category with the ids padded to the width of the largest.
pub fn render_list(categories: &Vec<String>, json: bool) -> (r: String)
    ensures
        r@ == render_list_spec(strings_view(categories@), json),
        json && all_json_verbatim(strings_view(categories@)) ==> r@ == pretty_array(strings_view(categories@))
            + "\n"@,
{
    let ghost cv = strings_view(categories@);
    if json {
        let mut s = to_json_pretty(categories);
        push_str(&mut s, "\n");
        return s;
    }
    if categories.len() == 0 {
        return string_of("No categories found.\n");
    }
    let n = usize_to_string(categories.len());
    proof {
        crate::text::lemma_dec_len(categories@.len() as nat);
    }
    let width = n.unicode_len() + 1;
    let mut out = String::new();
    let mut i: usize = 0;
    while i < categories.len()
        invariant
            cv == strings_view(categories@),
            width == dec(categories@.len() as nat).len() + 1,
            i <= categories@.len(),
            out@ == list_lines(cv, width as int, i as int),
        decreases categories@.len() - i,
    {
        let num = usize_to_string(i + 1);
        let mut id = string_of("@");
        push_str(&mut id, num.as_str());
        let w = id.unicode_len();
        let padded = pad_end(id.as_str(), w, width);
        push_str(&mut out, padded.as_str());
        push_str(&mut out, "  ");
        push_str(&mut out, categories[i].as_str());
        push_str(&mut out, "\n");
        assert(out@ =~= list_lines(cv, width as int, i + 1));
        i = i + 1;
    }
    out
}

/// The per-category lines of a removal.
pub open spec fn removal_report_spec(names: Seq<Seq<char>>, counts: Seq<usize>, n: int) -> Seq<char>
    decreases n,
{
    if n <= 0 {
        Seq::empty()
    } else {
        removal_report_spec(names, counts, n - 1) + "Removed category '"@ + names[n - 1] + "' from "@
            + dec(counts[n - 1] as nat) + " expense(s)\n"@
    }
}

pub open spec fn min_len(a: int, b: int) -> int {
    if a <= b {
        a
    } else {
        b
    }
}

/// What `category remove` prints for the categories removed and their counts.
pub fn removal_report(names: &Vec<String>, counts: &Vec<usize>) -> (r: String)
    ensures
        r@ == removal_report_spec(strings_view(names@), counts@, min_len(names@.len() as int, counts@.len() as int)),
{
    let ghost nv = strings_view(names@);
    let n = if names.len() <= counts.len() {
        names.len()
    } else {
        counts.len()
    };
    let mut out = String::new();
    let mut i: usize = 0;
    while i < n
        invariant
            nv == strings_view(names@),
            n <= names@.len(),
            n <= counts@.len(),
            i <= n,
            out@ == removal_report_spec(nv, counts@, i as int),
        decreases n - i,
    {
        push_str(&mut out, "Removed category '");
        push_str(&mut out, names[i].as_str());
        push_str(&mut out, "' from ");
        let c = usize_to_string(counts[i]);
        push_str(&mut out, c.as_str());
        push_str(&mut out, " expense(s)\n");
        assert(out@ =~= removal_report_spec(nv, counts@, i + 1));
        i = i + 1;
    }
    out
}

/// The sum of the first `n` counts.
pub open spec fn sum_counts(c: Seq<usize>, n: int) -> int
    decreases n,
{
    if n <= 0 {
        0
    } else {
        sum_counts(c, n - 1) + c[n - 1]
    }
}

/// The per-source lines of a rename into several sources.
pub open spec fn merge_lines(names: Seq<Seq<char>>, counts: Seq<usize>, n: int) -> Seq<char>
    decreases n,
{
    if n <= 0 {
        Seq::empty()
    } else {
        merge_lines(names, counts, n - 1) + "  '"@ + names[n - 1] + "': "@ + dec(counts[n - 1] as nat)
            + " expense(s)\n"@
    }
}

/// What `category rename` prints: one line for a single source, else a line
/// per source and the total.
pub open spec fn rename_report_spec(names: Seq<Seq<char>>, dst: Seq<char>, counts: Seq<usize>) -> Seq<char> {
    if names.len() == 1 {
        "Renamed category '"@ + names[0] + "' to '"@ + dst + "' in "@ + dec(counts[0] as nat)
            + " expense(s)\n"@
    } else {
        merge_lines(names, counts, min_len(names.len() as int, counts.len() as int))
            + "Renamed into '"@ + dst + "' ("@ + dec(sum_counts(counts, counts.len() as int) as nat)
            + " expense(s) total)\n"@
    }
}

proof fn lemma_sum_counts_nonneg(c: Seq<usize>, i: int)
    requires
        0 <= i <= c.len(),
    ensures
        0 <= sum_counts(c, i),
    decreases i,
{
    if i > 0 {
        lemma_sum_counts_nonneg(c, i - 1);
    }
}

proof fn lemma_sum_counts_mono(c: Seq<usize>, i: int, n: int)
    requires
        0 <= i <= n <= c.len(),
    ensures
        0 <= sum_counts(c, i) <= sum_counts(c, n),
    decreases n - i,
{
    if i < n {
        lemma_sum_counts_mono(c, i, n - 1);
    } else {
        lemma_sum_counts_nonneg(c, i);
    }
}

/// The report of a rename of the sources `names` into `dst`.
pub fn rename_report(names: &Vec<String>, dst: &str, counts: &Vec<usize>) -> (r: String)
    requires
        names@.len() == 1 ==> counts@.len() >= 1,
        sum_counts(counts@, counts@.len() as int) <= usize::MAX,
    ensures
        r@ == rename_report_spec(strings_view(names@), dst@, counts@),
{
    let ghost nv = strings_view(names@);
    if names.len() == 1 {
        let mut out = concat3("Renamed category '", names[0].as_str(), "' to '");
        push_str(&mut out, dst);
        push_str(&mut out, "' in ");
        let c = usize_to_string(counts[0]);
        push_str(&mut out, c.as_str());
        push_str(&mut out, " expense(s)\n");
        assert(out@ =~= rename_report_spec(nv, dst@, counts@));
        return out;
    }
    let n = if names.len() <= counts.len() {
        names.len()
    } else {
        counts.len()
    };
    let mut out = String::new();
    let mut i: usize = 0;
    while i < n
        invariant
            nv == strings_view(names@),
            n <= names@.len(),
            n <= counts@.len(),
            i <= n,
            out@ == merge_lines(nv, counts@, i as int),
        decreases n - i,
    {
        push_str(&mut out, "  '");
        push_str(&mut out, names[i].as_str());
        push_str(&mut out, "': ");
        let c = usize_to_string(counts[i]);
        push_str(&mut out, c.as_str());
        push_str(&mut out, " expense(s)\n");
        assert(out@ =~= merge_lines(nv, counts@, i + 1));
        i = i + 1;
    }
    let mut total: usize = 0;
    let mut k: usize = 0;
    while k < counts.len()
        invariant
            k <= counts@.len(),
            total == sum_counts(counts@, k as int),
            sum_counts(counts@, counts@.len() as int) <= usize::MAX,
        decreases counts@.len() - k,
    {
        proof {
            lemma_sum_counts_mono(counts@, k + 1, counts@.len() as int);
        }
        total = total + counts[k];
        k = k + 1;
    }
    push_str(&mut out, "Renamed into '");
    push_str(&mut out, dst);
    push_str(&mut out, "' (");
    let t = usize_to_string(total);
    push_str(&mut out, t.as_str());
    push_str(&mut out, " expense(s) total)\n");
    assert(out@ =~= rename_report_spec(nv, dst@, counts@));
    out
}

/// The string slices of `v`.
fn str_refs(v: &Vec<String>) -> (r: Vec<&str>)
    ensures
        strs_view(r@) == strings_view(v@),
{
    let mut r: Vec<&str> = Vec::new();
    let mut i: usize = 0;
    while i < v.len()
        invariant
            i <= v@.len(),
            strs_view(r@) == strings_view(v@.take(i as int)),
        decreases v@.len() - i,
    {
        let ghost r0 = r@;
        r.push(v[i].as_str());
        assert(strs_view(r@) =~= strs_view(r0).push(v@[i as int]@));
        assert(v@.take(i + 1) =~= v@.take(i as int).push(v@[i as int]));
        assert(strings_view(v@.take(i + 1)) =~= strings_view(v@.take(i as int)).push(v@[i as int]@));
        i = i + 1;
    }
    assert(v@.take(i as int) =~= v@);
    r
}

/// `category remove`: resolve the targets against the store's categories
/// (refusing none, or a duplicate) and drop those categories from every
/// expense; the categories and how many expenses each left.
pub open spec fn remove_categories_spec(s: StoreView, targets: Seq<Seq<char>>) -> (
    StoreView,
    Result<(Seq<Seq<char>>, Seq<nat>), ErrV>,
) {
    if targets.len() == 0 {
        (s, Err((ErrorKind::InvalidInput, "no category specified"@)))
    } else {
        match list_spec(s) {
            Err(x) => (s, Err(x)),
            Ok(es) => match resolve_sources_spec(targets, categories_spec(es)) {
                Err(x) => (s, Err(x)),
                Ok(names) => {
                    let (s2, r) = clear_spec(s, names);
                    (
                        s2,
                        match r {
                            Ok(c) => Ok((names, c)),
                            Err(x) => Err(x),
                        },
                    )
                },
            },
        }
    }
}

/// Removes the categories that `targets` name from every expense.
pub fn remove_categories(store: &mut Store, targets: &Vec<String>) -> (r: Result<
    (Vec<String>, Vec<usize>),
    StoreError,
>)
    requires
        can_write(old(store)@),
    ensures
        (final(store)@, match r {
            Ok((names, counts)) => Ok::<(Seq<Seq<char>>, Seq<nat>), ErrV>(
                (strings_view(names@), counts_view(counts@)),
            ),
            Err(e) => Err::<(Seq<Seq<char>>, Seq<nat>), ErrV>(err_view(e)),
        }) == remove_categories_spec(old(store)@, strings_view(targets@)),
{
    if targets.len() == 0 {
        return Err(StoreError::new(ErrorKind::InvalidInput, string_of("no category specified")));
    }
    let categories = store.categories()?;
    let resolved = resolve_sources(targets, &categories)?;
    let refs = str_refs(&resolved);
    let counts = store.clear_categories(&refs)?;
    Ok((resolved, counts))
}

/// `category rename`: trim the destination (refusing an empty one), resolve
/// the sources against the store's categories (refusing a duplicate), and
/// move every expense in a source category to the destination.
pub open spec fn rename_categories_spec(s: StoreView, sources: Seq<Seq<char>>, dst: Seq<char>) -> (
    StoreView,
    Result<(Seq<char>, Seq<Seq<char>>, Seq<nat>), ErrV>,
) {
    let d = trim_seq(dst);
    if d.len() == 0 {
        (s, Err((ErrorKind::InvalidInput, "destination category name cannot be empty"@)))
    } else {
        match list_spec(s) {
            Err(x) => (s, Err(x)),
            Ok(es) => match resolve_sources_spec(sources, categories_spec(es)) {
                Err(x) => (s, Err(x)),
                Ok(names) => {
                    let (s2, r) = reassign_spec(s, names, d);
                    (
                        s2,
                        match r {
                            Ok(c) => Ok((d, names, c)),
                            Err(x) => Err(x),
                        },
                    )
                },
            },
        }
    }
}

/// Renames (merges) the categories that `sources` name into `dst`; returns
/// the trimmed destination, the sources' categories and their counts.
pub fn rename_categories(store: &mut Store, sources: &Vec<String>, dst: &str) -> (r: Result<
    (String, Vec<String>, Vec<usize>),
    StoreError,
>)
    requires
        can_write(old(store)@),
    ensures
        (final(store)@, match r {
            Ok((d, names, counts)) => Ok::<(Seq<char>, Seq<Seq<char>>, Seq<nat>), ErrV>(
                (d@, strings_view(names@), counts_view(counts@)),
            ),
            Err(e) => Err::<(Seq<char>, Seq<Seq<char>>, Seq<nat>), ErrV>(err_view(e)),
        }) == rename_categories_spec(old(store)@, strings_view(sources@), dst@),
{
    let d = validate_dst(dst)?;
    let categories = store.categories()?;
    let resolved = resolve_sources(sources, &categories)?;
    let refs = str_refs(&resolved);
    let counts = store.reassign_category(&refs, d.as_str())?;
    Ok((d, resolved, counts))
}

} // verus!
