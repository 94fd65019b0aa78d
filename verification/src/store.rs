//! The expense store: the CSV file, its `.seq` file (the next id to hand out)
//! and its `.undo` snapshot, held as the bytes of each file (`None` when the
//! file does not exist). Every operation is a function from these bytes to
//! new bytes and a result; the caller reads the files before and writes them
//! after.
use vstd::prelude::*;

use crate::csv_format::{
    all_storable, decode, decode_expenses, encode, encode_expenses, float_lit, lemma_decoded_storable,
    storable, stored_all,
};
use crate::error::{err_view, res_view, ErrV, ErrorKind, StoreError};
use crate::expense::{clone_expense, clone_string, string_of, views, Expense, ExpenseView};
use crate::text::{
    ascii_lowercase, chars_of, dec, eq_ic, eq_ignore_ascii_case, lemma_text_lt_asymmetric,
    lemma_text_lt_irreflexive, lemma_text_lt_total, lemma_text_lt_transitive, lower_seq,
    parse_u64, parse_u64_spec, push_str, text_less, text_lt, trim, trim_seq, u64_to_string,
};
use vstd::utf8::{decode_utf8, encode_utf8, valid_utf8};

verus! {

/// The files of a store, by their bytes.
pub struct StoreView {
    pub path: Seq<char>,
    pub csv: Option<Seq<u8>>,
    pub seq: Option<Seq<u8>>,
    pub undo: Option<Seq<u8>>,
}

/// A store of expenses at a path: the path and the contents of its three files.
pub struct Store {
    path: String,
    csv: Option<Vec<u8>>,
    seq: Option<Vec<u8>>,
    undo: Option<Vec<u8>>,
}

pub open spec fn bytes_view(o: Option<Vec<u8>>) -> Option<Seq<u8>> {
    match o {
        Some(v) => Some(v@),
        None => None,
    }
}

impl View for Store {
    type V = StoreView;

    closed spec fn view(&self) -> StoreView {
        StoreView {
            path: self.path@,
            csv: bytes_view(self.csv),
            seq: bytes_view(self.seq),
            undo: bytes_view(self.undo),
        }
    }
}


// ----- reading the files -----
/// The expenses of the store: none when the file is absent.
pub open spec fn list_spec(s: StoreView) -> Result<Seq<ExpenseView>, ErrV> {
    match s.csv {
        None => Ok(Seq::empty()),
        Some(b) => match decode(b) {
            Ok(es) => Ok(es),
            Err(m) => Err((ErrorKind::InvalidData, m)),
        },
    }
}

/// The number in the `.seq` file: its text trimmed and read as a `u64`.
pub open spec fn read_seq_spec(s: StoreView) -> Option<u64> {
    match s.seq {
        None => None,
        Some(b) => if valid_utf8(b) {
            parse_u64_spec(trim_seq(decode_utf8(b)))
        } else {
            None
        },
    }
}

pub open spec fn seq_or_zero(s: StoreView) -> int {
    match read_seq_spec(s) {
        Some(n) => n as int,
        None => 0,
    }
}

/// The largest id among `es`, 0 for none.
pub open spec fn max_id(es: Seq<ExpenseView>) -> int
    decreases es.len(),
{
    if es.len() == 0 {
        0
    } else {
        let m = max_id(es.drop_last());
        if es.last().id > m {
            es.last().id as int
        } else {
            m
        }
    }
}

/// The id the next saved expense gets: past every id in the file and never
/// below the persisted sequence number.
pub open spec fn next_id_spec(es: Seq<ExpenseView>, s: StoreView) -> int {
    let a = seq_or_zero(s);
    let b = max_id(es) + 1;
    if a >= b {
        a
    } else {
        b
    }
}

// ----- resolving a target -----
/// Index of the first expense with id `id`, or `es.len()`.
pub open spec fn id_index(es: Seq<ExpenseView>, id: u64) -> int
    decreases es.len(),
{
    if es.len() == 0 {
        0
    } else {
        let j = id_index(es.drop_last(), id);
        if j < es.len() - 1 {
            j
        } else if es.last().id == id {
            es.len() - 1
        } else {
            es.len() as int
        }
    }
}

/// Index of the first expense named `name` (ignoring ASCII case), or `es.len()`.
pub open spec fn name_index(es: Seq<ExpenseView>, name: Seq<char>) -> int
    decreases es.len(),
{
    if es.len() == 0 {
        0
    } else {
        let j = name_index(es.drop_last(), name);
        if j < es.len() - 1 {
            j
        } else if eq_ic(es.last().name, name) {
            es.len() - 1
        } else {
            es.len() as int
        }
    }
}

pub open spec fn not_found_hint() -> Seq<char> {
    ". Run 'recu ls' to see available expenses"@
}

/// Which expense `target` names: `@id` by id, anything else by name ignoring ASCII case.
pub open spec fn resolve_spec(es: Seq<ExpenseView>, target: Seq<char>) -> Result<int, ErrV> {
    if target.len() > 0 && target[0] == '@' {
        match parse_u64_spec(target.drop_first()) {
            None => Err((ErrorKind::InvalidInput, "invalid id '"@ + target + "'"@)),
            Some(id) => {
                let i = id_index(es, id);
                if i < es.len() {
                    Ok(i)
                } else {
                    Err((ErrorKind::NotFound, "no expense at @"@ + dec(id as nat) + not_found_hint()))
                }
            },
        }
    } else {
        let i = name_index(es, target);
        if i < es.len() {
            Ok(i)
        } else {
            Err((ErrorKind::NotFound, "expense '"@ + target + "' not found"@ + not_found_hint()))
        }
    }
}

// ----- writing the files -----
/// The files after a snapshot: the CSV file, when it exists, copied to the undo file.
pub open spec fn snapshot_spec(s: StoreView) -> StoreView {
    StoreView {
        undo: if s.csv is Some {
            s.csv
        } else {
            s.undo
        },
        ..s
    }
}

/// The files after writing `es`: the CSV file rewritten, and the sequence
/// number raised to one past the largest id when it is lower.
pub open spec fn write_all_spec(s: StoreView, es: Seq<ExpenseView>) -> StoreView {
    let needed = max_id(es) + 1;
    StoreView {
        csv: Some(encode(es)),
        seq: if needed > seq_or_zero(s) {
            Some(encode_utf8(dec(needed as nat)))
        } else {
            s.seq
        },
        ..s
    }
}

/// Every id of `es` leaves room for one more.
pub open spec fn ids_fit(es: Seq<ExpenseView>) -> bool {
    max_id(es) < u64::MAX
}

pub open spec fn all_wf(es: Seq<ExpenseView>) -> bool {
    forall|i: int| 0 <= i < es.len() ==> (#[trigger] es[i]).wf()
}

pub open spec fn has_name(es: Seq<ExpenseView>, name: Seq<char>) -> bool {
    exists|i: int| 0 <= i < es.len() && eq_ic((#[trigger] es[i]).name, name)
}

pub open spec fn exists_message(name: Seq<char>) -> Seq<char> {
    "expense '"@ + name + "' already exists"@
}

/// Undoing from `after` puts back the CSV file of `before` and uses up the
/// snapshot.
pub open spec fn undoes_to(after: StoreView, before: StoreView) -> bool {
    &&& restore_spec(after).1 is Ok
    &&& restore_spec(after).0 == (StoreView { csv: before.csv, undo: None, ..after })
}

/// An amount as the file holds it: none, empty, or a float literal.
pub open spec fn amount_form(a: Option<Seq<char>>) -> bool {
    a matches Some(x) ==> x.len() == 0 || float_lit(x)
}

/// Whatever the store's file holds is storable.
pub proof fn lemma_listed_storable(s: StoreView)
    requires
        list_spec(s) is Ok,
    ensures
        all_storable(list_spec(s)->Ok_0),
{
    if s.csv is Some {
        lemma_decoded_storable(s.csv->Some_0);
    }
}

pub proof fn lemma_update_storable(es: Seq<ExpenseView>, i: int, m: ExpenseView)
    requires
        all_storable(es),
        storable(m),
        0 <= i < es.len(),
    ensures
        all_storable(es.update(i, m)),
{
    assert forall|k: int| 0 <= k < es.update(i, m).len() implies storable(#[trigger] es.update(i, m)[k]) by {
        if k != i {
            assert(es.update(i, m)[k] == es[k]);
        }
    }
}

pub proof fn lemma_kept_storable(es: Seq<ExpenseView>, idxs: Seq<int>, n: int)
    requires
        all_storable(es),
        n <= es.len(),
    ensures
        all_storable(kept(es, idxs, n)),
    decreases n,
{
    if n > 0 {
        lemma_kept_storable(es, idxs, n - 1);
        let k = kept(es, idxs, n - 1);
        if !idxs.contains(n - 1) {
            assert forall|t: int| 0 <= t < k.push(es[n - 1]).len() implies storable(#[trigger] k.push(es[n - 1])[t]) by {
                if t < k.len() {
                    assert(k.push(es[n - 1])[t] == k[t]);
                }
            }
        }
    }
}

/// The expenses a successful `save` of `e` writes: those in the file, then
/// `e` under the next id.
pub open spec fn saved_list(s: StoreView, e: ExpenseView) -> Seq<ExpenseView> {
    match list_spec(s) {
        Ok(es) => es.push(ExpenseView { id: next_id_spec(es, s) as u64, ..e }),
        Err(_) => Seq::empty(),
    }
}

/// `save`: add `e` under the next id unless its name is taken; the file is
/// snapshotted only when it is written.
pub open spec fn save_spec(s: StoreView, e: ExpenseView) -> (StoreView, Result<(), ErrV>) {
    match list_spec(s) {
        Err(x) => (s, Err(x)),
        Ok(es) => if has_name(es, e.name) {
            (s, Err((ErrorKind::AlreadyExists, exists_message(e.name))))
        } else {
            let n = ExpenseView { id: next_id_spec(es, s) as u64, ..e };
            (write_all_spec(snapshot_spec(s), es.push(n)), Ok(()))
        },
    }
}

/// The store can hand out one more id: every id in the file, and the
/// sequence number, are below `u64::MAX - 1`.
pub open spec fn can_save(s: StoreView) -> bool {
    list_spec(s) matches Ok(es) ==> next_id_spec(es, s) < u64::MAX
}

/// The store's ids leave room for one more, so rewriting the file cannot overflow.
pub open spec fn can_write(s: StoreView) -> bool {
    list_spec(s) matches Ok(es) ==> ids_fit(es)
}


/// `get`: the expense `target` names.
pub open spec fn get_spec(s: StoreView, target: Seq<char>) -> Result<ExpenseView, ErrV> {
    match list_spec(s) {
        Err(x) => Err(x),
        Ok(es) => match resolve_spec(es, target) {
            Err(x) => Err(x),
            Ok(i) => Ok(es[i]),
        },
    }
}

/// No field of the patch is set.
pub open spec fn no_changes(c: ExpenseView) -> bool {
    &&& c.amount is None
    &&& c.currency is None
    &&& c.start_date is None
    &&& c.interval is None
    &&& c.category is None
    &&& c.end_date is None
}

pub open spec fn or_else<T>(a: Option<T>, b: Option<T>) -> Option<T> {
    if a is Some {
        a
    } else {
        b
    }
}

/// `e` with every field that the patch `c` sets replaced.
pub open spec fn merge(e: ExpenseView, c: ExpenseView) -> ExpenseView {
    ExpenseView {
        amount: or_else(c.amount, e.amount),
        currency: or_else(c.currency, e.currency),
        start_date: or_else(c.start_date, e.start_date),
        interval: or_else(c.interval, e.interval),
        category: or_else(c.category, e.category),
        end_date: or_else(c.end_date, e.end_date),
        ..e
    }
}

/// The expense ends before it starts.
pub open spec fn ends_before_start(e: ExpenseView) -> bool {
    e.start_date matches Some(st) && e.end_date matches Some(en) && en.ord() < st.ord()
}

pub open spec fn end_before_start_message(e: ExpenseView) -> Seq<char> {
    "end date "@ + crate::csv_format::date_text(e.end_date) + " is before start date "@
        + crate::csv_format::date_text(e.start_date)
}

/// `update`: merge the patch into the expense `target` names. An empty patch
/// changes nothing (and keeps the undo snapshot); a patch that would end the
/// expense before it starts is refused.
pub open spec fn update_spec(s: StoreView, target: Seq<char>, c: ExpenseView) -> (
    StoreView,
    Result<ExpenseView, ErrV>,
) {
    match list_spec(s) {
        Err(x) => (s, Err(x)),
        Ok(es) => match resolve_spec(es, target) {
            Err(x) => (s, Err(x)),
            Ok(i) => if no_changes(c) {
                (s, Ok(es[i]))
            } else {
                let m = merge(es[i], c);
                if ends_before_start(m) {
                    (s, Err((ErrorKind::InvalidInput, end_before_start_message(m))))
                } else {
                    (write_all_spec(snapshot_spec(s), es.update(i, m)), Ok(m))
                }
            },
        },
    }
}

/// The expenses a successful, non-empty `update` writes.
pub open spec fn updated_list(s: StoreView, target: Seq<char>, c: ExpenseView) -> Seq<ExpenseView> {
    match list_spec(s) {
        Ok(es) => match resolve_spec(es, target) {
            Ok(i) => es.update(i, merge(es[i], c)),
            Err(_) => Seq::empty(),
        },
        Err(_) => Seq::empty(),
    }
}

/// Some expense other than number `i` is named `name` (ignoring ASCII case).
pub open spec fn other_has_name(es: Seq<ExpenseView>, i: int, name: Seq<char>) -> bool {
    exists|j: int| 0 <= j < es.len() && j != i && eq_ic((#[trigger] es[j]).name, name)
}

/// `rename`: give the expense `target` names a new name, unless another expense has it.
pub open spec fn rename_spec(s: StoreView, target: Seq<char>, new_name: Seq<char>) -> (
    StoreView,
    Result<(), ErrV>,
) {
    match list_spec(s) {
        Err(x) => (s, Err(x)),
        Ok(es) => match resolve_spec(es, target) {
            Err(x) => (s, Err(x)),
            Ok(i) => if other_has_name(es, i, new_name) {
                (s, Err((ErrorKind::AlreadyExists, exists_message(new_name))))
            } else {
                (
                    write_all_spec(snapshot_spec(s), es.update(i, ExpenseView { name: new_name, ..es[i] })),
                    Ok(()),
                )
            },
        },
    }
}

/// The expenses a successful `rename` writes.
pub open spec fn renamed_list(s: StoreView, target: Seq<char>, new_name: Seq<char>) -> Seq<ExpenseView> {
    match list_spec(s) {
        Ok(es) => match resolve_spec(es, target) {
            Ok(i) => es.update(i, ExpenseView { name: new_name, ..es[i] }),
            Err(_) => Seq::empty(),
        },
        Err(_) => Seq::empty(),
    }
}

/// The indices that `targets` name, in order; a target naming an expense
/// named before is an error.
pub open spec fn resolve_all(es: Seq<ExpenseView>, targets: Seq<Seq<char>>) -> Result<Seq<int>, ErrV>
    decreases targets.len(),
{
    if targets.len() == 0 {
        Ok(Seq::empty())
    } else {
        match resolve_all(es, targets.drop_last()) {
            Err(x) => Err(x),
            Ok(prev) => match resolve_spec(es, targets.last()) {
                Err(x) => Err(x),
                Ok(i) => if prev.contains(i) {
                    Err((ErrorKind::InvalidInput, "duplicate target '"@ + targets.last() + "'"@))
                } else {
                    Ok(prev.push(i))
                },
            },
        }
    }
}

/// The first `n` expenses of `es` whose index is not in `idxs`, in order.
pub open spec fn kept(es: Seq<ExpenseView>, idxs: Seq<int>, n: int) -> Seq<ExpenseView>
    decreases n,
{
    if n <= 0 {
        Seq::empty()
    } else if idxs.contains(n - 1) {
        kept(es, idxs, n - 1)
    } else {
        kept(es, idxs, n - 1).push(es[n - 1])
    }
}

pub open spec fn names_at(es: Seq<ExpenseView>, idxs: Seq<int>) -> Seq<Seq<char>> {
    idxs.map_values(|i: int| es[i].name)
}

/// The expenses a successful `remove` writes: those the targets do not name.
pub open spec fn removed_list(s: StoreView, targets: Seq<Seq<char>>) -> Seq<ExpenseView> {
    match list_spec(s) {
        Ok(es) => match resolve_all(es, targets) {
            Ok(idxs) => kept(es, idxs, es.len() as int),
            Err(_) => Seq::empty(),
        },
        Err(_) => Seq::empty(),
    }
}

/// `remove`: drop every expense the targets name, or change nothing when
/// one does not resolve; the file is snapshotted only when it is written.
/// The names removed come back in target order.
pub open spec fn remove_spec(s: StoreView, targets: Seq<Seq<char>>) -> (
    StoreView,
    Result<Seq<Seq<char>>, ErrV>,
) {
    match list_spec(s) {
        Err(x) => (s, Err(x)),
        Ok(es) => match resolve_all(es, targets) {
            Err(x) => (s, Err(x)),
            Ok(idxs) => (
                write_all_spec(snapshot_spec(s), kept(es, idxs, es.len() as int)),
                Ok(names_at(es, idxs)),
            ),
        },
    }
}

// ----- categories -----
/// The least `i` in `0..n` with `p(i)`, or `n` when there is none.
pub open spec fn first_where(n: int, p: spec_fn(int) -> bool) -> int
    decreases n,
{
    if n <= 0 {
        0
    } else {
        let j = first_where(n - 1, p);
        if j < n - 1 {
            j
        } else if p(n - 1) {
            n - 1
        } else {
            n
        }
    }
}

/// Some element of `s` equals `c` up to ASCII case.
pub open spec fn has_ic(s: Seq<Seq<char>>, c: Seq<char>) -> bool {
    exists|i: int| 0 <= i < s.len() && eq_ic(#[trigger] s[i], c)
}

/// The categories of `es` in file order, each in the spelling it first
/// appears in; later spellings that differ only in ASCII case are dropped.
pub open spec fn first_spellings(es: Seq<ExpenseView>) -> Seq<Seq<char>>
    decreases es.len(),
{
    if es.len() == 0 {
        Seq::empty()
    } else {
        let prev = first_spellings(es.drop_last());
        match es.last().category {
            Some(c) => if has_ic(prev, c) {
                prev
            } else {
                prev.push(c)
            },
            None => prev,
        }
    }
}

/// Strictly increasing by ASCII-lowercased text.
pub open spec fn sorted_ic(s: Seq<Seq<char>>) -> bool {
    forall|i: int, j: int|
        0 <= i < j < s.len() ==> text_lt(lower_seq(#[trigger] s[i]), lower_seq(#[trigger] s[j]))
}

/// `a` and `b` hold the same strings, as many of them.
pub open spec fn same_items(a: Seq<Seq<char>>, b: Seq<Seq<char>>) -> bool {
    &&& a.len() == b.len()
    &&& forall|x: Seq<char>| a.contains(x) <==> b.contains(x)
}

/// `categories`: the distinct categories (ignoring ASCII case, first
/// spelling kept), sorted by their lowercase text.
pub open spec fn categories_ok(es: Seq<ExpenseView>, r: Seq<Seq<char>>) -> bool {
    sorted_ic(r) && same_items(r, first_spellings(es))
}

/// The categories of `es`, as `categories` lists them.
pub open spec fn categories_spec(es: Seq<ExpenseView>) -> Seq<Seq<char>> {
    choose|r: Seq<Seq<char>>| categories_ok(es, r)
}

/// The index of the first source equal to `c` up to ASCII case, or `sources.len()`.
pub open spec fn source_of(sources: Seq<Seq<char>>, c: Seq<char>) -> int {
    first_where(sources.len() as int, |i: int| eq_ic(c, sources[i]))
}

/// The expense's category matches one of `sources`.
pub open spec fn matched(e: ExpenseView, sources: Seq<Seq<char>>) -> bool {
    e.category matches Some(c) && source_of(sources, c) < sources.len()
}

/// How many expenses of `es` have a category whose first matching source is number `k`.
pub open spec fn count_source(es: Seq<ExpenseView>, sources: Seq<Seq<char>>, k: int) -> nat
    decreases es.len(),
{
    if es.len() == 0 {
        0
    } else {
        count_source(es.drop_last(), sources, k) + if es.last().category matches Some(c)
            && source_of(sources, c) == k {
            1nat
        } else {
            0nat
        }
    }
}

pub open spec fn source_counts(es: Seq<ExpenseView>, sources: Seq<Seq<char>>) -> Seq<nat> {
    Seq::new(sources.len(), |k: int| count_source(es, sources, k))
}

/// `e` moved to category `dst` when its category matches a source.
pub open spec fn reassigned(e: ExpenseView, sources: Seq<Seq<char>>, dst: Seq<char>) -> ExpenseView {
    if matched(e, sources) {
        ExpenseView { category: Some(dst), ..e }
    } else {
        e
    }
}

/// Some expense would get a category spelled differently from the one it has.
pub open spec fn reassign_changes(es: Seq<ExpenseView>, sources: Seq<Seq<char>>, dst: Seq<char>) -> bool {
    exists|i: int| 0 <= i < es.len() && matched(#[trigger] es[i], sources) && es[i].category != Some(dst)
}

/// `reassign_category`: move every expense whose category matches a source
/// (ignoring ASCII case) to `dst`, counting per source. When no expense's
/// category text changes, nothing is written and no snapshot is taken.
pub open spec fn reassign_spec(s: StoreView, sources: Seq<Seq<char>>, dst: Seq<char>) -> (
    StoreView,
    Result<Seq<nat>, ErrV>,
) {
    match list_spec(s) {
        Err(x) => (s, Err(x)),
        Ok(es) => {
            let counts = source_counts(es, sources);
            if reassign_changes(es, sources, dst) {
                (
                    write_all_spec(snapshot_spec(s), es.map_values(|e: ExpenseView| reassigned(e, sources, dst))),
                    Ok(counts),
                )
            } else {
                (s, Ok(counts))
            }
        },
    }
}

/// The expenses a `reassign_category` that changes something writes.
pub open spec fn reassigned_list(s: StoreView, sources: Seq<Seq<char>>, dst: Seq<char>) -> Seq<ExpenseView> {
    match list_spec(s) {
        Ok(es) => es.map_values(|e: ExpenseView| reassigned(e, sources, dst)),
        Err(_) => Seq::empty(),
    }
}

/// `e` without its category when that matches one of `cats`.
pub open spec fn cleared(e: ExpenseView, cats: Seq<Seq<char>>) -> ExpenseView {
    if matched(e, cats) {
        ExpenseView { category: None, ..e }
    } else {
        e
    }
}

pub open spec fn any_matched(es: Seq<ExpenseView>, cats: Seq<Seq<char>>) -> bool {
    exists|i: int| 0 <= i < es.len() && matched(#[trigger] es[i], cats)
}

/// `clear_categories`: drop the category of every expense whose category
/// matches one of `cats`, counting per category. When none matches, nothing
/// is written and no snapshot is taken.
pub open spec fn clear_spec(s: StoreView, cats: Seq<Seq<char>>) -> (StoreView, Result<Seq<nat>, ErrV>) {
    match list_spec(s) {
        Err(x) => (s, Err(x)),
        Ok(es) => {
            let counts = source_counts(es, cats);
            if any_matched(es, cats) {
                (write_all_spec(snapshot_spec(s), es.map_values(|e: ExpenseView| cleared(e, cats))), Ok(counts))
            } else {
                (s, Ok(counts))
            }
        },
    }
}

/// The expenses a `clear_categories` that matches something writes.
pub open spec fn cleared_list(s: StoreView, cats: Seq<Seq<char>>) -> Seq<ExpenseView> {
    match list_spec(s) {
        Ok(es) => es.map_values(|e: ExpenseView| cleared(e, cats)),
        Err(_) => Seq::empty(),
    }
}

// ----- undo -----
/// The first expense of `xs` whose name no expense of `ys` has (ignoring ASCII case).
pub open spec fn unmatched_at(xs: Seq<ExpenseView>, ys: Seq<ExpenseView>) -> int {
    first_where(xs.len() as int, |i: int| name_index(ys, xs[i].name) >= ys.len())
}

/// The first expense of `before` that `after` lacks or holds with other values.
pub open spec fn changed_at(before: Seq<ExpenseView>, after: Seq<ExpenseView>) -> int {
    first_where(
        before.len() as int,
        |i: int|
            {
                let k = name_index(after, before[i].name);
                k >= after.len() || after[k] != before[i]
            },
    )
}

/// What an undo from `after` back to `before` did, in words.
pub open spec fn diff_spec(before: Seq<ExpenseView>, after: Seq<ExpenseView>) -> Seq<char> {
    if after.len() > before.len() {
        let i = unmatched_at(after, before);
        if i < after.len() {
            "Undid add of '"@ + after[i].name + "'"@
        } else {
            "Undone"@
        }
    } else if after.len() < before.len() {
        let i = unmatched_at(before, after);
        if i < before.len() {
            "Restored '"@ + before[i].name + "'"@
        } else {
            "Undone"@
        }
    } else {
        let i = changed_at(before, after);
        if i < before.len() {
            "Reverted edit of '"@ + before[i].name + "'"@
        } else {
            "Undone"@
        }
    }
}

/// `restore`: put the snapshot back in place of the CSV file, and say what that undid.
pub open spec fn restore_spec(s: StoreView) -> (StoreView, Result<Seq<char>, ErrV>) {
    match s.undo {
        None => (s, Err((ErrorKind::NotFound, "nothing to undo"@))),
        Some(u) => match decode(u) {
            Err(m) => (s, Err((ErrorKind::InvalidData, m))),
            Ok(before) => match list_spec(s) {
                Err(x) => (s, Err(x)),
                Ok(after) => (StoreView { csv: Some(u), undo: None, ..s }, Ok(diff_spec(before, after))),
            },
        },
    }
}

#[verifier::external_body]
fn utf8_decode(b: &Vec<u8>) -> (r: Option<String>)
    ensures
        r is Some <==> valid_utf8(b@),
        r matches Some(s) ==> s@ == decode_utf8(b@),
{
    String::from_utf8(b.clone()).ok()
}

fn max_id_exec(es: &Vec<Expense>) -> (r: u64)
    ensures
        r == max_id(views(es@)),
{
    let ghost ev = views(es@);
    let mut m: u64 = 0;
    let mut i: usize = 0;
    while i < es.len()
        invariant
            ev == views(es@),
            i <= es@.len(),
            m == max_id(ev.take(i as int)),
        decreases es@.len() - i,
    {
        assert(ev.take(i + 1).drop_last() =~= ev.take(i as int));
        if es[i].id > m {
            m = es[i].id;
        }
        i = i + 1;
    }
    assert(ev.take(i as int) =~= ev);
    m
}

fn id_index_exec(es: &Vec<Expense>, id: u64) -> (r: usize)
    ensures
        r == id_index(views(es@), id),
{
    let ghost ev = views(es@);
    let mut i: usize = 0;
    while i < es.len()
        invariant
            ev == views(es@),
            i <= es@.len(),
            forall|t: int| 0 <= t < i ==> (#[trigger] ev[t]).id != id,
        decreases es@.len() - i,
    {
        if es[i].id == id {
            proof {
                lemma_id_index(ev, id, i as int);
            }
            return i;
        }
        i = i + 1;
    }
    proof {
        lemma_id_index(ev, id, i as int);
    }
    i
}

proof fn lemma_id_index(es: Seq<ExpenseView>, id: u64, i: int)
    requires
        0 <= i <= es.len(),
        forall|t: int| 0 <= t < i ==> (#[trigger] es[t]).id != id,
        i < es.len() ==> es[i].id == id,
    ensures
        id_index(es, id) == i,
    decreases es.len(),
{
    if es.len() > 0 {
        if i < es.len() - 1 {
            assert(es.drop_last()[i] == es[i]);
            lemma_id_index(es.drop_last(), id, i);
        } else {
            assert forall|t: int| 0 <= t < es.len() - 1 implies (
            #[trigger] es.drop_last()[t]).id != id by {
                assert(es.drop_last()[t] == es[t]);
            }
            lemma_id_index(es.drop_last(), id, es.len() - 1);
        }
    }
}

pub proof fn lemma_name_index(es: Seq<ExpenseView>, name: Seq<char>, i: int)
    requires
        0 <= i <= es.len(),
        forall|t: int| 0 <= t < i ==> !eq_ic((#[trigger] es[t]).name, name),
        i < es.len() ==> eq_ic(es[i].name, name),
    ensures
        name_index(es, name) == i,
    decreases es.len(),
{
    if es.len() > 0 {
        if i < es.len() - 1 {
            assert(es.drop_last()[i] == es[i]);
            lemma_name_index(es.drop_last(), name, i);
        } else {
            assert forall|t: int| 0 <= t < es.len() - 1 implies !eq_ic(
                (#[trigger] es.drop_last()[t]).name,
                name,
            ) by {
                assert(es.drop_last()[t] == es[t]);
            }
            lemma_name_index(es.drop_last(), name, es.len() - 1);
        }
    }
}

fn name_index_exec(es: &Vec<Expense>, name: &str) -> (r: usize)
    ensures
        r == name_index(views(es@), name@),
        r < es@.len() ==> eq_ic(es@[r as int]@.name, name@),
{
    let ghost ev = views(es@);
    let mut i: usize = 0;
    while i < es.len()
        invariant
            ev == views(es@),
            i <= es@.len(),
            forall|t: int| 0 <= t < i ==> !eq_ic((#[trigger] ev[t]).name, name@),
        decreases es@.len() - i,
    {
        if eq_ignore_ascii_case(es[i].name.as_str(), name) {
            proof {
                lemma_name_index(ev, name@, i as int);
            }
            return i;
        }
        i = i + 1;
    }
    proof {
        lemma_name_index(ev, name@, i as int);
    }
    i
}

fn message3(a: &str, b: &str, c: &str) -> (r: String)
    ensures
        r@ == a@ + b@ + c@,
{
    let mut m = string_of(a);
    push_str(&mut m, b);
    push_str(&mut m, c);
    m
}

/// Finds the expense that `target` names: `@id` by id, otherwise by name
/// (case-insensitive).
pub fn resolve_index_in(entries: &Vec<Expense>, target: &str) -> (r: Result<usize, StoreError>)
    ensures
        match r {
            Ok(i) => resolve_spec(views(entries@), target@) == Ok::<int, ErrV>(i as int),
            Err(e) => resolve_spec(views(entries@), target@) == Err::<int, ErrV>(err_view(e)),
        },
        r matches Ok(i) ==> i < entries@.len(),
{
    let ghost ev = views(entries@);
    let cs = chars_of(target);
    if cs.len() > 0 && cs[0] == '@' {
        let id_str = crate::text::string_from_slice(&cs, 1, cs.len());
        assert(id_str@ =~= target@.drop_first());
        match parse_u64(id_str.as_str()) {
            None => {
                let m = message3("invalid id '", target, "'");
                Err(StoreError::new(ErrorKind::InvalidInput, m))
            },
            Some(id) => {
                let i = id_index_exec(entries, id);
                if i < entries.len() {
                    Ok(i)
                } else {
                    let ids = u64_to_string(id);
                    let m = message3(
                        "no expense at @",
                        ids.as_str(),
                        ". Run 'recu ls' to see available expenses",
                    );
                    Err(StoreError::new(ErrorKind::NotFound, m))
                }
            },
        }
    } else {
        let i = name_index_exec(entries, target);
        if i < entries.len() {
            Ok(i)
        } else {
            let mut m = message3("expense '", target, "' not found");
            push_str(&mut m, ". Run 'recu ls' to see available expenses");
            Err(StoreError::new(ErrorKind::NotFound, m))
        }
    }
}

fn clone_bytes(o: &Option<Vec<u8>>) -> (r: Option<Vec<u8>>)
    ensures
        bytes_view(r) == bytes_view(*o),
{
    match o {
        Some(v) => Some(v.clone()),
        None => None,
    }
}

impl Store {
    /// A store at `path` whose files do not exist yet.
    pub fn at(path: String) -> (r: Store)
        ensures
            r@.path == path@,
            r@.csv is None && r@.seq is None && r@.undo is None,
    {
        Store { path, csv: None, seq: None, undo: None }
    }

    /// A store at `path` with the given contents of its CSV, `.seq` and `.undo` files.
    pub fn with_files(
        path: String,
        csv: Option<Vec<u8>>,
        seq: Option<Vec<u8>>,
        undo: Option<Vec<u8>>,
    ) -> (r: Store)
        ensures
            r@.path == path@,
            r@.csv == bytes_view(csv),
            r@.seq == bytes_view(seq),
            r@.undo == bytes_view(undo),
    {
        Store { path, csv, seq, undo }
    }

    pub fn path(&self) -> (r: &str)
        ensures
            r@ == self@.path,
    {
        self.path.as_str()
    }

    /// The contents of the CSV file, `None` when it does not exist.
    pub fn csv_file(&self) -> (r: Option<Vec<u8>>)
        ensures
            bytes_view(r) == self@.csv,
    {
        clone_bytes(&self.csv)
    }

    /// The contents of the `.seq` file.
    pub fn seq_file(&self) -> (r: Option<Vec<u8>>)
        ensures
            bytes_view(r) == self@.seq,
    {
        clone_bytes(&self.seq)
    }

    /// The contents of the `.undo` file.
    pub fn undo_file(&self) -> (r: Option<Vec<u8>>)
        ensures
            bytes_view(r) == self@.undo,
    {
        clone_bytes(&self.undo)
    }

    /// The persisted sequence number, if the `.seq` file holds one.
    fn read_seq(&self) -> (r: Option<u64>)
        ensures
            r == read_seq_spec(self@),
    {
        match &self.seq {
            None => None,
            Some(b) => match utf8_decode(b) {
                None => None,
                Some(text) => {
                    let t = trim(text.as_str());
                    parse_u64(t.as_str())
                },
            },
        }
    }

    /// Next id to assign. Monotonic and never reused: past every id in the
    /// file, and never below the persisted sequence number.
    fn next_id(&self, entries: &Vec<Expense>) -> (r: u64)
        requires
            next_id_spec(views(entries@), self@) < u64::MAX,
        ensures
            r == next_id_spec(views(entries@), self@),
    {
        let m = max_id_exec(entries);
        let a = match self.read_seq() {
            Some(n) => n,
            None => 0,
        };
        let b = m + 1;
        if a >= b {
            a
        } else {
            b
        }
    }

    /// Whether the ids in the file, and the sequence number, leave room for
    /// rewriting the file and handing out one more id.
    pub fn ids_have_room(&self) -> (r: bool)
        ensures
            r == (can_write(self@) && can_save(self@)),
    {
        match self.list() {
            Err(_) => true,
            Ok(entries) => {
                let m = max_id_exec(&entries);
                if m >= u64::MAX - 1 {
                    false
                } else {
                    match self.read_seq() {
                        Some(n) => n < u64::MAX,
                        None => true,
                    }
                }
            },
        }
    }

    /// Every expense in the store, in file order; none when the file does not exist.
    pub fn list(&self) -> (r: Result<Vec<Expense>, StoreError>)
        ensures
            match r {
                Ok(es) => list_spec(self@) == Ok::<Seq<ExpenseView>, ErrV>(views(es@)),
                Err(e) => list_spec(self@) == Err::<Seq<ExpenseView>, ErrV>(err_view(e)),
            },
            r matches Ok(es) ==> all_wf(views(es@)),
    {
        match &self.csv {
            None => {
                let v: Vec<Expense> = Vec::new();
                assert(views(v@) =~= Seq::<ExpenseView>::empty());
                Ok(v)
            },
            Some(b) => match decode_expenses(b.as_slice()) {
                Ok(es) => {
                    assert(all_wf(views(es@))) by {
                        assert forall|i: int| 0 <= i < views(es@).len() implies (
                        #[trigger] views(es@)[i]).wf() by {
                            assert(views(es@)[i] == es@[i]@);
                        }
                    }
                    Ok(es)
                },
                Err(m) => Err(StoreError::new(ErrorKind::InvalidData, m)),
            },
        }
    }

    /// Copies the CSV file, when it exists, to the undo file.
    fn snapshot(&mut self)
        ensures
            final(self)@ == snapshot_spec(old(self)@),
    {
        if self.csv.is_some() {
            self.undo = clone_bytes(&self.csv);
        }
    }

    /// Rewrites the CSV file with `entries` and raises the sequence number to
    /// one past the largest id when it is lower.
    fn write_all(&mut self, entries: &Vec<Expense>)
        requires
            all_wf(views(entries@)),
            ids_fit(views(entries@)),
        ensures
            final(self)@ == write_all_spec(old(self)@, views(entries@)),
            all_storable(views(entries@)) ==> list_spec(final(self)@) == Ok::<Seq<ExpenseView>, ErrV>(
                stored_all(views(entries@)),
            ),
    {
        proof {
            assert forall|i: int| 0 <= i < entries@.len() implies (#[trigger] entries@[i])@.wf() by {
                assert(views(entries@)[i] == entries@[i]@);
            }
        }
        let bytes = encode_expenses(entries);
        let max = max_id_exec(entries);
        let needed = max + 1;
        let cur = match self.read_seq() {
            Some(n) => n,
            None => 0,
        };
        if needed > cur {
            let text = u64_to_string(needed);
            self.seq = Some(text.as_str().as_bytes_vec());
        }
        self.csv = Some(bytes);
    }


    /// The expense that `target` names (`@id` or name, case-insensitive).
    pub fn get(&self, target: &str) -> (r: Result<Expense, StoreError>)
        ensures
            match r {
                Ok(e) => get_spec(self@, target@) == Ok::<ExpenseView, ErrV>(e@) && e@.wf(),
                Err(e) => get_spec(self@, target@) == Err::<ExpenseView, ErrV>(err_view(e)),
            },
    {
        let entries = self.list()?;
        let index = resolve_index_in(&entries, target)?;
        assert(views(entries@)[index as int] == entries@[index as int]@);
        Ok(clone_expense(&entries[index]))
    }

    /// Merges the fields that `changes` sets into the expense `target` names
    /// and returns the result. A patch that sets nothing changes nothing and
    /// takes no snapshot; one that would end the expense before it starts is
    /// refused.
    pub fn update(&mut self, target: &str, changes: &Expense) -> (r: Result<Expense, StoreError>)
        requires
            changes@.wf(),
            amount_form(changes@.amount),
            can_write(old(self)@),
        ensures
            (final(self)@, match r {
                Ok(e) => Ok::<ExpenseView, ErrV>(e@),
                Err(e) => Err::<ExpenseView, ErrV>(err_view(e)),
            }) == update_spec(old(self)@, target@, changes@),
            r is Ok && !no_changes(changes@) ==> list_spec(final(self)@) == Ok::<Seq<ExpenseView>, ErrV>(
                stored_all(updated_list(old(self)@, target@, changes@)),
            ),
            r is Ok && !no_changes(changes@) && old(self)@.csv is Some ==> undoes_to(final(self)@, old(self)@),
    {
        let mut entries = self.list()?;
        let ghost es = views(entries@);
        let index = resolve_index_in(&entries, target)?;
        assert(es[index as int] == entries@[index as int]@);
        if changes.amount.is_none() && changes.currency.is_none() && changes.start_date.is_none()
            && changes.interval.is_none() && changes.category.is_none()
            && changes.end_date.is_none() {
            return Ok(clone_expense(&entries[index]));
        }
        let mut expense = clone_expense(&entries[index]);
        if changes.amount.is_some() {
            expense.amount = crate::expense::clone_opt(&changes.amount);
        }
        if changes.currency.is_some() {
            expense.currency = crate::expense::clone_opt(&changes.currency);
        }
        if changes.start_date.is_some() {
            expense.start_date = changes.start_date;
        }
        if changes.interval.is_some() {
            expense.interval = changes.interval;
        }
        if changes.category.is_some() {
            expense.category = crate::expense::clone_opt(&changes.category);
        }
        if changes.end_date.is_some() {
            expense.end_date = changes.end_date;
        }
        assert(expense@ == merge(es[index as int], changes@));
        if let (Some(st), Some(en)) = (&expense.start_date, &expense.end_date) {
            if crate::date::date_lt(en, st) {
                let mut m = string_of("end date ");
                let et = crate::csv_format::date_to_string(en);
                push_str(&mut m, et.as_str());
                push_str(&mut m, " is before start date ");
                let stt = crate::csv_format::date_to_string(st);
                push_str(&mut m, stt.as_str());
                return Err(StoreError::new(ErrorKind::InvalidInput, m));
            }
        }
        let result = clone_expense(&expense);
        self.snapshot();
        let ghost m = expense@;
        entries.set(index, expense);
        proof {
            assert(views(entries@) =~= es.update(index as int, m));
            lemma_ids_fit_update(es, index as int, m);
            assert(all_wf(views(entries@))) by {
                assert forall|i: int| 0 <= i < views(entries@).len() implies (
                #[trigger] views(entries@)[i]).wf() by {
                    if i != index {
                        assert(views(entries@)[i] == es[i]);
                    }
                }
            }
        }
        proof {
            lemma_listed_storable(old(self)@);
            lemma_update_storable(es, index as int, m);
        }
        self.write_all(&entries);
        Ok(result)
    }

    /// Renames the expense `target` names, unless another expense (ignoring
    /// ASCII case) has the new name.
    pub fn rename(&mut self, target: &str, new_name: &str) -> (r: Result<(), StoreError>)
        requires
            can_write(old(self)@),
        ensures
            (final(self)@, res_view(r)) == rename_spec(old(self)@, target@, new_name@),
            r is Ok ==> list_spec(
                final(self)@,
            ) == Ok::<Seq<ExpenseView>, ErrV>(stored_all(renamed_list(old(self)@, target@, new_name@))),
            r is Ok && old(self)@.csv is Some ==> undoes_to(final(self)@, old(self)@),
    {
        let mut entries = self.list()?;
        let ghost es = views(entries@);
        let index = resolve_index_in(&entries, target)?;
        let mut j: usize = 0;
        while j < entries.len()
            invariant
                self@ == old(self)@,
                list_spec(old(self)@) == Ok::<Seq<ExpenseView>, ErrV>(es),
                resolve_spec(es, target@) == Ok::<int, ErrV>(index as int),
                es == views(entries@),
                index < entries@.len(),
                j <= entries@.len(),
                forall|t: int| 0 <= t < j && t != index ==> !eq_ic((#[trigger] es[t]).name, new_name@),
            decreases entries@.len() - j,
        {
            if j != index && eq_ignore_ascii_case(entries[j].name.as_str(), new_name) {
                assert(es[j as int] == entries@[j as int]@);
                assert(other_has_name(es, index as int, new_name@));
                let m = message3("expense '", new_name, "' already exists");
                return Err(StoreError::new(ErrorKind::AlreadyExists, m));
            }
            j = j + 1;
        }
        self.snapshot();
        let mut e = clone_expense(&entries[index]);
        e.name = string_of(new_name);
        let ghost m = e@;
        assert(m == ExpenseView { name: new_name@, ..es[index as int] });
        entries.set(index, e);
        proof {
            assert(views(entries@) =~= es.update(index as int, m));
            lemma_ids_fit_update(es, index as int, m);
            assert(all_wf(views(entries@))) by {
                assert forall|i: int| 0 <= i < views(entries@).len() implies (
                #[trigger] views(entries@)[i]).wf() by {
                    if i != index {
                        assert(views(entries@)[i] == es[i]);
                    }
                }
            }
        }
        proof {
            lemma_listed_storable(old(self)@);
            lemma_update_storable(es, index as int, m);
        }
        self.write_all(&entries);
        Ok(())
    }

    /// Removes every expense that `targets` name, after a snapshot; returns
    /// their names in target order. A target that names an expense already
    /// named is an error, and nothing is removed.
    pub fn remove(&mut self, targets: &Vec<&str>) -> (r: Result<Vec<String>, StoreError>)
        requires
            can_write(snapshot_spec(old(self)@)),
        ensures
            (final(self)@, match r {
                Ok(names) => Ok::<Seq<Seq<char>>, ErrV>(crate::csv_format::strings_view(names@)),
                Err(e) => Err::<Seq<Seq<char>>, ErrV>(err_view(e)),
            }) == remove_spec(old(self)@, strs_view(targets@)),
            r is Ok ==> list_spec(
                final(self)@,
            ) == Ok::<Seq<ExpenseView>, ErrV>(stored_all(removed_list(old(self)@, strs_view(targets@)))),
            r is Ok && old(self)@.csv is Some ==> undoes_to(final(self)@, old(self)@),
    {
        let entries = self.list()?;
        let ghost s1 = self@;
        let ghost es = views(entries@);
        let ghost tv = strs_view(targets@);
        let mut resolved: Vec<usize> = Vec::new();
        let mut names: Vec<String> = Vec::new();
        proof {
            assert(tv.take(0) =~= Seq::<Seq<char>>::empty());
            assert(resolved@.map_values(|i: usize| i as int) =~= Seq::<int>::empty());
            assert(crate::csv_format::strings_view(names@) =~= Seq::<Seq<char>>::empty());
        }
        let mut p: usize = 0;
        while p < targets.len()
            invariant
                self@ == s1,
                s1 == old(self)@,
                list_spec(s1) == Ok::<Seq<ExpenseView>, ErrV>(es),
                es == views(entries@),
                tv == strs_view(targets@),
                p <= targets@.len(),
                resolve_all(es, tv.take(p as int)) == Ok::<Seq<int>, ErrV>(
                    resolved@.map_values(|i: usize| i as int),
                ),
                forall|k: int| 0 <= k < resolved@.len() ==> #[trigger] resolved@[k] < entries@.len(),
                crate::csv_format::strings_view(names@) == names_at(
                    es,
                    resolved@.map_values(|i: usize| i as int),
                ),
            decreases targets@.len() - p,
        {
            assert(tv.take(p + 1).drop_last() =~= tv.take(p as int));
            assert(tv.take(p + 1).last() == targets@[p as int]@);
            let index = match resolve_index_in(&entries, targets[p]) {
                Ok(i) => i,
                Err(e) => {
                    proof {
                        lemma_resolve_all_err(es, tv, p + 1, err_view(e));
                    }
                    return Err(e);
                },
            };
            if index_taken(&resolved, index) {
                proof {
                    lemma_resolve_all_err(
                        es,
                        tv,
                        p + 1,
                        (ErrorKind::InvalidInput, "duplicate target '"@ + tv[p as int] + "'"@),
                    );
                }
                let m = message3("duplicate target '", targets[p], "'");
                return Err(StoreError::new(ErrorKind::InvalidInput, m));
            }
            let ghost rv0 = resolved@;
            let ghost nv0 = names@;
            resolved.push(index);
            names.push(clone_string_of(&entries[index].name));
            proof {
                assert(resolved@.map_values(|i: usize| i as int) =~= rv0.map_values(
                    |i: usize| i as int,
                ).push(index as int));
                assert(es[index as int] == entries@[index as int]@);
                assert(names@ =~= nv0.push(names@.last()));
                assert(crate::csv_format::strings_view(names@) =~= crate::csv_format::strings_view(
                    nv0,
                ).push(es[index as int].name));
                assert(names_at(es, resolved@.map_values(|i: usize| i as int)) =~= names_at(
                    es,
                    rv0.map_values(|i: usize| i as int),
                ).push(es[index as int].name));
            }
            p = p + 1;
        }
        assert(tv.take(p as int) =~= tv);
        let ghost idxs = resolved@.map_values(|i: usize| i as int);
        let mut remaining: Vec<Expense> = Vec::new();
        assert(views(remaining@) =~= Seq::<ExpenseView>::empty());
        let mut i: usize = 0;
        while i < entries.len()
            invariant
                es == views(entries@),
                idxs == resolved@.map_values(|i: usize| i as int),
                all_wf(es),
                i <= entries@.len(),
                views(remaining@) == kept(es, idxs, i as int),
                forall|t: int| 0 <= t < remaining@.len() ==> (#[trigger] remaining@[t])@.wf(),
            decreases entries@.len() - i,
        {
            if !index_taken(&resolved, i) {
                let ghost before = remaining@;
                remaining.push(clone_expense(&entries[i]));
                assert(views(remaining@) =~= views(before).push(es[i as int]));
            }
            i = i + 1;
        }
        proof {
            lemma_kept_fits(es, idxs, es.len() as int);
            assert(all_wf(views(remaining@))) by {
                assert forall|t: int| 0 <= t < views(remaining@).len() implies (
                #[trigger] views(remaining@)[t]).wf() by {
                    assert(views(remaining@)[t] == remaining@[t]@);
                }
            }
        }
        self.snapshot();
        proof {
            lemma_listed_storable(old(self)@);
            lemma_kept_storable(es, idxs, es.len() as int);
        }
        self.write_all(&remaining);
        Ok(names)
    }

    /// Adds `expense` under the next id; refused when an expense of the same
    /// name (ignoring ASCII case) exists. The CSV file is snapshotted before
    /// it is written.
    pub fn save(&mut self, expense: &Expense) -> (r: Result<(), StoreError>)
        requires
            old(self)@.wf_request(expense@),
        ensures
            (final(self)@, res_view(r)) == save_spec(old(self)@, expense@),
            r is Ok ==> list_spec(final(self)@)
                == Ok::<Seq<ExpenseView>, ErrV>(stored_all(saved_list(old(self)@, expense@))),
            r is Ok && old(self)@.csv is Some ==> undoes_to(final(self)@, old(self)@),
    {
        let mut entries = self.list()?;
        let ghost es = views(entries@);
        let taken = name_index_exec(&entries, expense.name.as_str());
        if taken < entries.len() {
            assert(es[taken as int] == entries@[taken as int]@);
            assert(has_name(es, expense@.name));
            let m = message3("expense '", expense.name.as_str(), "' already exists");
            return Err(StoreError::new(ErrorKind::AlreadyExists, m));
        }
        proof {
            if has_name(es, expense@.name) {
                let t = choose|t: int| 0 <= t < es.len() && eq_ic((#[trigger] es[t]).name, expense@.name);
                lemma_name_index_bound(es, expense@.name, t);
            }
        }
        let mut new_entry = clone_expense(expense);
        new_entry.id = self.next_id(&entries);
        let ghost n = new_entry@;
        entries.push(new_entry);
        proof {
            assert(views(entries@) =~= es.push(n));
            lemma_max_id_push(es, n);
            assert(all_wf(views(entries@))) by {
                assert forall|i: int| 0 <= i < views(entries@).len() implies (
                #[trigger] views(entries@)[i]).wf() by {
                    if i < es.len() {
                        assert(views(entries@)[i] == es[i]);
                    }
                }
            }
        }
        self.snapshot();
        proof {
            lemma_listed_storable(old(self)@);
            assert forall|k: int| 0 <= k < views(entries@).len() implies storable(#[trigger] views(entries@)[k]) by {
                if k < es.len() {
                    assert(views(entries@)[k] == es[k]);
                } else {
                    assert(views(entries@)[k] == n);
                    assert(storable(expense@));
                    assert(n == ExpenseView { id: n.id, ..expense@ });
                }
            }
        }
        self.write_all(&entries);
        Ok(())
    }
}

impl StoreView {
    /// What `save` asks of the store and the new expense: dates valid, ids in range.
    pub open spec fn wf_request(self, e: ExpenseView) -> bool {
        &&& storable(e)
        &&& can_save(snapshot_spec(self))
    }
}


/// Whether `x` is among the indices resolved so far.
fn index_taken(resolved: &Vec<usize>, x: usize) -> (r: bool)
    ensures
        r == resolved@.map_values(|i: usize| i as int).contains(x as int),
{
    let ghost iv = resolved@.map_values(|i: usize| i as int);
    let mut k: usize = 0;
    while k < resolved.len()
        invariant
            iv == resolved@.map_values(|i: usize| i as int),
            k <= resolved@.len(),
            forall|t: int| 0 <= t < k ==> resolved@[t] != x,
        decreases resolved@.len() - k,
    {
        if resolved[k] == x {
            assert(iv[k as int] == x as int);
            return true;
        }
        k = k + 1;
    }
    proof {
        if iv.contains(x as int) {
            let t = choose|t: int| 0 <= t < iv.len() && #[trigger] iv[t] == x as int;
            assert(resolved@[t] == x);
        }
    }
    false
}

fn clone_string_of(s: &String) -> (r: String)
    ensures
        r@ == s@,
{
    string_of(s.as_str())
}

pub proof fn lemma_max_id_bound(es: Seq<ExpenseView>, i: int)
    requires
        0 <= i < es.len(),
    ensures
        es[i].id <= max_id(es),
        max_id(es) >= 0,
    decreases es.len(),
{
    if i < es.len() - 1 {
        assert(es.drop_last()[i] == es[i]);
        lemma_max_id_bound(es.drop_last(), i);
    } else if es.len() > 1 {
        lemma_max_id_bound(es.drop_last(), 0);
    }
}

proof fn lemma_max_id_is_some(es: Seq<ExpenseView>)
    ensures
        max_id(es) == 0 || exists|i: int| 0 <= i < es.len() && (#[trigger] es[i]).id == max_id(es),
    decreases es.len(),
{
    if es.len() > 0 {
        lemma_max_id_is_some(es.drop_last());
        if max_id(es) != 0 && max_id(es) == max_id(es.drop_last()) && es.last().id != max_id(es) {
            let i = choose|i: int|
                0 <= i < es.drop_last().len() && (#[trigger] es.drop_last()[i]).id == max_id(
                    es.drop_last(),
                );
            assert(es[i] == es.drop_last()[i]);
        }
    }
}

/// An index that `resolve_spec` gives is in range.
/// What `name_index` finds: the first expense named `name` (ignoring ASCII
/// case), or the length when there is none.
pub proof fn lemma_name_index_found(es: Seq<ExpenseView>, name: Seq<char>)
    ensures
        0 <= name_index(es, name) <= es.len(),
        name_index(es, name) < es.len() ==> eq_ic(es[name_index(es, name)].name, name),
        forall|t: int| 0 <= t < name_index(es, name) ==> !eq_ic((#[trigger] es[t]).name, name),
    decreases es.len(),
{
    if es.len() > 0 {
        lemma_name_index_found(es.drop_last(), name);
        assert forall|t: int| 0 <= t < name_index(es, name) implies !eq_ic((#[trigger] es[t]).name, name) by {
            assert(t < es.len() - 1 ==> es.drop_last()[t] == es[t]);
        }
        if name_index(es.drop_last(), name) < es.len() - 1 {
            assert(es.drop_last()[name_index(es, name)] == es[name_index(es, name)]);
        }
    }
}

/// What `id_index` finds: the first expense with id `id`, or the length.
pub proof fn lemma_id_index_found(es: Seq<ExpenseView>, id: u64)
    ensures
        0 <= id_index(es, id) <= es.len(),
        id_index(es, id) < es.len() ==> es[id_index(es, id)].id == id,
        forall|t: int| 0 <= t < id_index(es, id) ==> (#[trigger] es[t]).id != id,
    decreases es.len(),
{
    if es.len() > 0 {
        lemma_id_index_found(es.drop_last(), id);
        assert forall|t: int| 0 <= t < id_index(es, id) implies (#[trigger] es[t]).id != id by {
            assert(t < es.len() - 1 ==> es.drop_last()[t] == es[t]);
        }
        if id_index(es.drop_last(), id) < es.len() - 1 {
            assert(es.drop_last()[id_index(es, id)] == es[id_index(es, id)]);
        }
    }
}

pub proof fn lemma_resolve_range(es: Seq<ExpenseView>, target: Seq<char>)
    ensures
        resolve_spec(es, target) matches Ok(i) ==> 0 <= i < es.len(),
{
    lemma_index_nonneg(es, target);
}

proof fn lemma_index_nonneg(es: Seq<ExpenseView>, name: Seq<char>)
    ensures
        name_index(es, name) >= 0,
        forall|id: u64| #[trigger] id_index(es, id) >= 0,
    decreases es.len(),
{
    if es.len() > 0 {
        lemma_index_nonneg(es.drop_last(), name);
        assert forall|id: u64| #[trigger] id_index(es, id) >= 0 by {
            assert(id_index(es.drop_last(), id) >= 0);
        }
    }
}

pub proof fn lemma_ids_fit_update(es: Seq<ExpenseView>, i: int, e: ExpenseView)
    requires
        0 <= i < es.len(),
        ids_fit(es),
        e.id == es[i].id,
    ensures
        ids_fit(es.update(i, e)),
{
    let es2 = es.update(i, e);
    lemma_max_id_is_some(es2);
    if max_id(es2) != 0 {
        let j = choose|j: int| 0 <= j < es2.len() && (#[trigger] es2[j]).id == max_id(es2);
        lemma_max_id_bound(es, j);
    }
}

pub proof fn lemma_kept_fits(es: Seq<ExpenseView>, idxs: Seq<int>, n: int)
    requires
        0 <= n <= es.len(),
    ensures
        max_id(kept(es, idxs, n)) <= max_id(es),
        forall|t: int| 0 <= t < kept(es, idxs, n).len() ==> exists|j: int| 0 <= j < n && (#[trigger] kept(es, idxs, n)[t]) == es[j],
    decreases n,
{
    if n > 0 {
        lemma_kept_fits(es, idxs, n - 1);
        let k0 = kept(es, idxs, n - 1);
        if !idxs.contains(n - 1) {
            let k1 = k0.push(es[n - 1]);
            assert(k1.drop_last() =~= k0);
            lemma_max_id_bound(es, n - 1);
            assert forall|t: int| 0 <= t < k1.len() implies exists|j: int| 0 <= j < n && (#[trigger] k1[t]) == es[j] by {
                if t < k0.len() {
                    let j = choose|j: int| 0 <= j < n - 1 && (#[trigger] k0[t]) == es[j];
                    assert(k1[t] == es[j]);
                } else {
                    assert(k1[t] == es[n - 1]);
                }
            }
        }
    }
}

proof fn lemma_resolve_all_err(es: Seq<ExpenseView>, ts: Seq<Seq<char>>, p: int, x: ErrV)
    requires
        0 <= p <= ts.len(),
        resolve_all(es, ts.take(p)) == Err::<Seq<int>, ErrV>(x),
    ensures
        resolve_all(es, ts) == Err::<Seq<int>, ErrV>(x),
    decreases ts.len() - p,
{
    if p < ts.len() {
        assert(ts.drop_last().take(p) =~= ts.take(p));
        lemma_resolve_all_err(es, ts.drop_last(), p, x);
    } else {
        assert(ts.take(p) =~= ts);
    }
}

pub proof fn lemma_name_index_bound(es: Seq<ExpenseView>, name: Seq<char>, t: int)
    requires
        0 <= t < es.len(),
        eq_ic(es[t].name, name),
    ensures
        name_index(es, name) <= t,
    decreases es.len(),
{
    if t < es.len() - 1 {
        assert(es.drop_last()[t] == es[t]);
        lemma_name_index_bound(es.drop_last(), name, t);
    }
}

pub proof fn lemma_max_id_push(es: Seq<ExpenseView>, e: ExpenseView)
    ensures
        max_id(es.push(e)) == if e.id > max_id(es) {
            e.id as int
        } else {
            max_id(es)
        },
{
    assert(es.push(e).drop_last() =~= es);
}


/// `first_where` finds an index that holds `p` when it finds one at all.
pub proof fn lemma_first_where_hit(n: int, p: spec_fn(int) -> bool)
    ensures
        0 <= first_where(n, p) <= (if n > 0 { n } else { 0 }),
        first_where(n, p) < n ==> p(first_where(n, p)),
        forall|t: int| 0 <= t < first_where(n, p) ==> !#[trigger] p(t),
    decreases n,
{
    if n > 0 {
        lemma_first_where_hit(n - 1, p);
    }
}

/// Two lists sorted strictly by lowercase text that hold the same strings are equal.
pub proof fn lemma_sorted_same_unique(a: Seq<Seq<char>>, b: Seq<Seq<char>>)
    requires
        sorted_ic(a),
        sorted_ic(b),
        same_items(a, b),
    ensures
        a == b,
    decreases a.len(),
{
    if a.len() > 0 {
        assert(a.contains(a[0]));
        assert(b.contains(b[0]));
        let k = choose|k: int| 0 <= k < b.len() && b[k] == a[0];
        let m = choose|m: int| 0 <= m < a.len() && a[m] == b[0];
        if k > 0 {
            if m > 0 {
                lemma_text_lt_asymmetric(lower_seq(b[0]), lower_seq(b[k]));
            } else {
                lemma_text_lt_irreflexive(lower_seq(b[0]));
            }
        }
        let a1 = a.drop_first();
        let b1 = b.drop_first();
        assert forall|x: Seq<char>| a1.contains(x) <==> b1.contains(x) by {
            if a1.contains(x) {
                let i = choose|i: int| 0 <= i < a1.len() && a1[i] == x;
                assert(a[i + 1] == x);
                assert(a.contains(x));
                assert(b.contains(x));
                let j = choose|j: int| 0 <= j < b.len() && b[j] == x;
                if j == 0 {
                    lemma_text_lt_irreflexive(lower_seq(a[0]));
                }
                assert(b1[j - 1] == x);
            }
            if b1.contains(x) {
                let i = choose|i: int| 0 <= i < b1.len() && b1[i] == x;
                assert(b[i + 1] == x);
                assert(b.contains(x));
                assert(a.contains(x));
                let j = choose|j: int| 0 <= j < a.len() && a[j] == x;
                if j == 0 {
                    lemma_text_lt_irreflexive(lower_seq(b[0]));
                }
                assert(a1[j - 1] == x);
            }
        }
        assert(sorted_ic(a1)) by {
            assert forall|i: int, j: int| 0 <= i < j < a1.len() implies text_lt(
                lower_seq(#[trigger] a1[i]),
                lower_seq(#[trigger] a1[j]),
            ) by {
                assert(a1[i] == a[i + 1] && a1[j] == a[j + 1]);
            }
        }
        assert(sorted_ic(b1)) by {
            assert forall|i: int, j: int| 0 <= i < j < b1.len() implies text_lt(
                lower_seq(#[trigger] b1[i]),
                lower_seq(#[trigger] b1[j]),
            ) by {
                assert(b1[i] == b[i + 1] && b1[j] == b[j + 1]);
            }
        }
        lemma_sorted_same_unique(a1, b1);
        assert(a =~= b) by {
            assert forall|i: int| 0 <= i < a.len() implies a[i] == b[i] by {
                if i > 0 {
                    assert(a[i] == a1[i - 1] && b[i] == b1[i - 1]);
                }
            }
        }
    } else {
        assert(a =~= b);
    }
}

pub proof fn lemma_first_where(n: int, p: spec_fn(int) -> bool, i: int)
    requires
        0 <= i <= n,
        forall|t: int| 0 <= t < i ==> !#[trigger] p(t),
        i < n ==> p(i),
    ensures
        first_where(n, p) == i,
    decreases n,
{
    if n > 0 {
        if i < n - 1 {
            lemma_first_where(n - 1, p, i);
        } else {
            lemma_first_where(n - 1, p, n - 1);
        }
    }
}

proof fn lemma_same_items_has_ic(a: Seq<Seq<char>>, b: Seq<Seq<char>>, c: Seq<char>)
    requires
        same_items(a, b),
    ensures
        has_ic(a, c) == has_ic(b, c),
{
    if has_ic(a, c) {
        let i = choose|i: int| 0 <= i < a.len() && eq_ic(#[trigger] a[i], c);
        assert(a.contains(a[i]));
        assert(b.contains(a[i]));
        let j = choose|j: int| 0 <= j < b.len() && b[j] == a[i];
        assert(eq_ic(b[j], c));
    }
    if has_ic(b, c) {
        let i = choose|i: int| 0 <= i < b.len() && eq_ic(#[trigger] b[i], c);
        assert(b.contains(b[i]));
        assert(a.contains(b[i]));
        let j = choose|j: int| 0 <= j < a.len() && a[j] == b[i];
        assert(eq_ic(a[j], c));
    }
}

proof fn lemma_sorted_insert(s: Seq<Seq<char>>, pos: int, c: Seq<char>)
    requires
        sorted_ic(s),
        0 <= pos <= s.len(),
        !has_ic(s, c),
        forall|t: int| 0 <= t < pos ==> !text_lt(lower_seq(c), lower_seq(#[trigger] s[t])),
        pos < s.len() ==> text_lt(lower_seq(c), lower_seq(s[pos])),
    ensures
        sorted_ic(s.insert(pos, c)),
{
    let n = s.insert(pos, c);
    s.insert_ensures(pos, c);
    assert forall|i: int, j: int| 0 <= i < j < n.len() implies text_lt(
        lower_seq(#[trigger] n[i]),
        lower_seq(#[trigger] n[j]),
    ) by {
        if i < pos {
            assert(n[i] == s[i]);
            if j < pos {
                assert(n[j] == s[j]);
            } else if j == pos {
                assert(!eq_ic(s[i], c));
                lemma_text_lt_total(lower_seq(s[i]), lower_seq(c));
            } else {
                assert(n[j] == s[j - 1]);
            }
        } else if i == pos {
            assert(n[j] == s[j - 1]);
            if j - 1 > pos {
                lemma_text_lt_transitive(lower_seq(c), lower_seq(s[pos]), lower_seq(s[j - 1]));
            }
        } else {
            assert(n[i] == s[i - 1]);
            assert(n[j] == s[j - 1]);
        }
    }
}

proof fn lemma_insert_same_items(s: Seq<Seq<char>>, f: Seq<Seq<char>>, pos: int, c: Seq<char>)
    requires
        same_items(s, f),
        0 <= pos <= s.len(),
    ensures
        same_items(s.insert(pos, c), f.push(c)),
{
    let n = s.insert(pos, c);
    s.insert_ensures(pos, c);
    assert forall|x: Seq<char>| n.contains(x) <==> f.push(c).contains(x) by {
        if n.contains(x) {
            let k = choose|k: int| 0 <= k < n.len() && n[k] == x;
            if k == pos {
                assert(f.push(c)[f.len() as int] == x);
            } else {
                let m = if k < pos { k } else { k - 1 };
                assert(s[m] == x);
                assert(s.contains(x));
                assert(f.contains(x));
                let q = choose|q: int| 0 <= q < f.len() && f[q] == x;
                assert(f.push(c)[q] == x);
            }
        }
        if f.push(c).contains(x) {
            let k = choose|k: int| 0 <= k < f.push(c).len() && f.push(c)[k] == x;
            if k == f.len() {
                assert(n[pos] == x);
            } else {
                assert(f[k] == x);
                assert(f.contains(x));
                assert(s.contains(x));
                let m = choose|m: int| 0 <= m < s.len() && s[m] == x;
                if m < pos {
                    assert(n[m] == x);
                } else {
                    assert(n[m + 1] == x);
                }
            }
        }
    }
}

/// Whether some string of `out` equals `c` up to ASCII case.
fn has_ic_exec(out: &Vec<String>, c: &str) -> (r: bool)
    ensures
        r == has_ic(crate::csv_format::strings_view(out@), c@),
{
    let ghost sv = crate::csv_format::strings_view(out@);
    let mut i: usize = 0;
    while i < out.len()
        invariant
            sv == crate::csv_format::strings_view(out@),
            i <= out@.len(),
            forall|t: int| 0 <= t < i ==> !eq_ic(#[trigger] sv[t], c@),
        decreases out@.len() - i,
    {
        if eq_ignore_ascii_case(out[i].as_str(), c) {
            assert(eq_ic(sv[i as int], c@));
            return true;
        }
        i = i + 1;
    }
    false
}

/// Where `c` goes in `out`, which is sorted by lowercase text: before the
/// first element whose lowercase text sorts after that of `c`.
fn insert_position(out: &Vec<String>, c: &str) -> (r: usize)
    ensures
        r <= out@.len(),
        forall|t: int| 0 <= t < r ==> !text_lt(lower_seq(c@), lower_seq(#[trigger] out@[t]@)),
        r < out@.len() ==> text_lt(lower_seq(c@), lower_seq(out@[r as int]@)),
{
    let lc = ascii_lowercase(c);
    let mut i: usize = 0;
    while i < out.len()
        invariant
            lc@ == lower_seq(c@),
            i <= out@.len(),
            forall|t: int| 0 <= t < i ==> !text_lt(lower_seq(c@), lower_seq(#[trigger] out@[t]@)),
        decreases out@.len() - i,
    {
        let lo = ascii_lowercase(out[i].as_str());
        if text_less(lc.as_str(), lo.as_str()) {
            return i;
        }
        i = i + 1;
    }
    i
}

impl Store {
    /// The distinct categories in the store, ignoring ASCII case (the first
    /// spelling seen is kept), sorted by their lowercase text.
    pub fn categories(&self) -> (r: Result<Vec<String>, StoreError>)
        ensures
            match r {
                Ok(v) => list_spec(self@) matches Ok(es) && categories_ok(
                    es,
                    crate::csv_format::strings_view(v@),
                ) && crate::csv_format::strings_view(v@) == categories_spec(es),
                Err(e) => list_spec(self@) == Err::<Seq<ExpenseView>, ErrV>(err_view(e)),
            },
    {
        let entries = self.list()?;
        let ghost es = views(entries@);
        let mut out: Vec<String> = Vec::new();
        proof {
            assert(es.take(0) =~= Seq::<ExpenseView>::empty());
            assert(crate::csv_format::strings_view(out@) =~= Seq::<Seq<char>>::empty());
        }
        let mut j: usize = 0;
        while j < entries.len()
            invariant
                es == views(entries@),
                j <= entries@.len(),
                sorted_ic(crate::csv_format::strings_view(out@)),
                same_items(crate::csv_format::strings_view(out@), first_spellings(es.take(j as int))),
            decreases entries@.len() - j,
        {
            let ghost f = first_spellings(es.take(j as int));
            let ghost sv = crate::csv_format::strings_view(out@);
            assert(es.take(j + 1).drop_last() =~= es.take(j as int));
            assert(es.take(j + 1).last() == entries@[j as int]@);
            match &entries[j].category {
                None => {},
                Some(c) => {
                    proof {
                        lemma_same_items_has_ic(sv, f, c@);
                    }
                    if !has_ic_exec(&out, c.as_str()) {
                        let pos = insert_position(&out, c.as_str());
                        out.insert(pos, clone_string(c));
                        proof {
                            assert(crate::csv_format::strings_view(out@) =~= sv.insert(pos as int, c@));
                            lemma_sorted_insert(sv, pos as int, c@);
                            lemma_insert_same_items(sv, f, pos as int, c@);
                        }
                    }
                },
            }
            j = j + 1;
        }
        assert(es.take(j as int) =~= es);
        proof {
            let sv = crate::csv_format::strings_view(out@);
            assert(categories_ok(es, sv));
            lemma_sorted_same_unique(sv, categories_spec(es));
        }
        Ok(out)
    }
}


pub open spec fn strs_view(v: Seq<&str>) -> Seq<Seq<char>> {
    v.map_values(|t: &str| t@)
}

pub open spec fn counts_view(c: Seq<usize>) -> Seq<nat> {
    c.map_values(|n: usize| n as nat)
}

/// The index of the first of `sources` equal to `c` up to ASCII case, or `sources.len()`.
fn source_index(sources: &Vec<&str>, c: &str) -> (r: usize)
    ensures
        r == source_of(strs_view(sources@), c@),
{
    let ghost sv = strs_view(sources@);
    let ghost p = |i: int| eq_ic(c@, sv[i]);
    let mut i: usize = 0;
    while i < sources.len()
        invariant
            sv == strs_view(sources@),
            p == (|i: int| eq_ic(c@, sv[i])),
            i <= sources@.len(),
            forall|t: int| 0 <= t < i ==> !#[trigger] p(t),
        decreases sources@.len() - i,
    {
        if eq_ignore_ascii_case(c, sources[i]) {
            proof {
                assert(p(i as int));
                lemma_first_where(sv.len() as int, p, i as int);
            }
            return i;
        }
        i = i + 1;
    }
    proof {
        lemma_first_where(sv.len() as int, p, i as int);
    }
    i
}

proof fn lemma_count_source_bound(es: Seq<ExpenseView>, sources: Seq<Seq<char>>, k: int)
    ensures
        count_source(es, sources, k) <= es.len(),
    decreases es.len(),
{
    if es.len() > 0 {
        lemma_count_source_bound(es.drop_last(), sources, k);
    }
}

pub proof fn lemma_same_ids_max(a: Seq<ExpenseView>, b: Seq<ExpenseView>)
    requires
        a.len() == b.len(),
        forall|i: int| 0 <= i < a.len() ==> (#[trigger] a[i]).id == b[i].id,
    ensures
        max_id(a) == max_id(b),
    decreases a.len(),
{
    if a.len() > 0 {
        assert forall|i: int| 0 <= i < a.drop_last().len() implies (
        #[trigger] a.drop_last()[i]).id == b.drop_last()[i].id by {
            assert(a[i].id == b[i].id);
        }
        lemma_same_ids_max(a.drop_last(), b.drop_last());
    }
}

/// A vector of `n` zeros.
fn zeros(n: usize) -> (r: Vec<usize>)
    ensures
        r@.len() == n,
        forall|t: int| 0 <= t < n ==> r@[t] == 0,
{
    let mut r: Vec<usize> = Vec::new();
    let mut k: usize = 0;
    while k < n
        invariant
            k <= n,
            r@.len() == k,
            forall|t: int| 0 <= t < k ==> r@[t] == 0,
        decreases n - k,
    {
        r.push(0);
        k = k + 1;
    }
    r
}

proof fn lemma_counts_step(es: Seq<ExpenseView>, sv: Seq<Seq<char>>, j: int, counts0: Seq<usize>, counts: Seq<usize>)
    requires
        0 <= j < es.len(),
        counts0.len() == sv.len(),
        forall|t: int| 0 <= t < counts0.len() ==> counts0[t] as nat == #[trigger] count_source(es.take(j), sv, t),
        counts.len() == sv.len(),
        forall|t: int|
            0 <= t < counts.len() ==> (#[trigger] counts[t]) as int == counts0[t] + if es[j].category
                matches Some(c) && source_of(sv, c) == t {
                1int
            } else {
                0int
            },
    ensures
        forall|t: int| 0 <= t < counts.len() ==> counts[t] as nat == #[trigger] count_source(es.take(j + 1), sv, t),
{
    assert(es.take(j + 1).drop_last() =~= es.take(j));
    assert(es.take(j + 1).last() == es[j]);
    assert forall|t: int| 0 <= t < counts.len() implies counts[t] as nat == #[trigger] count_source(es.take(j + 1), sv, t) by {
        assert(counts0[t] as nat == count_source(es.take(j), sv, t));
    }
}

impl Store {
    /// Moves every expense whose category matches one of `sources` (ignoring
    /// ASCII case) to category `dst`; returns how many expenses each source
    /// matched. When no category text changes, nothing is written and no
    /// snapshot is taken.
    pub fn reassign_category(&mut self, sources: &Vec<&str>, dst: &str) -> (r: Result<Vec<usize>, StoreError>)
        requires
            can_write(old(self)@),
        ensures
            (final(self)@, match r {
                Ok(c) => Ok::<Seq<nat>, ErrV>(counts_view(c@)),
                Err(e) => Err::<Seq<nat>, ErrV>(err_view(e)),
            }) == reassign_spec(old(self)@, strs_view(sources@), dst@),
            r is Ok ==> list_spec(
                final(self)@,
            ) == Ok::<Seq<ExpenseView>, ErrV>(
                if final(self)@ == old(self)@ {
                    list_spec(old(self)@)->Ok_0
                } else {
                    stored_all(reassigned_list(old(self)@, strs_view(sources@), dst@))
                },
            ),
            r is Ok && final(self)@ != old(self)@ && old(self)@.csv is Some ==> undoes_to(final(self)@, old(self)@),
    {
        let entries = self.list()?;
        let ghost es = views(entries@);
        let ghost sv = strs_view(sources@);
        let mut counts = zeros(sources.len());
        let mut changed = false;
        let mut out: Vec<Expense> = Vec::new();
        proof {
            assert(es.take(0) =~= Seq::<ExpenseView>::empty());
            assert(views(out@) =~= es.take(0).map_values(|e: ExpenseView| reassigned(e, sv, dst@)));
        }
        let mut j: usize = 0;
        while j < entries.len()
            invariant
                es == views(entries@),
                sv == strs_view(sources@),
                all_wf(es),
                j <= entries@.len(),
                counts@.len() == sources@.len(),
                forall|t: int| 0 <= t < counts@.len() ==> counts@[t] as nat == #[trigger] count_source(es.take(j as int), sv, t),
                views(out@) == es.take(j as int).map_values(|e: ExpenseView| reassigned(e, sv, dst@)),
                changed == reassign_changes(es.take(j as int), sv, dst@),
            decreases entries@.len() - j,
        {
            let ghost counts0 = counts@;
            let ghost ej = es[j as int];
            assert(ej == entries@[j as int]@);
            let mut e = clone_expense(&entries[j]);
            match &entries[j].category {
                None => {},
                Some(c) => {
                    let i = source_index(sources, c.as_str());
                    if i < sources.len() {
                        proof {
                            lemma_count_source_bound(es.take(j as int), sv, i as int);
                        }
                        let n = counts[i] + 1;
                        counts.set(i, n);
                        if !crate::text::str_eq(c.as_str(), dst) {
                            changed = true;
                        }
                        e.category = Some(string_of(dst));
                    }
                },
            }
            proof {
                lemma_counts_step(es, sv, j as int, counts0, counts@);
                let t1 = es.take(j + 1);
                let t0 = es.take(j as int);
                assert(t1.drop_last() =~= t0);
                assert(t1[j as int] == ej);
                if reassign_changes(t1, sv, dst@) {
                    let w = choose|w: int| 0 <= w < t1.len() && matched(#[trigger] t1[w], sv) && t1[w].category != Some(dst@);
                    if w < j {
                        assert(t0[w] == t1[w]);
                    }
                }
                if reassign_changes(t0, sv, dst@) {
                    let w = choose|w: int| 0 <= w < t0.len() && matched(#[trigger] t0[w], sv) && t0[w].category != Some(dst@);
                    assert(t1[w] == t0[w]);
                }
                if matched(ej, sv) && ej.category != Some(dst@) {
                    assert(matched(t1[j as int], sv));
                }
                assert(e@ == reassigned(ej, sv, dst@));
                assert(t1.map_values(|e: ExpenseView| reassigned(e, sv, dst@)) =~= t0.map_values(|e: ExpenseView| reassigned(e, sv, dst@)).push(reassigned(ej, sv, dst@)));
                assert(views(out@.push(e)) =~= views(out@).push(e@));
            }
            out.push(e);
            j = j + 1;
        }
        assert(es.take(j as int) =~= es);
        assert(counts_view(counts@) =~= source_counts(es, sv));
        if !changed {
            return Ok(counts);
        }
        proof {
            let ov = views(out@);
            assert forall|i: int| 0 <= i < es.len() implies (#[trigger] es[i]).id == ov[i].id by {}
            lemma_same_ids_max(es, ov);
            assert(all_wf(ov)) by {
                assert forall|i: int| 0 <= i < ov.len() implies (#[trigger] ov[i]).wf() by {
                    assert(es[i].wf());
                }
            }
        }
        self.snapshot();
        proof {
            lemma_listed_storable(old(self)@);
            assert forall|k: int| 0 <= k < views(out@).len() implies storable(#[trigger] views(out@)[k]) by {
                assert(storable(es[k]));
            }
        }
        self.write_all(&out);
        Ok(counts)
    }

    /// Drops the category of every expense whose category matches one of
    /// `categories` (ignoring ASCII case); returns how many expenses each
    /// matched. When none matches, nothing is written and no snapshot is taken.
    pub fn clear_categories(&mut self, categories: &Vec<&str>) -> (r: Result<Vec<usize>, StoreError>)
        requires
            can_write(old(self)@),
        ensures
            (final(self)@, match r {
                Ok(c) => Ok::<Seq<nat>, ErrV>(counts_view(c@)),
                Err(e) => Err::<Seq<nat>, ErrV>(err_view(e)),
            }) == clear_spec(old(self)@, strs_view(categories@)),
            r is Ok ==> list_spec(
                final(self)@,
            ) == Ok::<Seq<ExpenseView>, ErrV>(
                if final(self)@ == old(self)@ {
                    list_spec(old(self)@)->Ok_0
                } else {
                    stored_all(cleared_list(old(self)@, strs_view(categories@)))
                },
            ),
            r is Ok && final(self)@ != old(self)@ && old(self)@.csv is Some ==> undoes_to(final(self)@, old(self)@),
    {
        let entries = self.list()?;
        let ghost es = views(entries@);
        let ghost sv = strs_view(categories@);
        let mut counts = zeros(categories.len());
        let mut changed = false;
        let mut out: Vec<Expense> = Vec::new();
        proof {
            assert(es.take(0) =~= Seq::<ExpenseView>::empty());
            assert(views(out@) =~= es.take(0).map_values(|e: ExpenseView| cleared(e, sv)));
        }
        let mut j: usize = 0;
        while j < entries.len()
            invariant
                es == views(entries@),
                sv == strs_view(categories@),
                all_wf(es),
                j <= entries@.len(),
                counts@.len() == categories@.len(),
                forall|t: int| 0 <= t < counts@.len() ==> counts@[t] as nat == #[trigger] count_source(es.take(j as int), sv, t),
                views(out@) == es.take(j as int).map_values(|e: ExpenseView| cleared(e, sv)),
                changed == any_matched(es.take(j as int), sv),
            decreases entries@.len() - j,
        {
            let ghost counts0 = counts@;
            let ghost ej = es[j as int];
            assert(ej == entries@[j as int]@);
            let mut e = clone_expense(&entries[j]);
            match &entries[j].category {
                None => {},
                Some(c) => {
                    let i = source_index(categories, c.as_str());
                    if i < categories.len() {
                        proof {
                            lemma_count_source_bound(es.take(j as int), sv, i as int);
                        }
                        let n = counts[i] + 1;
                        counts.set(i, n);
                        changed = true;
                        e.category = None;
                    }
                },
            }
            proof {
                lemma_counts_step(es, sv, j as int, counts0, counts@);
                let t1 = es.take(j + 1);
                let t0 = es.take(j as int);
                assert(t1.drop_last() =~= t0);
                assert(t1[j as int] == ej);
                if any_matched(t1, sv) {
                    let w = choose|w: int| 0 <= w < t1.len() && matched(#[trigger] t1[w], sv);
                    if w < j {
                        assert(t0[w] == t1[w]);
                    }
                }
                if any_matched(t0, sv) {
                    let w = choose|w: int| 0 <= w < t0.len() && matched(#[trigger] t0[w], sv);
                    assert(t1[w] == t0[w]);
                }
                if matched(ej, sv) {
                    assert(matched(t1[j as int], sv));
                }
                assert(e@ == cleared(ej, sv));
                assert(t1.map_values(|e: ExpenseView| cleared(e, sv)) =~= t0.map_values(|e: ExpenseView| cleared(e, sv)).push(cleared(ej, sv)));
                assert(views(out@.push(e)) =~= views(out@).push(e@));
            }
            out.push(e);
            j = j + 1;
        }
        assert(es.take(j as int) =~= es);
        assert(counts_view(counts@) =~= source_counts(es, sv));
        if !changed {
            return Ok(counts);
        }
        proof {
            let ov = views(out@);
            assert forall|i: int| 0 <= i < es.len() implies (#[trigger] es[i]).id == ov[i].id by {}
            lemma_same_ids_max(es, ov);
            assert(all_wf(ov)) by {
                assert forall|i: int| 0 <= i < ov.len() implies (#[trigger] ov[i]).wf() by {
                    assert(es[i].wf());
                }
            }
        }
        self.snapshot();
        proof {
            lemma_listed_storable(old(self)@);
            assert forall|k: int| 0 <= k < views(out@).len() implies storable(#[trigger] views(out@)[k]) by {
                assert(storable(es[k]));
            }
        }
        self.write_all(&out);
        Ok(counts)
    }
}


/// The first expense of `xs` whose name no expense of `ys` has (ignoring
/// ASCII case), or `xs.len()`.
fn first_unmatched(xs: &Vec<Expense>, ys: &Vec<Expense>) -> (r: usize)
    ensures
        r == unmatched_at(views(xs@), views(ys@)),
{
    let ghost xv = views(xs@);
    let ghost yv = views(ys@);
    let ghost p = |i: int| name_index(yv, xv[i].name) >= yv.len();
    let mut i: usize = 0;
    while i < xs.len()
        invariant
            xv == views(xs@),
            yv == views(ys@),
            p == (|i: int| name_index(yv, xv[i].name) >= yv.len()),
            i <= xs@.len(),
            forall|t: int| 0 <= t < i ==> !#[trigger] p(t),
        decreases xs@.len() - i,
    {
        assert(xv[i as int] == xs@[i as int]@);
        let k = name_index_exec(ys, xs[i].name.as_str());
        if k >= ys.len() {
            proof {
                assert(p(i as int));
                lemma_first_where(xv.len() as int, p, i as int);
            }
            return i;
        }
        i = i + 1;
    }
    proof {
        lemma_first_where(xv.len() as int, p, i as int);
    }
    i
}

/// The first expense of `before` that `after` lacks, or holds with other
/// values, or `before.len()`.
fn first_changed(before: &Vec<Expense>, after: &Vec<Expense>) -> (r: usize)
    ensures
        r == changed_at(views(before@), views(after@)),
{
    let ghost bv = views(before@);
    let ghost av = views(after@);
    let ghost p = |i: int|
        {
            let k = name_index(av, bv[i].name);
            k >= av.len() || av[k] != bv[i]
        };
    let mut i: usize = 0;
    while i < before.len()
        invariant
            bv == views(before@),
            av == views(after@),
            p == (|i: int|
                {
                    let k = name_index(av, bv[i].name);
                    k >= av.len() || av[k] != bv[i]
                }),
            i <= before@.len(),
            forall|t: int| 0 <= t < i ==> !#[trigger] p(t),
        decreases before@.len() - i,
    {
        assert(bv[i as int] == before@[i as int]@);
        let k = name_index_exec(after, before[i].name.as_str());
        let differs = if k >= after.len() {
            true
        } else {
            assert(av[k as int] == after@[k as int]@);
            !after[k].same_as(&before[i])
        };
        if differs {
            proof {
                assert(p(i as int));
                lemma_first_where(bv.len() as int, p, i as int);
            }
            return i;
        }
        i = i + 1;
    }
    proof {
        lemma_first_where(bv.len() as int, p, i as int);
    }
    i
}

/// What an undo from `after` back to `before` did: the expense it took
/// away, put back or reverted, or just "Undone".
fn diff_description(before: &Vec<Expense>, after: &Vec<Expense>) -> (r: String)
    ensures
        r@ == diff_spec(views(before@), views(after@)),
{
    let ghost bv = views(before@);
    let ghost av = views(after@);
    if after.len() > before.len() {
        let i = first_unmatched(after, before);
        if i < after.len() {
            assert(av[i as int] == after@[i as int]@);
            return message3("Undid add of '", after[i].name.as_str(), "'");
        }
    } else if after.len() < before.len() {
        let i = first_unmatched(before, after);
        if i < before.len() {
            assert(bv[i as int] == before@[i as int]@);
            return message3("Restored '", before[i].name.as_str(), "'");
        }
    } else {
        let i = first_changed(before, after);
        if i < before.len() {
            assert(bv[i as int] == before@[i as int]@);
            return message3("Reverted edit of '", before[i].name.as_str(), "'");
        }
    }
    string_of("Undone")
}

impl Store {
    /// Puts the undo snapshot back in place of the CSV file, which uses it up,
    /// and says what that undid. Without a snapshot there is nothing to undo.
    pub fn restore(&mut self) -> (r: Result<String, StoreError>)
        ensures
            (final(self)@, match r {
                Ok(m) => Ok::<Seq<char>, ErrV>(m@),
                Err(e) => Err::<Seq<char>, ErrV>(err_view(e)),
            }) == restore_spec(old(self)@),
    {
        let undo = match clone_bytes(&self.undo) {
            None => {
                return Err(StoreError::new(ErrorKind::NotFound, string_of("nothing to undo")));
            },
            Some(u) => u,
        };
        let before = match decode_expenses(undo.as_slice()) {
            Ok(b) => b,
            Err(m) => {
                return Err(StoreError::new(ErrorKind::InvalidData, m));
            },
        };
        let after = self.list()?;
        let msg = diff_description(&before, &after);
        self.csv = Some(undo);
        self.undo = None;
        Ok(msg)
    }
}

} // verus!
