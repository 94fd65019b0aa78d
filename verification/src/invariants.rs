//! What holds of the store across operations: undo puts back the file as it
//! was before the last change and is used up by doing so, operations that
//! change nothing keep the undo snapshot, ids are never handed out twice, and
//! names stay distinct.
use vstd::prelude::*;

use crate::csv_format::{decode, stored_all};
use crate::store::{
    cleared_list, lemma_id_index_found, lemma_name_index_found, names_at, reassigned_list,
    removed_list, updated_list,
};
use crate::text::parse_u64_spec;
use crate::error::{ErrV, ErrorKind};
use crate::expense::ExpenseView;
use crate::store::{
    any_matched, can_save, can_write, clear_spec, cleared, count_source, has_name, ids_fit,
    kept, lemma_first_where, lemma_ids_fit_update, lemma_kept_fits, lemma_name_index,
    lemma_name_index_bound, lemma_resolve_range, name_index, lemma_max_id_bound, lemma_max_id_push,
    lemma_same_ids_max, list_spec, matched, max_id, merge, next_id_spec, no_changes,
    other_has_name, reassign_changes, reassign_spec, reassigned, remove_spec, rename_spec,
    renamed_list, resolve_all, resolve_spec, restore_spec, save_spec, saved_list, seq_or_zero,
    snapshot_spec, undoes_to, update_spec, write_all_spec, StoreView,
};
use crate::text::{dec, eq_ic, is_digit, is_ws, lemma_dec_digits, lemma_parse_dec, trim_end_seq, trim_seq, trim_start_seq};
use vstd::utf8::{decode_utf8, encode_utf8, encode_utf8_decode_utf8, encode_utf8_valid_utf8};

verus! {

// ----- undo -----
/// A snapshot whose file reads is put back by `restore`, which then has no
/// snapshot left; the current file is only read, to describe the undo.
pub proof fn restore_puts_back(s: StoreView, b: Seq<u8>)
    requires
        s.undo == Some(b),
        decode(b) is Ok,
        list_spec(s) is Ok,
    ensures
        restore_spec(s).1 is Ok,
        restore_spec(s).0 == (StoreView { csv: Some(b), undo: None, ..s }),
{
}

/// Undoing a change after which `undoes_to` holds, as every successful
/// `save`, `rename` and `remove` (and `update`, `reassign_category`,
/// `clear_categories` that change something) ensures of a store whose file
/// existed, gives back the expenses listed before the change; a second undo
/// then finds nothing.
pub proof fn undo_gives_back_list(after: StoreView, before: StoreView)
    requires
        undoes_to(after, before),
    ensures
        list_spec(restore_spec(after).0) == list_spec(before),
        restore_spec(restore_spec(after).0).1 == Err::<Seq<char>, ErrV>((ErrorKind::NotFound, "nothing to undo"@)),
{
}

/// Undoing a `save` puts back the file as it was before it.
pub proof fn undo_after_save(s: StoreView, e: ExpenseView)
    requires
        save_spec(s, e).1 is Ok,
        s.csv is Some,
        list_spec(save_spec(s, e).0) is Ok,
    ensures
        restore_spec(save_spec(s, e).0).1 is Ok,
        restore_spec(save_spec(s, e).0).0 == (StoreView { csv: s.csv, undo: None, ..save_spec(s, e).0 }),
{
    restore_puts_back(save_spec(s, e).0, s.csv->Some_0);
}

/// When the file a `save` wrote reads back as the saved list (as every
/// successful `save` ensures), undoing it says which expense it took away.
pub proof fn undo_after_save_names_it(s: StoreView, e: ExpenseView)
    requires
        save_spec(s, e).1 is Ok,
        s.csv is Some,
        list_spec(save_spec(s, e).0) == Ok::<Seq<ExpenseView>, ErrV>(stored_all(saved_list(s, e))),
    ensures
        restore_spec(save_spec(s, e).0).1 == Ok::<Seq<char>, ErrV>("Undid add of '"@ + e.name + "'"@),
{
    let s1 = snapshot_spec(s);
    let es = list_spec(s1)->Ok_0;
    let w = saved_list(s, e);
    let after = stored_all(w);
    let p = |i: int| name_index(es, after[i].name) >= es.len();
    assert forall|t: int| 0 <= t < es.len() implies !#[trigger] p(t) by {
        assert(after[t].name == es[t].name);
        lemma_name_index_bound(es, es[t].name, t);
    }
    assert(after[es.len() as int].name == e.name);
    assert forall|t: int| 0 <= t < es.len() implies !eq_ic((#[trigger] es[t]).name, e.name) by {
        if eq_ic(es[t].name, e.name) {
            assert(has_name(es, e.name));
        }
    }
    lemma_name_index(es, e.name, es.len() as int);
    lemma_first_where(after.len() as int, p, es.len() as int);
}

/// Undoing an `update` that changed the expense puts back the file as it was.
pub proof fn undo_after_update(s: StoreView, target: Seq<char>, c: ExpenseView)
    requires
        update_spec(s, target, c).1 is Ok,
        !no_changes(c),
        s.csv is Some,
        list_spec(update_spec(s, target, c).0) is Ok,
    ensures
        restore_spec(update_spec(s, target, c).0).1 is Ok,
        restore_spec(update_spec(s, target, c).0).0 == (StoreView {
            csv: s.csv,
            undo: None,
            ..update_spec(s, target, c).0
        }),
{
    restore_puts_back(update_spec(s, target, c).0, s.csv->Some_0);
}

/// Undoing a `rename` puts back the file as it was.
pub proof fn undo_after_rename(s: StoreView, target: Seq<char>, new_name: Seq<char>)
    requires
        rename_spec(s, target, new_name).1 is Ok,
        s.csv is Some,
        list_spec(rename_spec(s, target, new_name).0) is Ok,
    ensures
        restore_spec(rename_spec(s, target, new_name).0).1 is Ok,
        restore_spec(rename_spec(s, target, new_name).0).0 == (StoreView {
            csv: s.csv,
            undo: None,
            ..rename_spec(s, target, new_name).0
        }),
{
    restore_puts_back(rename_spec(s, target, new_name).0, s.csv->Some_0);
}

/// Undoing a `remove` puts back the file as it was.
pub proof fn undo_after_remove(s: StoreView, targets: Seq<Seq<char>>)
    requires
        remove_spec(s, targets).1 is Ok,
        s.csv is Some,
        list_spec(remove_spec(s, targets).0) is Ok,
    ensures
        restore_spec(remove_spec(s, targets).0).1 is Ok,
        restore_spec(remove_spec(s, targets).0).0 == (StoreView {
            csv: s.csv,
            undo: None,
            ..remove_spec(s, targets).0
        }),
{
    restore_puts_back(remove_spec(s, targets).0, s.csv->Some_0);
}

/// Undoing a `reassign_category` that changed a category puts back the file as it was.
pub proof fn undo_after_reassign(s: StoreView, sources: Seq<Seq<char>>, dst: Seq<char>)
    requires
        reassign_spec(s, sources, dst).1 is Ok,
        list_spec(s) matches Ok(es) && reassign_changes(es, sources, dst),
        s.csv is Some,
        list_spec(reassign_spec(s, sources, dst).0) is Ok,
    ensures
        restore_spec(reassign_spec(s, sources, dst).0).1 is Ok,
        restore_spec(reassign_spec(s, sources, dst).0).0 == (StoreView {
            csv: s.csv,
            undo: None,
            ..reassign_spec(s, sources, dst).0
        }),
{
    restore_puts_back(reassign_spec(s, sources, dst).0, s.csv->Some_0);
}

/// Undoing a `clear_categories` that matched an expense puts back the file as it was.
pub proof fn undo_after_clear(s: StoreView, cats: Seq<Seq<char>>)
    requires
        clear_spec(s, cats).1 is Ok,
        list_spec(s) matches Ok(es) && any_matched(es, cats),
        s.csv is Some,
        list_spec(clear_spec(s, cats).0) is Ok,
    ensures
        restore_spec(clear_spec(s, cats).0).1 is Ok,
        restore_spec(clear_spec(s, cats).0).0 == (StoreView {
            csv: s.csv,
            undo: None,
            ..clear_spec(s, cats).0
        }),
{
    restore_puts_back(clear_spec(s, cats).0, s.csv->Some_0);
}

/// A snapshot is used up by the undo that restores it: a second undo finds nothing.
pub proof fn restore_is_single_use(s: StoreView)
    requires
        restore_spec(s).1 is Ok,
    ensures
        restore_spec(restore_spec(s).0) == (
            restore_spec(s).0,
            Err::<Seq<char>, ErrV>((ErrorKind::NotFound, "nothing to undo"@)),
        ),
{
}

/// An `update` that sets no field changes nothing, and so keeps the undo snapshot.
pub proof fn empty_patch_keeps_store(s: StoreView, target: Seq<char>, c: ExpenseView)
    requires
        no_changes(c),
    ensures
        update_spec(s, target, c).0 == s,
{
}

/// A `reassign_category` under which no category text changes writes
/// nothing and keeps the undo snapshot.
pub proof fn unchanged_reassign_keeps_store(s: StoreView, sources: Seq<Seq<char>>, dst: Seq<char>)
    requires
        list_spec(s) matches Ok(es) ==> !reassign_changes(es, sources, dst),
    ensures
        reassign_spec(s, sources, dst).0 == s,
{
}

/// A `clear_categories` that matches no expense writes nothing and keeps the
/// undo snapshot, and counts zero for every category.
pub proof fn unmatched_clear_keeps_store(s: StoreView, cats: Seq<Seq<char>>)
    requires
        list_spec(s) matches Ok(es) ==> !any_matched(es, cats),
    ensures
        clear_spec(s, cats).0 == s,
        clear_spec(s, cats).1 matches Ok(counts) ==> forall|k: int| 0 <= k < counts.len() ==> #[trigger] counts[k] == 0,
{
    if let Ok(es) = list_spec(s) {
        assert forall|k: int| 0 <= k < cats.len() implies #[trigger] count_source(es, cats, k) == 0 by {
            lemma_no_match_counts_zero(es, cats, k);
        }
    }
}

proof fn lemma_no_match_counts_zero(es: Seq<ExpenseView>, cats: Seq<Seq<char>>, k: int)
    requires
        !any_matched(es, cats),
        0 <= k < cats.len(),
    ensures
        count_source(es, cats, k) == 0,
    decreases es.len(),
{
    if es.len() > 0 {
        let e0 = es.drop_last();
        if any_matched(e0, cats) {
            let i = choose|i: int| 0 <= i < e0.len() && matched(#[trigger] e0[i], cats);
            assert(es[i] == e0[i]);
        }
        lemma_no_match_counts_zero(e0, cats, k);
        assert(!matched(es[es.len() - 1], cats));
    }
}

// ----- ids -----
proof fn lemma_trim_digits(n: nat)
    ensures
        trim_seq(dec(n)) == dec(n),
{
    lemma_dec_digits(n);
    let d = dec(n);
    assert(is_digit(d[0]) && is_digit(d[d.len() - 1]));
    assert(trim_start_seq(d) == d);
    assert(trim_end_seq(d) == d);
}

/// The sequence number a rewrite leaves: one past the largest id written,
/// unless the number already on file is larger.
pub proof fn write_raises_seq(s: StoreView, es: Seq<ExpenseView>)
    requires
        ids_fit(es),
    ensures
        seq_or_zero(write_all_spec(s, es)) == if max_id(es) + 1 > seq_or_zero(s) {
            max_id(es) + 1
        } else {
            seq_or_zero(s)
        },
        seq_or_zero(write_all_spec(s, es)) >= seq_or_zero(s),
        seq_or_zero(write_all_spec(s, es)) > max_id(es),
{
    let needed = max_id(es) + 1;
    if needed > seq_or_zero(s) {
        let t = dec(needed as nat);
        encode_utf8_valid_utf8(t);
        encode_utf8_decode_utf8(t);
        lemma_trim_digits(needed as nat);
        lemma_parse_dec(needed as u64);
    }
}

/// `save` gives the new expense an id above every id in the file and not
/// below the persisted sequence number, and leaves the sequence number past
/// it: an id once given is never given again, whatever is removed or undone.
pub proof fn save_ids_are_fresh(s: StoreView, e: ExpenseView)
    requires
        save_spec(s, e).1 is Ok,
        can_save(snapshot_spec(s)),
    ensures
        ({
            let s1 = snapshot_spec(s);
            let es = list_spec(s1)->Ok_0;
            let n = next_id_spec(es, s1);
            &&& forall|i: int| 0 <= i < es.len() ==> (#[trigger] es[i]).id < n
            &&& n >= seq_or_zero(s)
            &&& seq_or_zero(save_spec(s, e).0) > n
            &&& seq_or_zero(save_spec(s, e).0) >= seq_or_zero(s)
        }),
{
    let s1 = snapshot_spec(s);
    let es = list_spec(s1)->Ok_0;
    let n = next_id_spec(es, s1);
    let ne = ExpenseView { id: n as u64, ..e };
    assert forall|i: int| 0 <= i < es.len() implies (#[trigger] es[i]).id < n by {
        lemma_max_id_bound(es, i);
    }
    lemma_max_id_push(es, ne);
    if es.len() > 0 {
        lemma_max_id_bound(es, 0);
    }
    assert(max_id(es) >= 0) by {
        lemma_max_id_nonneg(es);
    }
    write_raises_seq(s1, es.push(ne));
}

/// `update`, `rename`, `remove`, `reassign_category`, `clear_categories` and
/// `restore` never lower the sequence number.
pub proof fn seq_never_decreases(s: StoreView, target: Seq<char>, c: ExpenseView, name: Seq<char>, targets: Seq<Seq<char>>, dst: Seq<char>)
    requires
        can_write(s),
        can_write(snapshot_spec(s)),
    ensures
        seq_or_zero(update_spec(s, target, c).0) >= seq_or_zero(s),
        seq_or_zero(rename_spec(s, target, name).0) >= seq_or_zero(s),
        seq_or_zero(remove_spec(s, targets).0) >= seq_or_zero(s),
        seq_or_zero(reassign_spec(s, targets, dst).0) >= seq_or_zero(s),
        seq_or_zero(clear_spec(s, targets).0) >= seq_or_zero(s),
        restore_spec(s).0.seq == s.seq,
{
    if let Ok(es) = list_spec(s) {
        lemma_resolve_range(es, target);
        if let Ok(i) = resolve_spec(es, target) {
            if !no_changes(c) {
                lemma_ids_fit_update(es, i, merge(es[i], c));
                write_raises_seq(snapshot_spec(s), es.update(i, merge(es[i], c)));
            }
            lemma_ids_fit_update(es, i, ExpenseView { name: name, ..es[i] });
            write_raises_seq(snapshot_spec(s), es.update(i, ExpenseView { name: name, ..es[i] }));
        }
        let r = es.map_values(|e: ExpenseView| reassigned(e, targets, dst));
        assert forall|i: int| 0 <= i < es.len() implies (#[trigger] es[i]).id == r[i].id by {}
        lemma_same_ids_max(es, r);
        write_raises_seq(snapshot_spec(s), r);
        let k = es.map_values(|e: ExpenseView| cleared(e, targets));
        assert forall|i: int| 0 <= i < es.len() implies (#[trigger] es[i]).id == k[i].id by {}
        lemma_same_ids_max(es, k);
        write_raises_seq(snapshot_spec(s), k);
    }
    if let Ok(es) = list_spec(snapshot_spec(s)) {
        if let Ok(idxs) = resolve_all(es, targets) {
            lemma_kept_fits(es, idxs, es.len() as int);
            lemma_max_id_nonneg(kept(es, idxs, es.len() as int));
            write_raises_seq(snapshot_spec(s), kept(es, idxs, es.len() as int));
        }
    }
}

proof fn lemma_max_id_nonneg(es: Seq<ExpenseView>)
    ensures
        max_id(es) >= 0,
{
    if es.len() > 0 {
        lemma_max_id_bound(es, 0);
    }
}

// ----- edits -----
/// A successful `update` that sets some field gives back, and writes in the
/// place of the expense `target` names, that expense with every field the
/// patch sets taken from the patch and every field it leaves unset kept, as
/// are its id, its name and its extra columns; the other expenses stay.
pub proof fn update_applies_patch(s: StoreView, target: Seq<char>, c: ExpenseView)
    requires
        update_spec(s, target, c).1 is Ok,
        !no_changes(c),
    ensures
        ({
            let es = list_spec(s)->Ok_0;
            let i = resolve_spec(es, target)->Ok_0;
            let w = updated_list(s, target, c);
            let m = update_spec(s, target, c).1->Ok_0;
            &&& 0 <= i < es.len()
            &&& w.len() == es.len()
            &&& w[i] == m
            &&& (c.amount is Some ==> m.amount == c.amount) && (c.amount is None ==> m.amount == es[i].amount)
            &&& (c.currency is Some ==> m.currency == c.currency) && (c.currency is None ==> m.currency
                == es[i].currency)
            &&& (c.start_date is Some ==> m.start_date == c.start_date) && (c.start_date is None
                ==> m.start_date == es[i].start_date)
            &&& (c.interval is Some ==> m.interval == c.interval) && (c.interval is None ==> m.interval
                == es[i].interval)
            &&& (c.category is Some ==> m.category == c.category) && (c.category is None ==> m.category
                == es[i].category)
            &&& (c.end_date is Some ==> m.end_date == c.end_date) && (c.end_date is None ==> m.end_date
                == es[i].end_date)
            &&& m.id == es[i].id && m.name == es[i].name && m.extra == es[i].extra
            &&& forall|k: int| 0 <= k < es.len() && k != i ==> w[k] == es[k]
            &&& !(m.start_date matches Some(st) && m.end_date matches Some(en) && en.ord() < st.ord())
        }),
{
    let es = list_spec(s)->Ok_0;
    lemma_resolve_range(es, target);
}

/// After a successful `update` that sets a field to non-empty text, the
/// file reads back that text in the field of the expense `target` names
/// (given the read-back that `update` ensures).
pub proof fn update_writes_patched_text(s: StoreView, target: Seq<char>, c: ExpenseView, after: StoreView)
    requires
        update_spec(s, target, c).1 is Ok,
        !no_changes(c),
        list_spec(after) == Ok::<Seq<ExpenseView>, ErrV>(stored_all(updated_list(s, target, c))),
    ensures
        ({
            let i = resolve_spec(list_spec(s)->Ok_0, target)->Ok_0;
            let read = list_spec(after)->Ok_0;
            &&& (c.category matches Some(x) && x.len() > 0 ==> read[i].category == c.category)
            &&& (c.currency matches Some(x) && x.len() > 0 ==> read[i].currency == c.currency)
            &&& (c.amount matches Some(x) && x.len() > 0 ==> read[i].amount == c.amount)
            &&& (c.start_date is Some ==> read[i].start_date == c.start_date)
            &&& (c.interval is Some ==> read[i].interval == c.interval)
            &&& (c.end_date is Some ==> read[i].end_date == c.end_date)
        }),
{
    update_applies_patch(s, target, c);
}

// ----- targets -----
/// A target `@n` (n a decimal id) names the first expense with id `n`; any
/// other target names the first expense whose name equals it ignoring ASCII
/// case. It resolves exactly when such an expense exists.
pub proof fn resolve_finds_target(es: Seq<ExpenseView>, target: Seq<char>)
    ensures
        target.len() > 0 && target[0] == '@' ==> match parse_u64_spec(target.drop_first()) {
            Some(id) => (resolve_spec(es, target) is Ok <==> exists|t: int| 0 <= t < es.len() && (#[trigger] es[t]).id == id)
                && (resolve_spec(es, target) matches Ok(i) ==> 0 <= i < es.len() && es[i].id == id
                && forall|t: int| 0 <= t < i ==> (#[trigger] es[t]).id != id),
            None => resolve_spec(es, target) is Err,
        },
        !(target.len() > 0 && target[0] == '@') ==> (resolve_spec(es, target) is Ok <==> exists|t: int|
            0 <= t < es.len() && eq_ic((#[trigger] es[t]).name, target)) && (resolve_spec(es, target) matches Ok(i)
            ==> 0 <= i < es.len() && eq_ic(es[i].name, target) && forall|t: int|
            0 <= t < i ==> !eq_ic((#[trigger] es[t]).name, target)),
{
    lemma_name_index_found(es, target);
    if target.len() > 0 && target[0] == '@' {
        if let Some(id) = parse_u64_spec(target.drop_first()) {
            lemma_id_index_found(es, id);
        }
    }
}

/// A successful `rename` changes the name of the expense `target` names to
/// `new_name` and nothing else.
pub proof fn rename_changes_only_the_name(s: StoreView, target: Seq<char>, new_name: Seq<char>)
    requires
        rename_spec(s, target, new_name).1 is Ok,
    ensures
        ({
            let es = list_spec(s)->Ok_0;
            let i = resolve_spec(es, target)->Ok_0;
            let w = renamed_list(s, target, new_name);
            &&& 0 <= i < es.len()
            &&& w.len() == es.len()
            &&& w[i].name == new_name
            &&& w[i].id == es[i].id && w[i].amount == es[i].amount && w[i].currency == es[i].currency
            &&& w[i].start_date == es[i].start_date && w[i].interval == es[i].interval
            &&& w[i].category == es[i].category && w[i].end_date == es[i].end_date && w[i].extra == es[i].extra
            &&& forall|k: int| 0 <= k < es.len() && k != i ==> w[k] == es[k]
        }),
{
    lemma_resolve_range(list_spec(s)->Ok_0, target);
}

/// A category matches one of `cats` ignoring ASCII case.
pub open spec fn in_categories(e: ExpenseView, cats: Seq<Seq<char>>) -> bool {
    e.category matches Some(c) && exists|j: int| 0 <= j < cats.len() && eq_ic(c, #[trigger] cats[j])
}

proof fn lemma_matched_plain(e: ExpenseView, cats: Seq<Seq<char>>)
    ensures
        matched(e, cats) <==> in_categories(e, cats),
{
    if let Some(c) = e.category {
        let p = |i: int| eq_ic(c, cats[i]);
        crate::store::lemma_first_where_hit(cats.len() as int, p);
        if in_categories(e, cats) {
            let j = choose|j: int| 0 <= j < cats.len() && eq_ic(c, #[trigger] cats[j]);
            assert(p(j));
        }
    }
}

/// `reassign_category` moves to `dst` exactly the expenses whose category
/// matches a source ignoring ASCII case, and changes nothing else.
pub proof fn reassign_moves_matching(s: StoreView, sources: Seq<Seq<char>>, dst: Seq<char>)
    requires
        list_spec(s) is Ok,
    ensures
        ({
            let es = list_spec(s)->Ok_0;
            let w = reassigned_list(s, sources, dst);
            &&& w.len() == es.len()
            &&& forall|k: int| 0 <= k < es.len() ==> (if in_categories(es[k], sources) {
                #[trigger] w[k] == ExpenseView { category: Some(dst), ..es[k] }
            } else {
                w[k] == es[k]
            })
        }),
{
    let es = list_spec(s)->Ok_0;
    assert forall|k: int| 0 <= k < es.len() implies (if in_categories(es[k], sources) {
        #[trigger] reassigned_list(s, sources, dst)[k] == ExpenseView { category: Some(dst), ..es[k] }
    } else {
        reassigned_list(s, sources, dst)[k] == es[k]
    }) by {
        lemma_matched_plain(es[k], sources);
    }
}

/// `clear_categories` drops the category of exactly the expenses whose
/// category matches one of `cats` ignoring ASCII case, and changes nothing else.
pub proof fn clear_drops_matching(s: StoreView, cats: Seq<Seq<char>>)
    requires
        list_spec(s) is Ok,
    ensures
        ({
            let es = list_spec(s)->Ok_0;
            let w = cleared_list(s, cats);
            &&& w.len() == es.len()
            &&& forall|k: int| 0 <= k < es.len() ==> (if in_categories(es[k], cats) {
                #[trigger] w[k] == ExpenseView { category: None, ..es[k] }
            } else {
                w[k] == es[k]
            })
        }),
{
    let es = list_spec(s)->Ok_0;
    assert forall|k: int| 0 <= k < es.len() implies (if in_categories(es[k], cats) {
        #[trigger] cleared_list(s, cats)[k] == ExpenseView { category: None, ..es[k] }
    } else {
        cleared_list(s, cats)[k] == es[k]
    }) by {
        lemma_matched_plain(es[k], cats);
    }
}

proof fn lemma_kept_indices(es: Seq<ExpenseView>, idxs: Seq<int>, n: int) -> (f: Seq<int>)
    requires
        0 <= n <= es.len(),
    ensures
        f.len() == kept(es, idxs, n).len(),
        forall|t: int| 0 <= t < f.len() ==> 0 <= #[trigger] f[t] < n && !idxs.contains(f[t])
            && kept(es, idxs, n)[t] == es[f[t]],
        forall|a: int, b: int| 0 <= a < b < f.len() ==> #[trigger] f[a] < #[trigger] f[b],
        forall|k: int| 0 <= k < n && !idxs.contains(k) ==> #[trigger] f.contains(k),
    decreases n,
{
    if n == 0 {
        Seq::empty()
    } else {
        let g = lemma_kept_indices(es, idxs, n - 1);
        if idxs.contains(n - 1) {
            g
        } else {
            let f = g.push(n - 1);
            assert forall|t: int| 0 <= t < f.len() implies 0 <= #[trigger] f[t] < n && !idxs.contains(f[t])
                && kept(es, idxs, n)[t] == es[f[t]] by {
                if t < g.len() {
                    assert(f[t] == g[t]);
                }
            }
            assert forall|k: int| 0 <= k < n && !idxs.contains(k) implies #[trigger] f.contains(k) by {
                if k < n - 1 {
                    assert(g.contains(k));
                    let t = choose|t: int| 0 <= t < g.len() && g[t] == k;
                    assert(f[t] == k);
                } else {
                    assert(f[g.len() as int] == k);
                }
            }
            f
        }
    }
}

proof fn lemma_resolve_all(es: Seq<ExpenseView>, targets: Seq<Seq<char>>)
    requires
        resolve_all(es, targets) is Ok,
    ensures
        ({
            let idxs = resolve_all(es, targets)->Ok_0;
            &&& idxs.len() == targets.len()
            &&& forall|k: int| 0 <= k < targets.len() ==> resolve_spec(es, #[trigger] targets[k]) == Ok::<int, ErrV>(idxs[k])
            &&& forall|a: int, b: int| 0 <= a < b < idxs.len() ==> #[trigger] idxs[a] != #[trigger] idxs[b]
        }),
    decreases targets.len(),
{
    if targets.len() > 0 {
        let init = targets.drop_last();
        lemma_resolve_all(es, init);
        let prev = resolve_all(es, init)->Ok_0;
        let idxs = resolve_all(es, targets)->Ok_0;
        let i = resolve_spec(es, targets.last())->Ok_0;
        assert(idxs == prev.push(i));
        assert forall|k: int| 0 <= k < targets.len() implies resolve_spec(es, #[trigger] targets[k]) == Ok::<int, ErrV>(idxs[k]) by {
            if k < init.len() {
                assert(targets[k] == init[k]);
                assert(idxs[k] == prev[k]);
            }
        }
        assert forall|a: int, b: int| 0 <= a < b < idxs.len() implies #[trigger] idxs[a] != #[trigger] idxs[b] by {
            if b < prev.len() {
                assert(idxs[a] == prev[a] && idxs[b] == prev[b]);
            } else {
                assert(idxs[a] == prev[a]);
                assert(prev.contains(prev[a]));
            }
        }
    }
}

/// A successful `remove` resolves each target to a different expense, gives
/// back their names in target order, and writes exactly the other
/// expenses, in their order.
pub proof fn remove_keeps_the_rest(s: StoreView, targets: Seq<Seq<char>>)
    requires
        remove_spec(s, targets).1 is Ok,
    ensures
        ({
            let es = list_spec(s)->Ok_0;
            let idxs = resolve_all(es, targets)->Ok_0;
            let w = removed_list(s, targets);
            let names = remove_spec(s, targets).1->Ok_0;
            &&& idxs.len() == targets.len()
            &&& forall|k: int| 0 <= k < targets.len() ==> resolve_spec(es, #[trigger] targets[k]) == Ok::<int, ErrV>(idxs[k])
                && names[k] == es[idxs[k]].name
            &&& names.len() == targets.len()
            &&& forall|a: int, b: int| 0 <= a < b < idxs.len() ==> #[trigger] idxs[a] != #[trigger] idxs[b]
            &&& exists|f: Seq<int>| {
                &&& f.len() == w.len()
                &&& forall|t: int| 0 <= t < f.len() ==> 0 <= #[trigger] f[t] < es.len() && !idxs.contains(f[t])
                    && w[t] == es[f[t]]
                &&& forall|a: int, b: int| 0 <= a < b < f.len() ==> #[trigger] f[a] < #[trigger] f[b]
                &&& forall|k: int| 0 <= k < es.len() && !idxs.contains(k) ==> #[trigger] f.contains(k)
            }
        }),
{
    let es = list_spec(s)->Ok_0;
    lemma_resolve_all(es, targets);
    let idxs = resolve_all(es, targets)->Ok_0;
    let f = lemma_kept_indices(es, idxs, es.len() as int);
    assert(names_at(es, idxs).len() == idxs.len());
}

/// A successful `save` keeps every expense in place and adds `e` at the end,
/// with every field as given but its id, which is above every id before.
pub proof fn save_appends_as_given(s: StoreView, e: ExpenseView)
    requires
        save_spec(s, e).1 is Ok,
        can_save(snapshot_spec(s)),
    ensures
        ({
            let es = list_spec(s)->Ok_0;
            let w = saved_list(s, e);
            &&& w.len() == es.len() + 1
            &&& forall|k: int| 0 <= k < es.len() ==> w[k] == es[k]
            &&& w[es.len() as int] == ExpenseView { id: w[es.len() as int].id, ..e }
            &&& forall|k: int| 0 <= k < es.len() ==> es[k].id < w[es.len() as int].id
            &&& !exists|k: int| 0 <= k < es.len() && eq_ic((#[trigger] es[k]).name, e.name)
        }),
{
    let es = list_spec(s)->Ok_0;
    save_ids_are_fresh(s, e);
    if exists|k: int| 0 <= k < es.len() && eq_ic((#[trigger] es[k]).name, e.name) {
        let k = choose|k: int| 0 <= k < es.len() && eq_ic((#[trigger] es[k]).name, e.name);
        assert(has_name(es, e.name));
    }
}

// ----- names -----
/// No two expenses have names equal up to ASCII case.
pub open spec fn distinct_names(es: Seq<ExpenseView>) -> bool {
    forall|i: int, j: int| 0 <= i < j < es.len() ==> !eq_ic(#[trigger] es[i].name, #[trigger] es[j].name)
}

/// `save` keeps the names in the file distinct (ignoring ASCII case).
pub proof fn save_keeps_names_distinct(s: StoreView, e: ExpenseView)
    requires
        save_spec(s, e).1 is Ok,
        distinct_names(list_spec(s)->Ok_0),
    ensures
        distinct_names(saved_list(s, e)),
{
    let s1 = snapshot_spec(s);
    let es = list_spec(s1)->Ok_0;
    let w = saved_list(s, e);
    assert forall|i: int, j: int| 0 <= i < j < w.len() implies !eq_ic(#[trigger] w[i].name, #[trigger] w[j].name) by {
        if j == es.len() {
            assert(w[i] == es[i]);
            if eq_ic(es[i].name, e.name) {
                assert(has_name(es, e.name));
            }
        } else {
            assert(w[i] == es[i] && w[j] == es[j]);
        }
    }
}

/// `rename` keeps the names in the file distinct (ignoring ASCII case).
pub proof fn rename_keeps_names_distinct(s: StoreView, target: Seq<char>, new_name: Seq<char>)
    requires
        rename_spec(s, target, new_name).1 is Ok,
        distinct_names(list_spec(s)->Ok_0),
    ensures
        distinct_names(renamed_list(s, target, new_name)),
{
    let es = list_spec(s)->Ok_0;
    lemma_resolve_range(es, target);
    let k = resolve_spec(es, target)->Ok_0;
    let w = renamed_list(s, target, new_name);
    assert forall|i: int, j: int| 0 <= i < j < w.len() implies !eq_ic(#[trigger] w[i].name, #[trigger] w[j].name) by {
        if i == k {
            assert(w[j] == es[j]);
            if eq_ic(new_name, es[j].name) {
                assert(eq_ic(es[j].name, new_name));
                assert(other_has_name(es, k, new_name));
            }
        } else if j == k {
            assert(w[i] == es[i]);
            if eq_ic(es[i].name, new_name) {
                assert(other_has_name(es, k, new_name));
            }
        } else {
            assert(w[i] == es[i] && w[j] == es[j]);
        }
    }
}

} // verus!
