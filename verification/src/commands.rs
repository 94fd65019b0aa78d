//! The decisions of the expense commands (`add`, `edit`, `rename`, `rm`,
//! `undo`) and the lines they print; reading the terminal and printing are
//! left to the caller.
use vstd::prelude::*;

use crate::csv_format::strings_view;
use crate::error::{err_view, res_view, ErrV, ErrorKind, StoreError};
use crate::expense::{opt_view, string_of, summary_spec, Expense, ExpenseFields, ExpenseInput, ExpenseView};
use crate::store::{can_write, list_spec, rename_spec, Store, StoreView};
use crate::text::{push_str, trim, trim_seq};
use crate::csv_format::{chrono_display, date_to_string};
use crate::date::Date;
use crate::ui::{char_width, pad_end, spaces};

verus! {

pub open spec fn blank_name_message() -> Seq<char> {
    "name cannot be empty"@
}

/// A name must hold something besides whitespace.
pub fn validate_name(name: &str) -> (r: Result<(), StoreError>)
    ensures
        r is Ok <==> trim_seq(name@).len() > 0,
        r matches Err(e) ==> err_view(e) == (ErrorKind::InvalidInput, blank_name_message()),
{
    let t = trim(name);
    if t.unicode_len() == 0 {
        Err(StoreError::new(ErrorKind::InvalidInput, string_of("name cannot be empty")))
    } else {
        Ok(())
    }
}

/// `rename TARGET NEW_NAME`: a blank new name is refused before the store is
/// touched; otherwise the store renames, and the confirmation is returned.
pub open spec fn rename_command_spec(s: StoreView, target: Seq<char>, new_name: Seq<char>) -> (
    StoreView,
    Result<Seq<char>, ErrV>,
) {
    if trim_seq(new_name).len() == 0 {
        (s, Err((ErrorKind::InvalidInput, blank_name_message())))
    } else {
        let (s2, r) = rename_spec(s, target, new_name);
        (
            s2,
            match r {
                Ok(_) => Ok("Renamed '"@ + target + "' to '"@ + new_name + "'\n"@),
                Err(x) => Err(x),
            },
        )
    }
}

pub fn rename_expense(store: &mut Store, target: &str, new_name: &str) -> (r: Result<String, StoreError>)
    requires
        can_write(old(store)@),
    ensures
        (final(store)@, match r {
            Ok(m) => Ok::<Seq<char>, ErrV>(m@),
            Err(e) => Err::<Seq<char>, ErrV>(err_view(e)),
        }) == rename_command_spec(old(store)@, target@, new_name@),
{
    validate_name(new_name)?;
    store.rename(target, new_name)?;
    let mut m = string_of("Renamed '");
    push_str(&mut m, target);
    push_str(&mut m, "' to '");
    push_str(&mut m, new_name);
    push_str(&mut m, "'\n");
    Ok(m)
}

/// `add NAME [fields]`: the expense to save, when a name is given (without
/// one the command asks for every field instead).
pub fn expense_from_input(input: &ExpenseInput) -> (r: Option<Expense>)
    ensures
        match input.name {
            Some(n) => r matches Some(e) && e.id == 0 && e@.name == n@ && e@.amount == opt_view(
                input.fields.amount,
            ) && e@.currency == opt_view(input.fields.currency) && e.start_date == input.fields.date
                && e.interval == input.fields.interval && e@.category == opt_view(input.fields.category)
                && e.end_date == input.fields.end_date && e.extra@.len() == 0,
            None => r is None,
        },
{
    match &input.name {
        Some(n) => {
            let mut e = Expense::from_fields(&input.fields);
            e.name = string_of(n.as_str());
            Some(e)
        },
        None => None,
    }
}

/// What `add` prints: the summary of the expense added.
pub fn added_text(expense: &Expense, formatted_amount: Option<&str>) -> (r: String)
    ensures
        r@ == "Added "@ + summary_spec(expense@.name, crate::expense::opt_str_view(formatted_amount), expense.interval)
            + "\n"@,
{
    let mut m = string_of("Added ");
    let s = expense.summary(formatted_amount);
    push_str(&mut m, s.as_str());
    push_str(&mut m, "\n");
    m
}

/// What `edit` prints for the updated expense.
pub fn updated_text(name: &str) -> (r: String)
    ensures
        r@ == "Updated '"@ + name@ + "'\n"@,
{
    let mut m = string_of("Updated '");
    push_str(&mut m, name);
    push_str(&mut m, "'\n");
    m
}

/// The lines `rm` prints, one per expense removed.
pub open spec fn removed_lines(names: Seq<Seq<char>>) -> Seq<char>
    decreases names.len(),
{
    if names.len() == 0 {
        Seq::empty()
    } else {
        removed_lines(names.drop_last()) + "Removed '"@ + names.last() + "'\n"@
    }
}

pub fn removed_text(names: &Vec<String>) -> (r: String)
    ensures
        r@ == removed_lines(strings_view(names@)),
{
    let ghost nv = strings_view(names@);
    let mut m = String::new();
    let mut i: usize = 0;
    while i < names.len()
        invariant
            nv == strings_view(names@),
            i <= names@.len(),
            m@ == removed_lines(nv.take(i as int)),
        decreases names@.len() - i,
    {
        push_str(&mut m, "Removed '");
        push_str(&mut m, names[i].as_str());
        push_str(&mut m, "'\n");
        assert(nv.take(i + 1).drop_last() =~= nv.take(i as int));
        i = i + 1;
    }
    assert(nv.take(i as int) =~= nv);
    m
}

/// What `undo` prints: the description of what was undone, or "Nothing to
/// undo" when there is no snapshot; any other failure stays an error.
pub fn undo_text(r: Result<String, StoreError>) -> (out: Result<String, StoreError>)
    ensures
        match r {
            Ok(m) => out matches Ok(t) && t@ == m@ + "\n"@,
            Err(e) => if e.kind == ErrorKind::NotFound {
                out matches Ok(t) && t@ == "Nothing to undo\n"@
            } else {
                out matches Err(e2) && err_view(e2) == err_view(e)
            },
        },
{
    match r {
        Ok(m) => {
            let mut t = m;
            push_str(&mut t, "\n");
            Ok(t)
        },
        Err(e) => {
            if e.kind == ErrorKind::NotFound {
                Ok(string_of("Nothing to undo\n"))
            } else {
                Err(e)
            }
        },
    }
}

/// An entry of the interactive edit menu: the label left-aligned in 14
/// columns, a space, then the value or `—` when unset.
pub open spec fn menu_entry(label: Seq<char>, value: Option<Seq<char>>) -> Seq<char> {
    label + spaces(14 - label.len()) + " "@ + match value {
        Some(v) => v,
        None => "—"@,
    }
}

/// A date as `NaiveDate`'s `Display` writes it, when there is one.
pub open spec fn date_text(d: Option<Date>) -> Option<Seq<char>> {
    match d {
        Some(x) => Some(chrono_display(x.year as int, x.month as int, x.day as int)),
        None => None,
    }
}

/// The interactive edit menu for `e`: each field with its current value,
/// then `Done`.
pub open spec fn edit_menu_spec(e: Expense) -> Seq<Seq<char>> {
    seq![
        menu_entry("Amount"@, opt_view(e.amount)),
        menu_entry("Currency"@, opt_view(e.currency)),
        menu_entry("Start date"@, date_text(e.start_date)),
        menu_entry(
            "Interval"@,
            match e.interval {
                Some(i) => Some(i.name_spec()),
                None => None,
            },
        ),
        menu_entry("Category"@, opt_view(e.category)),
        menu_entry("End date"@, date_text(e.end_date)),
        "Done"@,
    ]
}

fn menu_entry_exec(label: &str, value: Option<&str>) -> (r: String)
    ensures
        r@ == menu_entry(
            label@,
            match value {
                Some(v) => Some(v@),
                None => None,
            },
        ),
{
    let mut r = pad_end(label, char_width(label), 14);
    push_str(&mut r, " ");
    match value {
        Some(v) => push_str(&mut r, v),
        None => push_str(&mut r, "—"),
    }
    assert(spaces(crate::ui::saturating_sub(14, label@.len() as int)) =~= spaces(14 - label@.len()));
    r
}

fn date_entry(label: &str, d: &Option<Date>) -> (r: String)
    requires
        d matches Some(x) ==> x.valid(),
    ensures
        r@ == menu_entry(label@, date_text(*d)),
{
    match d {
        Some(x) => {
            let s = date_to_string(x);
            menu_entry_exec(label, Some(s.as_str()))
        },
        None => menu_entry_exec(label, None),
    }
}

fn opt_str(o: &Option<String>) -> (r: Option<&str>)
    ensures
        match r {
            Some(s) => o matches Some(x) && s@ == x@,
            None => o is None,
        },
{
    match o {
        Some(s) => Some(s.as_str()),
        None => None,
    }
}

/// The entries of the interactive edit menu for `e`.
pub fn edit_menu(e: &Expense) -> (r: Vec<String>)
    requires
        e@.wf(),
    ensures
        r@.map_values(|s: String| s@) == edit_menu_spec(*e),
{
    let interval = match &e.interval {
        Some(i) => Some(i.name()),
        None => None,
    };
    let r = vec![
        menu_entry_exec("Amount", opt_str(&e.amount)),
        menu_entry_exec("Currency", opt_str(&e.currency)),
        date_entry("Start date", &e.start_date),
        menu_entry_exec("Interval", interval),
        menu_entry_exec("Category", opt_str(&e.category)),
        date_entry("End date", &e.end_date),
        string_of("Done"),
    ];
    assert(r@.map_values(|s: String| s@) =~= edit_menu_spec(*e));
    r
}

} // verus!
