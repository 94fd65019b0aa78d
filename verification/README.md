# recu

A command-line tracker of recurring expenses kept in a CSV file, written in
Verus: the library under `src/` states what each operation does in
`requires`/`ensures` contracts and Verus proves the code against them.

## Layout

- `src/` — the verified library
  - `store.rs`: the CSV store, its undo snapshot and id sequence; every
    mutating operation with the file it writes and the snapshot it keeps
  - `invariants.rs`: laws over the store (undo puts the file back, ids are
    never reused, names stay distinct, ...)
  - `csv_format.rs`: reading and writing the CSV rows, extra columns kept
  - `expense.rs`, `date.rs`: the expense record and the date arithmetic of
    next payments
  - `listing.rs`, `calendar.rs`, `timeline.rs`, `treemap.rs`, `category.rs`,
    `commands.rs`, `config.rs`, `ui.rs`: the views and commands, their
    choices and their text
  - `storage.rs`, `legacy.rs`: the older one-note-per-expense store and the
    commands around it
  - `rates.rs`: when cached exchange rates serve and when a fetch is retried
  - `text.rs`, `currency.rs`, `error.rs`, `args.rs`: shared pieces
- `tests/` — tests of the library on concrete values
- `app/` — the program around it: argument parsing, files, prompts,
  exchange rates, floating-point amounts and the treemap layout

Calls into `chrono`, `csv`, `rusty-money`, `colored`, `serde_json` and std
stand behind small trusted wrappers whose contracts say what the outside
code does.
