//! The arguments of the command-line commands, as plain values. The command
//! line parser fills copies of these types and converts them.
use vstd::prelude::*;

use crate::date::Date;
use crate::expense::{ExpenseFields, ExpenseInput};

verus! {

/// How a command prints its result.
#[derive(Clone, Copy, Debug, PartialEq, Eq, Structural)]
pub enum OutputFormat {
    Text,
    Json,
}

impl Default for OutputFormat {
    fn default() -> (r: OutputFormat)
        ensures
            r == OutputFormat::Text,
    {
        OutputFormat::Text
    }
}

/// `category list`.
#[derive(Clone, Debug)]
pub struct CategoryListArgs {
    /// Output as JSON.
    pub json: bool,
}

/// `category remove`: the categories to drop, `@id` or name, comma-separated.
#[derive(Clone, Debug)]
pub struct CategoryRemoveArgs {
    pub targets: Vec<String>,
    /// Output as JSON.
    pub json: bool,
}

/// `category rename`: sources (`@id` or name) merged into `dst`.
#[derive(Clone, Debug)]
pub struct CategoryRenameArgs {
    pub sources: Vec<String>,
    pub dst: String,
}

/// The `category` subcommands.
#[derive(Clone, Debug)]
pub enum CategoryCommand {
    List(CategoryListArgs),
    Remove(CategoryRemoveArgs),
    Rename(CategoryRenameArgs),
}

/// `config list`.
#[derive(Clone, Debug)]
pub struct ConfigListArgs {
    /// Output as JSON.
    pub json: bool,
}

/// A configuration key.
#[derive(Clone, Copy, Debug, PartialEq, Eq, Structural)]
pub enum ConfigKey {
    /// Display currency for expense conversion (ISO 4217 code).
    Currency,
}

/// `config set KEY VALUE`.
#[derive(Clone, Debug)]
pub struct ConfigSetArgs {
    pub key: ConfigKey,
    pub value: String,
}

/// The `config` subcommands.
#[derive(Clone, Debug)]
pub enum ConfigCommand {
    List(ConfigListArgs),
    SetValue(ConfigSetArgs),
}

/// `list`: include ended expenses; filter by categories.
#[derive(Clone, Debug)]
pub struct LsArgs {
    pub all: bool,
    pub category: Vec<String>,
}

impl Default for LsArgs {
    fn default() -> (r: LsArgs)
        ensures
            !r.all,
            r.category@.len() == 0,
    {
        LsArgs { all: false, category: Vec::new() }
    }
}

/// `remove`: the expenses to remove, `@id` or name, comma-separated.
#[derive(Clone, Debug)]
pub struct RemoveArgs {
    pub targets: Vec<String>,
    /// Output as JSON.
    pub json: bool,
}

/// `rename TARGET NEW_NAME`.
#[derive(Clone, Debug)]
pub struct RenameArgs {
    pub target: String,
    pub new_name: String,
}

/// `rm`: the expenses to remove, and how to print their names.
#[derive(Clone, Debug)]
pub struct RmArgs {
    pub targets: Vec<String>,
    pub format: OutputFormat,
}

/// `timeline`: days to look ahead and back.
#[derive(Clone, Copy, Debug)]
pub struct TimelineArgs {
    pub days: u32,
    pub past_days: u32,
}

/// `treemap`: include ended expenses.
#[derive(Clone, Copy, Debug)]
pub struct TreemapArgs {
    pub all: bool,
}

impl Default for TreemapArgs {
    fn default() -> (r: TreemapArgs)
        ensures
            !r.all,
    {
        TreemapArgs { all: false }
    }
}

/// `upcoming`: days to look ahead.
#[derive(Clone, Copy, Debug)]
pub struct UpcomingArgs {
    pub days: u32,
}

/// `calendar`: which month (`--next`, or `--month YYYY-MM` as its first
/// day), include ended expenses, category filters, output format.
#[derive(Clone, Debug)]
pub struct CalendarArgs {
    pub next: bool,
    pub month: Option<Date>,
    pub all: bool,
    pub category: Vec<String>,
    pub format: OutputFormat,
}

/// `add`: the expense's name and fields, and the output format.
#[derive(Clone, Debug)]
pub struct AddArgs {
    pub fields: ExpenseInput,
    pub format: OutputFormat,
}

/// `edit TARGET`: the fields to change, and whether to print JSON.
#[derive(Clone, Debug)]
pub struct EditArgs {
    pub target: String,
    pub fields: ExpenseFields,
    pub json: bool,
}

} // verus!
