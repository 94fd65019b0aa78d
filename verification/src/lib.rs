use vstd::prelude::*;

pub mod args;
pub mod calendar;
pub mod category;
pub mod commands;
pub mod config;
pub mod csv_format;
pub mod currency;
pub mod date;
pub mod error;
pub mod expense;
pub mod invariants;
pub mod legacy;
pub mod listing;
pub mod rates;
pub mod storage;
pub mod store;
pub mod text;
pub mod timeline;
pub mod treemap;
pub mod ui;

verus! {

} // verus!
