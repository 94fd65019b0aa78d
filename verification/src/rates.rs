//! The choices around exchange rates: whether the cached rates serve a
//! request, whether a failed fetch is tried again, which base the fetched
//! rates carry, and the warning shown when none can be had. Fetching,
//! reading the clock and the cache file are the caller's part.
use vstd::prelude::*;

use crate::currency::{to_uppercase, unicode_upper};
use crate::expense::string_of;
use crate::text::{eq_ic, eq_ignore_ascii_case, push_str};

verus! {

/// How many times a fetch that failed for a passing reason is tried again.
pub const MAX_RETRIES: u8 = 2;

/// Cached rates serve a request for `base` when they were fetched for the
/// same currency (codes compared without regard to ASCII case) less than
/// 24 whole hours ago.
pub fn cache_serves(cache_base: &str, base: &str, age_hours: i64) -> (r: bool)
    ensures
        r == (eq_ic(cache_base@, base@) && age_hours < 24),
{
    eq_ignore_ascii_case(cache_base, base) && age_hours < 24
}

/// After a failed fetch: the retry count to go on with, or `None` to give
/// up. Only failures of the connection (I/O, timeout, unknown host) are
/// tried again, at most `MAX_RETRIES` times.
pub fn retry_after(passing: bool, retries: u8) -> (r: Option<u8>)
    ensures
        r == if passing && retries < MAX_RETRIES {
            Some((retries + 1) as u8)
        } else {
            None::<u8>
        },
{
    if passing && retries < MAX_RETRIES {
        Some(retries + 1)
    } else {
        None
    }
}

/// The base that fetched rates carry: the base of the first record, or the
/// requested code in upper case when no record came back.
pub fn fetched_base(first_record_base: Option<&str>, requested: &str) -> (r: String)
    ensures
        r@ == match first_record_base {
            Some(b) => b@,
            None => unicode_upper(requested@),
        },
{
    match first_record_base {
        Some(b) => string_of(b),
        None => to_uppercase(requested),
    }
}

/// The warning shown when rates cannot be fetched.
pub fn rates_warning(error: &str) -> (r: String)
    ensures
        r@ == "warning: could not fetch exchange rates ("@ + error@
            + "); showing amounts without conversion"@,
{
    let mut s = string_of("warning: could not fetch exchange rates (");
    push_str(&mut s, error);
    push_str(&mut s, "); showing amounts without conversion");
    s
}

} // verus!
