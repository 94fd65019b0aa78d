use recu::rates::{cache_serves, fetched_base, rates_warning, retry_after, MAX_RETRIES};

#[test]
fn read_cache_matches_base_case_insensitively() {
    assert!(cache_serves("PLN", "pln", 0));
    assert!(cache_serves("usd", "USD", 23));
}

#[test]
fn stale_or_other_base_cache_is_refetched() {
    assert!(!cache_serves("PLN", "pln", 24));
    assert!(!cache_serves("PLN", "eur", 1));
    assert!(cache_serves("PLN", "PLN", -2));
}

#[test]
fn only_passing_failures_are_retried_a_few_times() {
    assert_eq!(MAX_RETRIES, 2);
    assert_eq!(retry_after(true, 0), Some(1));
    assert_eq!(retry_after(true, 1), Some(2));
    assert_eq!(retry_after(true, 2), None);
    assert_eq!(retry_after(false, 0), None);
}

#[test]
fn fetched_rates_carry_the_record_base_or_the_code_upper_cased() {
    assert_eq!(fetched_base(Some("PLN"), "pln"), "PLN");
    assert_eq!(fetched_base(None, "pln"), "PLN");
}

#[test]
fn rates_for_returns_none_on_error() {
    let warning = rates_warning("network down");
    assert!(warning.contains("warning:"));
    assert!(warning.contains("without conversion"));
    assert_eq!(
        warning,
        "warning: could not fetch exchange rates (network down); showing amounts without conversion"
    );
}
