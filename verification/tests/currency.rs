use recu::currency::{find_currency, normalize_currency};

#[test]
fn normalize_trims_and_lowers_known_codes() {
    assert_eq!(normalize_currency(" USD "), Ok("usd".to_string()));
    assert_eq!(normalize_currency("eur"), Ok("eur".to_string()));
    let err = normalize_currency("zzz").expect_err("unknown code");
    assert!(err.starts_with("invalid currency \"zzz\"; valid: ars, aud,"), "{err}");
}

#[test]
fn normalizing_an_accepted_code_again_gives_it_back() {
    for input in [" USD ", "Gbp", "\tjpy\n", "PLN"] {
        let once = normalize_currency(input).expect("accepted");
        assert_eq!(normalize_currency(&once), Ok(once.clone()));
    }
}

#[test]
fn found_codes_are_upper_case() {
    assert_eq!(find_currency("usd").map(|c| c.code), Some("USD".to_string()));
    assert!(find_currency("us").is_none());
}
