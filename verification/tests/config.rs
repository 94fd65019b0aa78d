use recu::config::Config;
use recu::error::ErrorKind;

#[test]
fn describe_config() {
    assert_eq!(Config::default().describe(), "(no configuration set)\n");
    let c = Config { currency: Some("eur".to_string()) };
    assert_eq!(c.describe(), "currency = eur\n");
}

#[test]
fn set_currency_normalizes_and_refuses_unknown() {
    let mut c = Config::default();
    assert_eq!(c.set_currency(" USD ").unwrap(), "Currency set to usd\n");
    assert_eq!(c.currency.as_deref(), Some("usd"));
    let err = c.set_currency("zzz").unwrap_err();
    assert_eq!(err.kind(), ErrorKind::InvalidInput);
    assert!(err.message().starts_with("invalid currency \"zzz\"; valid: "));
    assert_eq!(c.currency.as_deref(), Some("usd"));
}
