//! The user configuration (the display currency) and the `config` commands'
//! decisions: what `list` prints and what `set` stores.
use vstd::prelude::*;

use crate::currency::{find_currency_spec, invalid_currency_message, normalize_currency, unicode_lower};
use crate::error::{err_view, ErrV, ErrorKind, StoreError};
use crate::expense::{clone_opt, opt_view, string_of};
use crate::text::{push_str, trim_seq};

verus! {

/// The configuration file's contents.
#[derive(Clone, Debug)]
pub struct Config {
    /// Display currency for totals and conversions.
    pub currency: Option<String>,
}

impl Default for Config {
    fn default() -> (r: Config)
        ensures
            r.currency is None,
    {
        Config { currency: None }
    }
}

/// The `config` subcommands of the first command-line layout: `list` takes no flags.
#[derive(Clone, Debug)]
pub enum ConfigCommand {
    List,
    SetValue(ConfigSetArgs),
}

/// A configuration key.
#[derive(Clone, Copy, Debug, PartialEq, Eq, Structural)]
pub enum ConfigKey {
    /// Display currency for expense conversion (ISO 4217 code).
    Currency,
}

/// `config set KEY VALUE`.
#[derive(Clone, Debug)]
pub struct ConfigSetArgs {
    pub key: ConfigKey,
    pub value: String,
}

/// What `config list` prints as text.
pub open spec fn describe_spec(currency: Option<Seq<char>>) -> Seq<char> {
    match currency {
        Some(c) => "currency = "@ + c + "\n"@,
        None => "(no configuration set)\n"@,
    }
}

impl Config {
    /// The text of `config list`.
    pub fn describe(&self) -> (r: String)
        ensures
            r@ == describe_spec(opt_view(self.currency)),
    {
        match &self.currency {
            Some(c) => {
                let mut s = string_of("currency = ");
                push_str(&mut s, c.as_str());
                push_str(&mut s, "\n");
                s
            },
            None => string_of("(no configuration set)\n"),
        }
    }

    /// `config set currency VALUE`: the value trimmed and lower-cased must be
    /// an ISO 4217 code; then it becomes the display currency. Returns the
    /// confirmation to print; an unknown code is refused and nothing changes.
    pub fn set_currency(&mut self, value: &str) -> (r: Result<String, StoreError>)
        ensures
            ({
                let code = unicode_lower(trim_seq(value@));
                match r {
                    Ok(m) => find_currency_spec(code) is Some && opt_view(final(self).currency) == Some(code)
                        && m@ == "Currency set to "@ + code + "\n"@,
                    Err(e) => find_currency_spec(code) is None && opt_view(final(self).currency) == opt_view(old(self).currency)
                        && err_view(e) == (ErrorKind::InvalidInput, invalid_currency_message(value@)),
                }
            }),
    {
        match normalize_currency(value) {
            Ok(code) => {
                let mut m = string_of("Currency set to ");
                push_str(&mut m, code.as_str());
                push_str(&mut m, "\n");
                self.currency = Some(code);
                Ok(m)
            },
            Err(msg) => Err(StoreError::new(ErrorKind::InvalidInput, msg)),
        }
    }
}

} // verus!
