//! User config schema — persisted by the program to `~/.config/spiderweb/config.toml`.

use vstd::prelude::*;

verus! {

/// Top-level user configuration.
#[derive(Debug, Clone)]
pub struct Settings {
    /// URL opened on startup when none is supplied via CLI.
    pub home_page: String,
    /// Color theme ("dark" or "light").
    pub theme: String,
    /// Request timeout in seconds.
    pub timeout_secs: u64,
}

impl Default for Settings {
    fn default() -> (s: Self)
        ensures
            s.home_page@ == "https://example.com"@,
            s.theme@ == "dark"@,
            s.timeout_secs == 30,
    {
        Self { home_page: "https://example.com".to_owned(), theme: "dark".to_owned(), timeout_secs: 30 }
    }
}

} // verus!
