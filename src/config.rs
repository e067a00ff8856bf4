//! Settings: where the store lives, how long results are kept, and how
//! alerts are mailed.

use vstd::prelude::*;

verus! {

/// Mail delivery settings.
#[derive(Debug, Clone)]
pub struct SmtpConfig {
    pub server: String,
    pub port: u16,
    pub username: Option<String>,
    pub password: Option<String>,
    pub from: String,
    /// Least number of seconds between two alerts of one monitor.
    pub rate_limit_seconds: Option<u64>,
}

/// Store settings.
#[derive(Debug, Clone)]
pub struct StorageConfig {
    pub path: String,
    /// How many days of results to keep.
    pub retention_days: Option<u32>,
}

/// All settings.
#[derive(Debug, Clone)]
pub struct Config {
    pub db: StorageConfig,
    pub smtp: Option<SmtpConfig>,
}

impl Config {
    /// A sample configuration to start from.
    pub fn example() -> (r: Config)
        ensures
            r.db.path@ == "./uptui.db"@,
            r.db.retention_days == Some(30u32),
            r.smtp is Some,
            r.smtp->0.server@ == "smtp.example.org"@,
            r.smtp->0.port == 587,
            r.smtp->0.username is None,
            r.smtp->0.password is None,
            r.smtp->0.from@ == "uptui@example.org"@,
            r.smtp->0.rate_limit_seconds == Some(3600u64),
    {
        Config {
            db: StorageConfig { path: String::from_str("./uptui.db"), retention_days: Some(30) },
            smtp: Some(
                SmtpConfig {
                    server: String::from_str("smtp.example.org"),
                    port: 587,
                    username: None,
                    password: None,
                    from: String::from_str("uptui@example.org"),
                    rate_limit_seconds: Some(3600),
                },
            ),
        }
    }
}

} // verus!
