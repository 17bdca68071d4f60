//! Settings of the b2 search service.
use vstd::prelude::*;
use crate::text::{parse_u32, parse_u32_spec, str_eq};

verus! {

/// Where the service writes its logs.
#[derive(Debug, Clone)]
pub struct Logging {
    pub path: String,
}

/// Where the search index is served.
#[derive(Debug, Clone)]
pub struct Elasticsearch {
    pub url: String,
}

/// Where the service listens.
#[derive(Debug, Clone)]
pub struct Service {
    pub host: String,
    pub port: u16,
}

/// The settings of the service.
#[derive(Debug, Clone)]
pub struct Settings {
    pub debug: bool,
    pub testing: bool,
    pub mode: String,
    pub logging: Logging,
    pub elasticsearch: Elasticsearch,
    pub service: Service,
}

/// Why the settings of the service cannot be made.
#[derive(Debug, Clone, Copy, PartialEq, Eq, Structural)]
pub enum B2SettingsError {
    /// Neither the `RUN_MODE` variable nor the `settings` argument names a
    /// run mode.
    NoRunMode,
    /// The configured port does not fit in 16 bits.
    PortOutOfRange,
    /// The port given by the environment is not a 16-bit number.
    InvalidPort,
}

/// The run mode: the `RUN_MODE` variable when it is set, else the
/// `settings` argument; an error when neither is given.
pub fn run_mode(env_run_mode: Option<String>, settings_arg: Option<String>) -> (r: Result<String, B2SettingsError>)
    ensures
        match env_run_mode {
            Some(m) => r == Ok::<String, B2SettingsError>(m),
            None => match settings_arg {
                Some(a) => r == Ok::<String, B2SettingsError>(a),
                None => r == Err::<String, B2SettingsError>(B2SettingsError::NoRunMode),
            },
        },
{
    match env_run_mode {
        Some(m) => Ok(m),
        None => match settings_arg {
            Some(a) => Ok(a),
            None => Err(B2SettingsError::NoRunMode),
        },
    }
}

/// The environment variable that gives the address of the search index:
/// `ELASTICSEARCH_TEST_URL` in the `testing` mode, else `ELASTICSEARCH_URL`.
pub fn elasticsearch_url_key(mode: &str) -> (r: &'static str)
    ensures
        r@ == (if mode@ == "testing"@ {
            "ELASTICSEARCH_TEST_URL"@
        } else {
            "ELASTICSEARCH_URL"@
        }),
{
    proof {
        reveal_strlit("testing");
        reveal_strlit("ELASTICSEARCH_TEST_URL");
        reveal_strlit("ELASTICSEARCH_URL");
    }
    if str_eq(mode, "testing") {
        "ELASTICSEARCH_TEST_URL"
    } else {
        "ELASTICSEARCH_URL"
    }
}

/// What the standard library reads from a string as a 16-bit number.
pub open spec fn parse_u16_spec(s: Seq<char>) -> Option<u16> {
    match parse_u32_spec(s) {
        Some(v) => if v <= 65535 {
            Some(v as u16)
        } else {
            None
        },
        None => None,
    }
}

/// The port of the service: the one configured, which must fit in 16
/// bits, unless the environment gives one, which must then read as a
/// 16-bit number.
pub fn service_port(default_port: i64, env_port: Option<String>) -> (r: Result<u16, B2SettingsError>)
    ensures
        if default_port < 0 || default_port > 65535 {
            r == Err::<u16, B2SettingsError>(B2SettingsError::PortOutOfRange)
        } else {
            match env_port {
                None => r == Ok::<u16, B2SettingsError>(default_port as u16),
                Some(t) => match parse_u16_spec(t@) {
                    Some(p) => r == Ok::<u16, B2SettingsError>(p),
                    None => r == Err::<u16, B2SettingsError>(B2SettingsError::InvalidPort),
                },
            }
        },
{
    if default_port < 0 || default_port > 65535 {
        return Err(B2SettingsError::PortOutOfRange);
    }
    match env_port {
        None => Ok(default_port as u16),
        Some(t) => match parse_u32(t.as_str()) {
            Some(v) => if v <= 65535 {
                Ok(v as u16)
            } else {
                Err(B2SettingsError::InvalidPort)
            },
            None => Err(B2SettingsError::InvalidPort),
        },
    }
}

} // verus!
