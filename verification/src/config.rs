//! Server configuration.

use crate::text::{parse_u64, unsigned_value};
use vstd::prelude::*;

verus! {

#[derive(Debug)]
pub struct Config {
    /// Listen address, e.g. `0.0.0.0:8080`.
    pub addr: String,
    /// Directory holding all namespaces (each namespace = one subdirectory).
    pub db_path: String,
    /// Rotate binlog segments at this size.
    pub max_segment_bytes: u64,
    /// Total binlog retention per namespace; oldest segments are deleted
    /// beyond this. Clients older than the retained range must re-clone.
    pub max_binlog_bytes: u64,
}

/// The values of the environment's variables, where they are set.
#[derive(Debug)]
pub struct Env {
    /// `SQLD_ADDR`.
    pub addr: Option<String>,
    /// `SQLD_DB_PATH`.
    pub db_path: Option<String>,
    /// `SQLD_MAX_SEGMENT_BYTES`.
    pub max_segment_bytes: Option<String>,
    /// `SQLD_MAX_BINLOG_BYTES`.
    pub max_binlog_bytes: Option<String>,
}

/// A variable that does not say what it should.
#[derive(Debug, PartialEq, Eq)]
pub struct ConfigError {
    pub message: String,
}

/// What a text variable says, or its default.
pub open spec fn text_setting(value: Option<String>, default: Seq<char>) -> Seq<char> {
    match value {
        Some(s) => s@,
        None => default,
    }
}

/// What a number variable says, or its default; none where it says no number.
pub open spec fn number_setting(value: Option<String>, default: u64) -> Option<nat> {
    match value {
        Some(s) => unsigned_value(s@),
        None => Some(default as nat),
    }
}

fn env_or(value: Option<String>, default: &str) -> (r: String)
    ensures
        r@ == text_setting(value, default@),
{
    match value {
        Some(s) => s,
        None => default.to_owned(),
    }
}

fn env_u64(key: &str, value: Option<String>, default: u64) -> (r: Result<u64, ConfigError>)
    ensures
        match number_setting(value, default) {
            Some(v) => r == Ok::<_, ConfigError>(v as u64),
            None => r is Err && r->Err_0.message@ == key@ + " must be a number"@,
        },
{
    match value {
        Some(s) => match parse_u64(s.as_str()) {
            Some(v) => Ok(v),
            None => {
                let mut message = key.to_owned();
                message.append(" must be a number");
                Err(ConfigError { message })
            },
        },
        None => Ok(default),
    }
}

/// A configuration, mathematically.
#[verifier::ext_equal]
pub struct Settings {
    pub addr: Seq<char>,
    pub db_path: Seq<char>,
    pub max_segment_bytes: nat,
    pub max_binlog_bytes: nat,
}

/// What the environment asks for, or what is wrong with it.
pub open spec fn settings(env: Env) -> Result<Settings, Seq<char>> {
    match (
        number_setting(env.max_segment_bytes, 16777216),
        number_setting(env.max_binlog_bytes, 268435456),
    ) {
        (Some(segment), Some(total)) => Ok(
            Settings {
                addr: text_setting(env.addr, "0.0.0.0:8080"@),
                db_path: text_setting(env.db_path, "./data"@),
                max_segment_bytes: segment,
                max_binlog_bytes: total,
            },
        ),
        (None, _) => Err("SQLD_MAX_SEGMENT_BYTES"@ + " must be a number"@),
        (Some(_), None) => Err("SQLD_MAX_BINLOG_BYTES"@ + " must be a number"@),
    }
}

impl Config {
    /// The configuration that the environment asks for: segments of 16 MiB and
    /// 256 MiB in all where it does not say otherwise.
    pub fn from_env(env: Env) -> (r: Result<Config, ConfigError>)
        ensures
            match settings(env) {
                Ok(s) => {
                    &&& r is Ok
                    &&& r->Ok_0.addr@ == s.addr
                    &&& r->Ok_0.db_path@ == s.db_path
                    &&& r->Ok_0.max_segment_bytes == s.max_segment_bytes
                    &&& r->Ok_0.max_binlog_bytes == s.max_binlog_bytes
                },
                Err(message) => r is Err && r->Err_0.message@ == message,
            },
    {
        let addr = env_or(env.addr, "0.0.0.0:8080");
        let db_path = env_or(env.db_path, "./data");
        let max_segment_bytes: u64 = match env_u64(
            "SQLD_MAX_SEGMENT_BYTES",
            env.max_segment_bytes,
            16777216,
        ) {
            Ok(v) => v,
            Err(e) => {
                return Err(e);
            },
        };
        let max_binlog_bytes: u64 = match env_u64(
            "SQLD_MAX_BINLOG_BYTES",
            env.max_binlog_bytes,
            268435456,
        ) {
            Ok(v) => v,
            Err(e) => {
                return Err(e);
            },
        };
        Ok(Config { addr, db_path, max_segment_bytes, max_binlog_bytes })
    }
}

} // verus!
