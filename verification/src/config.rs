//! The daemon's configuration rules that do not depend on the process
//! environment: defaults and the pairing of the TLS files.

use crate::text;
use vstd::prelude::*;

verus! {

/// Worker threads of the async runtime.
pub const TOKIO_CORE_WORKERS: usize = 1;

/// Threads for blocking work.
pub const BLOCKING_THREADS_MAX: usize = 2;

/// Capacity of the database queue.
pub const DATABASE_QUEUE_CAPACITY: usize = 32;

/// The certificate and private key files for HTTPS.
#[derive(Debug)]
pub struct TlsConfig {
    pub certificate: String,
    pub private_key: String,
}

/// Why the configuration was refused.
#[derive(Debug)]
pub enum ConfigError {
    Configuration(String),
}

/// HTTPS is configured by both files or by neither.
pub fn tls_config(certificate: Option<String>, private_key: Option<String>) -> (r: Result<Option<TlsConfig>, ConfigError>)
    ensures
        match (certificate, private_key) {
            (Some(c), Some(k)) => r matches Ok(Some(t)) && t.certificate@ == c@ && t.private_key@ == k@,
            (None, None) => r matches Ok(None),
            _ => r matches Err(ConfigError::Configuration(m)) && m@
                == "WORKFLOWD_TLS_CERT and WORKFLOWD_TLS_KEY must be set together"@,
        },
{
    match (certificate, private_key) {
        (Some(certificate), Some(private_key)) => Ok(Some(TlsConfig { certificate, private_key })),
        (None, None) => Ok(None),
        _ => Err(ConfigError::Configuration(text::owned("WORKFLOWD_TLS_CERT and WORKFLOWD_TLS_KEY must be set together"))),
    }
}

/// The listening address, defaulting to the loopback port.
pub fn bind_address(value: Option<String>) -> (r: String)
    ensures
        match value {
            Some(v) => r@ == v@,
            None => r@ == "127.0.0.1:8787"@,
        },
{
    match value {
        Some(v) => v,
        None => text::owned("127.0.0.1:8787"),
    }
}

/// The state directory, defaulting to the packaged location.
pub fn state_directory(value: Option<String>) -> (r: String)
    ensures
        match value {
            Some(v) => r@ == v@,
            None => r@ == "/var/lib/workflow-rust"@,
        },
{
    match value {
        Some(v) => v,
        None => text::owned("/var/lib/workflow-rust"),
    }
}

/// The text of the minimum SQLite version, defaulting to 3.47.2.
pub fn sqlite_min_version_text(value: Option<String>) -> (r: String)
    ensures
        match value {
            Some(v) => r@ == v@,
            None => r@ == "3047002"@,
        },
{
    match value {
        Some(v) => v,
        None => text::owned("3047002"),
    }
}

} // verus!
