//! The configuration of the server.

use vstd::prelude::*;

verus! {

/// The whole configuration.
#[derive(Debug, Clone)]
pub struct Config {
    /// What is served.
    pub general: General,
    /// Where the accounts and challenges are kept.
    pub database: Database,
    /// How the HTTP interface is served.
    pub api: Api,
    /// What is logged.
    pub logconfig: LogConfig,
}

/// What is served.
#[derive(Debug, Clone)]
pub struct General {
    /// The addresses of the DNS server, separated by commas.
    pub listen: String,
    /// The protocol of the DNS server.
    pub proto: String,
    /// The domain of the served zone.
    pub domain: String,
    /// The name of the zone's name server.
    pub nsname: String,
    /// The mailbox of the zone's administrator, as a domain name.
    pub nsadmin: String,
    /// Whether to run in debug mode.
    pub debug: bool,
    /// The records of the zone that do not change.
    pub static_records: Vec<String>,
}

/// Where the accounts and challenges are kept.
#[derive(Debug, Clone)]
pub struct Database {
    /// The kind of database.
    pub engine: String,
    /// How to reach it.
    pub connection: String,
}

/// How the HTTP interface is served.
#[derive(Debug, Clone)]
pub struct Api {
    /// The domain of the interface.
    pub api_domain: Option<String>,
    /// The addresses to listen on, separated by commas.
    pub ip: String,
    /// Whether new accounts are refused.
    pub disable_registration: bool,
    /// The port for obtaining certificates.
    pub autocert_port: Option<String>,
    /// The ports to listen on, separated by commas.
    pub port: String,
    /// Where the certificate comes from.
    pub tls: String,
    /// The file of the private key.
    pub tls_cert_privkey: Option<String>,
    /// The file of the certificate chain.
    pub tls_cert_fullchain: Option<String>,
    /// The directory for obtained certificates.
    pub acme_cache_dir: Option<String>,
    /// The contact address for obtaining certificates.
    pub notification_email: Option<String>,
    /// The origins that scripts may call from.
    pub corsorigins: Vec<String>,
    /// Whether a header may name the client's address.
    pub use_header: bool,
    /// The name of that header.
    pub header_name: String,
    /// Whether clients are told to use HTTPS only.
    pub hsts_enabled: bool,
    /// For how many seconds they are told so.
    pub hsts_max_age: Option<u32>,
    /// Whether that includes subdomains.
    pub hsts_include_subdomains: bool,
    /// Whether browsers may preload it.
    pub hsts_preload: bool,
    /// The networks of the proxies whose header is believed.
    pub trusted_proxies: Vec<String>,
    /// How many registrations an address may make per minute; zero for any number.
    pub register_rate_limit_per_min: u32,
    /// Whether accounts that were never used are removed.
    pub cleanup_orphans: bool,
    /// After how many minutes they are removed.
    pub orphan_timeout_mins: u32,
}

/// What is logged.
#[derive(Debug, Clone)]
pub struct LogConfig {
    /// The least severe level that is logged.
    pub loglevel: String,
}

/// Unused accounts are removed unless the configuration says otherwise.
pub fn default_cleanup_orphans() -> (res: bool)
    ensures
        res,
{
    true
}

/// They are removed after half an hour unless the configuration says otherwise.
pub fn default_orphan_timeout_mins() -> (res: u32)
    ensures
        res == 30,
{
    30
}

impl Api {
    /// After how many seconds an unused account is removed, if it is.
    pub fn orphan_timeout_seconds(&self) -> (res: Option<i64>)
        ensures
            res == (if self.cleanup_orphans {
                Some((self.orphan_timeout_mins * 60) as i64)
            } else {
                None
            }),
    {
        if self.cleanup_orphans {
            Some(self.orphan_timeout_mins as i64 * 60)
        } else {
            None
        }
    }
}

/// Unused accounts are removed after as many minutes as are configured, or never if that is switched
/// off; and after half an hour if nothing is configured.
pub proof fn law_orphan_timeout(api: Api, res: Option<i64>, on: bool, mins: u32)
    requires
        call_ensures(default_cleanup_orphans, (), on),
        call_ensures(default_orphan_timeout_mins, (), mins),
        call_ensures(Api::orphan_timeout_seconds, (&api,), res),
    ensures
        res is Some <==> api.cleanup_orphans,
        res matches Some(n) ==> n == 60 * api.orphan_timeout_mins,
        on,
        mins == 30,
{
}

} // verus!
