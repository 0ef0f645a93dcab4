use acme_dns_rust::config::{
    default_cleanup_orphans, default_orphan_timeout_mins, Api, Config, Database, General, LogConfig,
};
use acme_dns_rust::db::Record;
use acme_dns_rust::net::Ip;
use acme_dns_rust::server::{
    admin_advance, admin_gate, after_new_password, api_addresses, check_new_password, deletion_line, enter_password,
    hashed_password, list_lines,
    listen_addresses, log_level, setup_admin_password, tls_mode, txt_lines, txt_subdomain,
    txt_target, AdminEvent, AdminStep, Gate, Level, NewPassword, Tls,
};

fn config(tls: &str, ip: &str, port: &str) -> Config {
    Config {
        general: General {
            listen: "0.0.0.0:53".to_string(),
            proto: "udp".to_string(),
            domain: "auth.example.com".to_string(),
            nsname: "ns1.example.com".to_string(),
            nsadmin: "admin.example.com".to_string(),
            debug: false,
            static_records: vec![],
        },
        database: Database { engine: "sqlite".to_string(), connection: ":memory:".to_string() },
        api: Api {
            api_domain: None,
            ip: ip.to_string(),
            disable_registration: false,
            autocert_port: None,
            port: port.to_string(),
            tls: tls.to_string(),
            tls_cert_privkey: None,
            tls_cert_fullchain: None,
            acme_cache_dir: None,
            notification_email: None,
            corsorigins: vec![],
            use_header: false,
            header_name: "X-Forwarded-For".to_string(),
            hsts_enabled: false,
            hsts_max_age: None,
            hsts_include_subdomains: false,
            hsts_preload: false,
            trusted_proxies: vec![],
            register_rate_limit_per_min: 0,
            cleanup_orphans: default_cleanup_orphans(),
            orphan_timeout_mins: default_orphan_timeout_mins(),
        },
        logconfig: LogConfig { loglevel: "info".to_string() },
    }
}

fn record(username: &str, subdomain: &str, created_at: &str) -> Record {
    Record {
        username: username.to_string(),
        password_hash: String::new(),
        subdomain: subdomain.to_string(),
        allow_from: vec![],
        created_at: created_at.to_string(),
        has_updated: false,
    }
}

#[test]
fn levels_are_named_in_letters_of_any_size() {
    let level = |s: &str| log_level(&LogConfig { loglevel: s.to_string() });
    assert_eq!(level("ERROR"), Level::Error);
    assert_eq!(level("warn"), Level::Warn);
    assert_eq!(level("Warning"), Level::Warn);
    assert_eq!(level("debug"), Level::Debug);
    assert_eq!(level("info"), Level::Info);
    assert_eq!(level("trace"), Level::Info);
    assert_eq!(level(""), Level::Info);
}

#[test]
fn addresses_are_separated_by_commas() {
    assert_eq!(listen_addresses("0.0.0.0:53 , [::]:53"), vec!["0.0.0.0:53", "[::]:53"]);
    assert_eq!(listen_addresses(""), vec![""]);
}

#[test]
fn addresses_of_the_interface_go_with_ports() {
    let at = |ip: &str, port: &str| api_addresses(&config("none", ip, port).api);
    assert_eq!(at("127.0.0.1", "8080").unwrap(), vec![(Ip::V4(0x7F00_0001), 8080)]);
    assert_eq!(
        at("127.0.0.1, ::1 ,10.0.0.1", "80,443").unwrap(),
        vec![(Ip::V4(0x7F00_0001), 80), (Ip::V6(1), 443), (Ip::V4(0x0A00_0001), 80)]
    );
    assert_eq!(at("nonsense,::1", "80,443").unwrap(), vec![(Ip::V6(1), 443)]);
    assert_eq!(at("127.0.0.1,::1", "65536,443").unwrap(), vec![(Ip::V6(1), 443)]);
    let m = "No valid API listen addresses configured";
    assert_eq!(at("nonsense", "443").unwrap_err(), m);
    assert_eq!(at("127.0.0.1", "").unwrap_err(), m);
}

#[test]
fn the_certificate_comes_from_where_the_configuration_says() {
    assert!(matches!(tls_mode(&config("none", "", "")), Tls::Plain));
    let mut c = config("cert", "", "");
    assert!(
        matches!(tls_mode(&c), Tls::Files { chain, key } if chain.is_empty() && key.is_empty())
    );
    c.api.tls_cert_fullchain = Some("chain.pem".to_string());
    c.api.tls_cert_privkey = Some("key.pem".to_string());
    assert!(
        matches!(tls_mode(&c), Tls::Files { chain, key } if chain == "chain.pem" && key == "key.pem")
    );
    let mut c = config("letsencrypt", "", "");
    match tls_mode(&c) {
        Tls::Acme { staging, domain, cache_dir, contact } => {
            assert!(!staging);
            assert_eq!(domain, "auth.example.com");
            assert_eq!(cache_dir, "api-certs");
            assert_eq!(contact, None);
        }
        other => panic!("{:?}", other),
    }
    c.api.tls = "letsencryptstaging".to_string();
    c.api.acme_cache_dir = Some("dir".to_string());
    c.api.notification_email = Some("a@b.c".to_string());
    match tls_mode(&c) {
        Tls::Acme { staging, cache_dir, contact, .. } => {
            assert!(staging);
            assert_eq!(cache_dir, "dir");
            assert_eq!(contact, Some("mailto:a@b.c".to_string()));
        }
        other => panic!("{:?}", other),
    }
    c.api.notification_email = Some(String::new());
    assert!(matches!(tls_mode(&c), Tls::Acme { contact: None, .. }));
}

#[test]
fn unused_accounts_are_removed_after_the_configured_minutes() {
    let mut api = config("none", "", "").api;
    assert_eq!(api.orphan_timeout_seconds(), Some(1800));
    api.orphan_timeout_mins = u32::MAX;
    assert_eq!(api.orphan_timeout_seconds(), Some(257_698_037_700));
    api.cleanup_orphans = false;
    assert_eq!(api.orphan_timeout_seconds(), None);
}

#[test]
fn the_administrator_enters_or_sets_a_password() {
    assert!(matches!(admin_gate(None), Gate::SetPassword));
    let hash = bcrypt::hash("the right password", 4).unwrap();
    assert!(matches!(admin_gate(Some(hash.clone())), Gate::EnterPassword(h) if h == hash));
    assert_eq!(enter_password("the right password", &hash), Ok(()));
    assert_eq!(
        enter_password("the wrong password", &hash),
        Err("Error: Incorrect admin password.".to_string())
    );
}

#[test]
fn a_new_password_is_long_and_entered_twice() {
    let short = "Password must be at least 12 characters.".to_string();
    assert_eq!(check_new_password("elevenchars"), Err(short.clone()));
    assert_eq!(check_new_password("twelve chars"), Ok(()));
    assert_eq!(check_new_password("éééééééé"), Err(short.clone()));
    assert!(matches!(setup_admin_password("short", "short"), NewPassword::Again(m) if m == short));
    assert!(matches!(
        setup_admin_password("twelve chars", "twelve Chars"),
        NewPassword::Again(m) if m == "Passwords do not match."
    ));
    let failed = hashed_password(Err("no salt".to_string()));
    assert!(matches!(failed, NewPassword::Failed(m) if m == "no salt"));
    match setup_admin_password("twelve chars", "twelve chars") {
        NewPassword::Store(hash) => {
            assert!(hash.starts_with("$2b$10$"));
            assert_eq!(enter_password("twelve chars", &hash), Ok(()));
        }
        other => panic!("{:?}", other),
    }
}

#[test]
fn a_new_password_is_asked_for_again_stored_or_given_up() {
    let (step, told) = after_new_password(NewPassword::Again("again".to_string()));
    assert!(matches!(step, AdminStep::First));
    assert_eq!(told.unwrap(), "again");
    let (step, told) = after_new_password(NewPassword::Store("hash".to_string()));
    assert!(matches!(step, AdminStep::Saving(h) if h == "hash") && told.is_none());
    let (step, told) = after_new_password(NewPassword::Failed("no salt".to_string()));
    assert!(matches!(step, AdminStep::Stopped));
    assert_eq!(told.unwrap(), "no salt");
}

#[test]
fn a_command_is_reached_with_a_password_only() {
    let typed = |s: &str| AdminEvent::Typed(s.to_string());
    let hash = bcrypt::hash("the right password", 4).unwrap();
    let (enter, told) = admin_advance(AdminStep::Start, AdminEvent::Hash(Some(hash.clone())));
    assert!(matches!(&enter, AdminStep::Enter(h) if *h == hash) && told.is_none());
    let (step, told) = admin_advance(enter.clone(), typed("the wrong password"));
    assert!(matches!(step, AdminStep::Stopped));
    assert_eq!(told.unwrap(), "Error: Incorrect admin password.");
    let (step, told) = admin_advance(enter.clone(), typed("the right password"));
    assert!(matches!(step, AdminStep::Command) && told.is_none());
    assert!(matches!(admin_advance(enter, AdminEvent::Saved).0, AdminStep::Enter(_)));

    let (step, told) = admin_advance(AdminStep::Start, AdminEvent::Hash(None));
    assert!(matches!(step, AdminStep::First));
    assert_eq!(told.unwrap(), "No admin password set. Configure it now.");
    let (step, told) = admin_advance(step, typed("short"));
    assert!(matches!(step, AdminStep::First));
    assert_eq!(told.unwrap(), "Password must be at least 12 characters.");
    let (step, told) = admin_advance(step, typed("twelve chars"));
    assert!(matches!(&step, AdminStep::Second(f) if f == "twelve chars") && told.is_none());
    let (again, told) = admin_advance(step.clone(), typed("twelve Chars"));
    assert!(matches!(again, AdminStep::First));
    assert_eq!(told.unwrap(), "Passwords do not match.");
    let (step, told) = admin_advance(step, typed("twelve chars"));
    assert!(told.is_none());
    match &step {
        AdminStep::Saving(h) => assert_eq!(enter_password("twelve chars", h), Ok(())),
        other => panic!("{:?}", other),
    }
    let (step, told) = admin_advance(step, AdminEvent::Saved);
    assert!(matches!(step, AdminStep::Command));
    assert_eq!(told.unwrap(), "Admin password configured successfully!");
}

#[test]
fn accounts_are_listed_with_the_time_of_making() {
    let lines = list_lines(&vec![record("user", "sub", "2026-01-01 00:00:00")]);
    assert_eq!(
        lines,
        vec![
            format!("{:<38} | {:<38} | {:<19}", "Username", "Subdomain", "CreatedAt"),
            "-".repeat(101),
            format!("{:<38} | {:<38} | {:<19}", "user", "sub", "2026-01-01 00:00:00"),
        ]
    );
    assert_eq!(list_lines(&vec![]).len(), 2);
}

#[test]
fn a_deletion_is_reported() {
    assert_eq!(deletion_line("u", true), "Deleted user: u");
    assert_eq!(deletion_line("u", false), "User not found: u");
}

#[test]
fn tokens_are_shown_for_a_user_or_a_subdomain() {
    assert_eq!(txt_target("abc.auth.example.com"), "abc");
    assert_eq!(txt_target("abc"), "abc");
    assert_eq!(txt_subdomain("abc".to_string(), Some(record("abc", "sub", ""))), "sub");
    assert_eq!(txt_subdomain("abc".to_string(), None), "abc");
    assert_eq!(
        txt_lines("sub", &vec!["a".to_string(), "b".to_string()]),
        vec!["TXT records for subdomain: sub", "  [1] a", "  [2] b"]
    );
    assert_eq!(
        txt_lines("sub", &vec![]),
        vec!["TXT records for subdomain: sub", "  (none)"]
    );
}
