use acme_dns_rust::api::{
    auth_middleware, check_register, create_router, credentials, extract_client_ip, finish_register,
    finish_update, health_check, limit_registration, made_account, rate_limiting_middleware,
    register, update, within, Origins, RegisterRequest, Reply, Route, UpdateRequest, BODY_LIMIT,
};
use acme_dns_rust::config::Api;
use acme_dns_rust::db::{DbPool, Record};
use acme_dns_rust::limit::{IpRateLimiter, RegisterLimiter, SECOND};
use acme_dns_rust::net::Ip;

fn api() -> Api {
    Api {
        api_domain: None,
        ip: "127.0.0.1".to_string(),
        disable_registration: false,
        autocert_port: None,
        port: "443".to_string(),
        tls: "none".to_string(),
        tls_cert_privkey: None,
        tls_cert_fullchain: None,
        acme_cache_dir: None,
        notification_email: None,
        corsorigins: vec!["*".to_string()],
        use_header: false,
        header_name: "X-Forwarded-For".to_string(),
        hsts_enabled: false,
        hsts_max_age: None,
        hsts_include_subdomains: false,
        hsts_preload: false,
        trusted_proxies: vec![],
        register_rate_limit_per_min: 0,
        cleanup_orphans: true,
        orphan_timeout_mins: 30,
    }
}

fn behind_proxy() -> Api {
    let mut a = api();
    a.use_header = true;
    a.trusted_proxies = vec!["nonsense".to_string(), "10.0.0.0/8".to_string()];
    a
}

fn v4(a: u8, b: u8, c: u8, d: u8) -> Ip {
    Ip::V4(u32::from_be_bytes([a, b, c, d]))
}

fn header(s: &str) -> Option<String> {
    Some(s.to_string())
}

fn pool() -> DbPool {
    DbPool::Sqlite("sqlite::memory:".to_string())
}

fn record(password: &str, allow_from: &[&str]) -> Record {
    Record {
        username: "user".to_string(),
        password_hash: bcrypt::hash(password, 4).unwrap(),
        subdomain: "sub".to_string(),
        allow_from: allow_from.iter().map(|s| s.to_string()).collect(),
        created_at: String::new(),
        has_updated: false,
    }
}

fn is_status(r: &Reply, status: u16) -> bool {
    matches!(r, Reply::Status(s) if *s == status)
}

fn is_error(r: &Reply, status: u16, message: &str) -> bool {
    matches!(r, Reply::Error(s, m) if *s == status && m == message)
}

#[test]
fn networks_hold_addresses() {
    let nets: Vec<String> = vec!["192.168.1.0/24".to_string(), "2001:db8::/32".to_string()];
    assert!(within(&nets, v4(192, 168, 1, 77)));
    assert!(!within(&nets, v4(192, 168, 2, 77)));
    assert!(within(&nets, Ip::V6(0x2001_0db8 << 96 | 5)));
    assert!(!within(&vec!["nonsense".to_string()], v4(1, 2, 3, 4)));
    assert!(within(&vec!["1.2.3.4".to_string()], v4(1, 2, 3, 4)));
    assert!(!within(&Vec::new(), v4(1, 2, 3, 4)));
}

#[test]
fn the_header_of_a_trusted_proxy_names_the_client() {
    let a = behind_proxy();
    let proxy = Some(v4(10, 1, 2, 3));
    let h = header(" 203.0.113.9 , 10.9.9.9");
    assert_eq!(extract_client_ip(&a, proxy, &h), Some(v4(203, 0, 113, 9)));
    let h = header("2001:db8::1");
    assert_eq!(extract_client_ip(&a, proxy, &h), Some(Ip::V6(0x2001_0db8 << 96 | 1)));
    assert_eq!(extract_client_ip(&a, proxy, &header("unknown")), proxy);
    assert_eq!(extract_client_ip(&a, proxy, &header("")), proxy);
    assert_eq!(extract_client_ip(&a, proxy, &None), proxy);
}

#[test]
fn the_header_of_others_is_ignored() {
    let h = header("203.0.113.9");
    let other = Some(v4(11, 1, 2, 3));
    assert_eq!(extract_client_ip(&behind_proxy(), other, &h), other);
    assert_eq!(extract_client_ip(&behind_proxy(), None, &h), None);
    let mut off = behind_proxy();
    off.use_header = false;
    let proxy = Some(v4(10, 1, 2, 3));
    assert_eq!(extract_client_ip(&off, proxy, &h), proxy);
    assert_eq!(extract_client_ip(&api(), proxy, &h), proxy);
}

#[test]
fn too_many_requests_are_refused() {
    let mut limiter = IpRateLimiter::new();
    let a = behind_proxy();
    let proxy = Some(v4(10, 0, 0, 1));
    let client = header("203.0.113.9");
    for _ in 0..5 {
        assert!(rate_limiting_middleware(&mut limiter, &a, proxy, &client, 0).is_none());
    }
    let r = rate_limiting_middleware(&mut limiter, &a, proxy, &client, 0).unwrap();
    assert!(is_status(&r, 429));
    assert_eq!(r.status(), 429);
    let other = header("203.0.113.10");
    assert!(rate_limiting_middleware(&mut limiter, &a, proxy, &other, 0).is_none());
    assert!(rate_limiting_middleware(&mut limiter, &a, proxy, &client, 2 * SECOND).is_none());
}

#[test]
fn requests_from_nowhere_share_one_bucket() {
    let mut limiter = IpRateLimiter::new();
    let a = api();
    for _ in 0..5 {
        assert!(rate_limiting_middleware(&mut limiter, &a, None, &None, 0).is_none());
    }
    assert!(rate_limiting_middleware(&mut limiter, &a, None, &None, 0).is_some());
    let zeros = Some(v4(0, 0, 0, 0));
    assert!(rate_limiting_middleware(&mut limiter, &a, zeros, &None, 0).is_some());
}

#[test]
fn registrations_too_soon_are_refused() {
    let mut limiter = RegisterLimiter::new();
    let mut a = api();
    let ip = Some(v4(203, 0, 113, 9));
    assert!(limit_registration(&mut limiter, &a, ip, &None, 0).is_none());
    assert!(limit_registration(&mut limiter, &a, ip, &None, 0).is_none());
    a.register_rate_limit_per_min = 2;
    assert!(limit_registration(&mut limiter, &a, ip, &None, 0).is_none());
    let r = limit_registration(&mut limiter, &a, ip, &None, 30 * SECOND - 1).unwrap();
    assert!(is_status(&r, 429));
    assert!(limit_registration(&mut limiter, &a, ip, &None, 30 * SECOND).is_none());
}

#[test]
fn the_configuration_makes_the_routes() {
    let r = create_router(&api());
    assert_eq!(r.routes, vec![Route::Health, Route::Metrics, Route::Register, Route::Update]);
    let paths: Vec<&str> = r.routes.iter().map(|r| r.path()).collect();
    assert_eq!(paths, vec!["/health", "/metrics", "/register", "/update"]);
    let posts: Vec<bool> = r.routes.iter().map(|r| r.is_post()).collect();
    assert_eq!(posts, vec![false, false, true, true]);
    let protected: Vec<bool> = r.routes.iter().map(|r| r.is_protected()).collect();
    assert_eq!(protected, vec![false, false, false, true]);
    let mut closed = api();
    closed.disable_registration = true;
    assert_eq!(
        create_router(&closed).routes,
        vec![Route::Health, Route::Metrics, Route::Update]
    );
}

#[test]
fn origins_are_those_configured() {
    assert!(matches!(create_router(&api()).origins, Origins::Any));
    let mut a = api();
    a.corsorigins = vec!["https://a.example".to_string(), "https://b.example".to_string()];
    assert!(matches!(create_router(&a).origins, Origins::Listed(v) if v == a.corsorigins));
    a.corsorigins.push("*".to_string());
    assert!(matches!(create_router(&a).origins, Origins::Any));
    a.corsorigins.clear();
    assert!(matches!(create_router(&a).origins, Origins::Listed(v) if v.is_empty()));
}

#[test]
fn clients_are_told_to_use_https_if_that_is_configured() {
    assert_eq!(create_router(&api()).hsts, None);
    let mut a = api();
    a.hsts_enabled = true;
    assert_eq!(create_router(&a).hsts, Some("max-age=31536000".to_string()));
    a.hsts_max_age = Some(60);
    a.hsts_preload = true;
    assert_eq!(create_router(&a).hsts, Some("max-age=60; preload".to_string()));
    a.hsts_include_subdomains = true;
    assert_eq!(
        create_router(&a).hsts,
        Some("max-age=60; includeSubDomains; preload".to_string())
    );
}

#[test]
fn a_healthy_server_says_so() {
    assert!(is_status(&health_check(), 200));
    assert_eq!(BODY_LIMIT, 1024);
}

#[test]
fn an_account_is_made_as_asked() {
    let nets = vec!["192.168.1.0/24".to_string(), "::1".to_string()];
    let q = RegisterRequest { allowfrom: Some(nets.clone()) };
    let p = register(&pool(), Some(q)).unwrap();
    assert_eq!(p.allow_from, nets);
    let (user, sub) = (p.account.username.clone(), p.account.subdomain.clone());
    let reply = finish_register("auth.example.com", p, None);
    assert_eq!(reply.status(), 201);
    match reply {
        Reply::Registered { username, password, fulldomain, subdomain, allowfrom } => {
            assert_eq!(username, user);
            assert_eq!(password.len(), 40);
            assert_eq!(fulldomain, format!("{}.auth.example.com", sub));
            assert_eq!(subdomain, sub);
            assert_eq!(allowfrom, nets);
        }
        other => panic!("{:?}", other),
    }
    let p = register(&pool(), Some(RegisterRequest { allowfrom: None })).unwrap();
    assert!(p.allow_from.is_empty());
    let reply = finish_register("auth.example.com", p, Some("disk full".to_string()));
    assert!(is_error(&reply, 500, "disk full"));
}

#[test]
fn a_malformed_request_for_an_account_is_refused() {
    assert!(is_status(&register(&pool(), None).unwrap_err(), 400));
    let q = RegisterRequest {
        allowfrom: Some(vec!["10.0.0.0/8".to_string(), "10.0.0.0/33".to_string()]),
    };
    assert!(is_error(&register(&pool(), Some(q)).unwrap_err(), 400, "invalid_allowfrom_cidr"));
    assert!(is_status(&check_register(None).unwrap_err(), 400));
    let q = RegisterRequest { allowfrom: None };
    assert_eq!(check_register(Some(q)).unwrap(), Vec::<String>::new());
    let failed = made_account(Err("no randomness".to_string()), vec![]);
    assert!(is_error(&failed.unwrap_err(), 500, "no randomness"));
}

#[test]
fn both_credentials_are_needed() {
    assert_eq!(
        credentials(header("u"), header("k")).unwrap(),
        ("u".to_string(), "k".to_string())
    );
    for (u, k) in [(None, header("k")), (header("u"), None), (None, None)] {
        assert!(is_status(&credentials(u, k).unwrap_err(), 401));
    }
}

#[test]
fn the_right_password_lets_in_from_anywhere_without_networks() {
    let rec = record("right", &[]);
    let r = auth_middleware(&api(), None, &None, "right", Some(rec.clone())).unwrap();
    assert_eq!(r.username, "user");
    let r = auth_middleware(&api(), None, &None, "wrong", Some(rec)).unwrap_err();
    assert!(is_status(&r, 401));
    assert!(is_status(&auth_middleware(&api(), None, &None, "right", None).unwrap_err(), 401));
}

#[test]
fn networks_are_closed_to_unknown_addresses() {
    let rec = record("right", &["192.168.1.0/24", "nonsense"]);
    let a = behind_proxy();
    let enter = |connected: Option<Ip>, h: Option<String>| {
        auth_middleware(&a, connected, &h, "right", Some(rec.clone())).is_ok()
    };
    assert!(enter(Some(v4(192, 168, 1, 5)), None));
    assert!(!enter(Some(v4(192, 168, 2, 5)), None));
    assert!(!enter(None, None));
    assert!(!enter(None, header("192.168.1.5")));
    assert!(!enter(Some(v4(11, 0, 0, 1)), header("192.168.1.5")));
    assert!(enter(Some(v4(10, 0, 0, 1)), header("192.168.1.5")));
    let broken = record("right", &["nonsense"]);
    let ip = Some(v4(192, 168, 1, 5));
    assert!(auth_middleware(&a, ip, &None, "right", Some(broken)).is_err());
}

#[test]
fn an_account_lets_its_generated_password_in() {
    let p = register(&pool(), Some(RegisterRequest { allowfrom: None })).unwrap();
    let rec = Record {
        username: p.account.username.clone(),
        password_hash: match &p.account.insert.binds[1] {
            acme_dns_rust::db::Bind::Text(h) => h.clone(),
            _ => panic!("no hash"),
        },
        subdomain: p.account.subdomain.clone(),
        allow_from: p.allow_from.clone(),
        created_at: String::new(),
        has_updated: false,
    };
    assert!(auth_middleware(&api(), None, &None, &p.account.password, Some(rec)).is_ok());
}

#[test]
fn only_tokens_for_the_own_subdomain_are_written() {
    let rec = record("right", &[]);
    let ask = |subdomain: &str, txt: &str| {
        update(
            Some(rec.clone()),
            Some(UpdateRequest { subdomain: subdomain.to_string(), txt: txt.to_string() }),
        )
    };
    let token = "A".repeat(43);
    let q = ask("sub", &token).unwrap();
    assert_eq!((q.subdomain.as_str(), q.txt.as_str()), ("sub", token.as_str()));
    assert!(is_error(&ask("other", &token).unwrap_err(), 400, "subdomain_mismatch"));
    assert!(is_error(&ask("other", "bad").unwrap_err(), 400, "subdomain_mismatch"));
    assert!(is_error(&ask("sub", "").unwrap_err(), 400, "invalid_txt_value"));
    assert!(is_error(&ask("sub", &"!".repeat(43)).unwrap_err(), 400, "invalid_txt_value"));
    assert!(is_status(&update(None, None).unwrap_err(), 401));
    assert!(is_status(&update(Some(rec.clone()), None).unwrap_err(), 400));
}

#[test]
fn a_written_token_is_replied() {
    let r = finish_update("token".to_string(), true);
    assert_eq!(r.status(), 200);
    assert!(matches!(r, Reply::Updated { txt } if txt == "token"));
    assert!(is_error(&finish_update("token".to_string(), false), 500, "db_error"));
}
