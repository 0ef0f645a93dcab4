use acme_dns_rust::client::{
    account_from, account_line, advance, allow_list, caa_lines, check_cname, check_cname_authoritative,
    clean_domain, cname_line, cname_query, default_storage, find_base_zone_ns, get_resolver,
    hook_registered, hook_wait, is_hook, public_acme_dns, register_url, start_hook, start_register,
    update_url, wants_caa, wants_monitoring, Account, Event, Hook, RegisterResponse, Registering, Resolver,
    Step, Storage, STORAGE_MODE,
};
use acme_dns_rust::net::Ip;

const OWN: &str = "https://auth.example.org";

fn account(name: &str) -> Account {
    account_from(
        RegisterResponse {
            username: format!("{}-user", name),
            password: format!("{}-password", name),
            fulldomain: format!("{}.auth.example.org", name),
            subdomain: name.to_string(),
        },
        vec!["10.0.0.0/8".to_string()],
        "https://auth.example.org",
    )
}

fn storage(domains: &[&str]) -> Storage {
    let mut s = Storage::new();
    for d in domains {
        s.insert(d.to_string(), account(d));
    }
    s
}

#[test]
fn accounts_are_kept_by_domain() {
    let mut s = storage(&["a.example", "b.example"]);
    assert_eq!(s.get("a.example").unwrap().subdomain, "a.example");
    assert!(s.get("c.example").is_none());
    s.insert("a.example".to_string(), account("new"));
    assert_eq!(s.get("a.example").unwrap().subdomain, "new");
    assert_eq!(s.get("b.example").unwrap().subdomain, "b.example");
    assert_eq!(s.entries.len(), 2);
    assert!(s.remove("a.example"));
    assert!(!s.remove("a.example"));
    assert!(s.get("a.example").is_none());
    assert!(s.get("b.example").is_some());
}

#[test]
fn a_wildcard_shares_the_account() {
    assert_eq!(clean_domain("*.example.com"), "example.com");
    assert_eq!(clean_domain("example.com"), "example.com");
    assert_eq!(clean_domain("*.*.example.com"), "example.com");
}

#[test]
fn a_name_server_has_a_port() {
    assert_eq!(get_resolver("8.8.8.8"), "8.8.8.8:53");
    assert_eq!(get_resolver("8.8.8.8:5353"), "8.8.8.8:5353");
    assert_eq!(get_resolver("2001:db8::1"), "[2001:db8::1]:53");
    assert_eq!(get_resolver("[2001:db8::1]:5353"), "[2001:db8::1]:5353");
    assert_eq!(get_resolver("::"), "[::]:53");
    assert_eq!(get_resolver("[2001:db8::1]"), "[2001:db8::1]:53");
}

#[test]
fn the_zone_is_sought_from_the_domain_upwards() {
    let mut search = find_base_zone_ns("bola.circo.uk.");
    assert_eq!(search.next().unwrap(), "bola.circo.uk.");
    search.reply(vec![]);
    assert_eq!(search.next().unwrap(), "circo.uk.");
    search.reply(vec![Ip::V4(1)]);
    assert!(search.next().is_none());
    assert_eq!(search.servers, vec![Ip::V4(1)]);
    assert!(find_base_zone_ns("uk").next().is_none());
    assert!(find_base_zone_ns("").next().is_none());
    let mut search = find_base_zone_ns("a.b");
    search.reply(vec![]);
    assert!(search.next().is_none());
    assert!(search.servers.is_empty());
}

#[test]
fn an_alias_leads_to_its_target() {
    let target = "8e5700ea-a4bf.auth.example.org";
    let check = |alias: &str| check_cname(&vec!["x.y.".to_string(), alias.to_string()], target);
    assert!(check("8e5700ea-a4bf.auth.example.org."));
    assert!(check("8E5700EA-A4BF.auth.example.org"));
    assert!(check("prefix.8e5700ea-a4bf.elsewhere."));
    assert!(!check("auth.example.org."));
    assert!(!check_cname(&vec![], target));
    assert_eq!(cname_query("example.com"), "_acme-challenge.example.com.");
}

#[test]
fn the_record_that_is_asked_for_passes_the_check() {
    let line = cname_line("example.com", "sub.auth.example.org");
    assert_eq!(line, "_acme-challenge.example.com. IN CNAME sub.auth.example.org.");
    let alias = line.rsplit(' ').next().unwrap().to_string();
    assert!(check_cname(&vec![alias], "sub.auth.example.org"));
}

#[test]
fn name_servers_of_the_zone_are_asked_first() {
    let mut i = check_cname_authoritative(
        &vec![Ip::V4(1), Ip::V6(2)],
        Some("192.0.2.1:53".to_string()),
    );
    assert!(matches!(i.next(), Some(Resolver::Authoritative(Ip::V4(1)))));
    i.reply(false);
    assert!(matches!(i.next(), Some(Resolver::Authoritative(Ip::V6(2)))));
    i.reply(false);
    assert!(matches!(i.next(), Some(Resolver::Custom(a)) if a == "192.0.2.1:53"));
    i.reply(false);
    assert!(matches!(i.next(), Some(Resolver::Public)));
    i.reply(false);
    assert!(i.next().is_none() && !i.found);
    let mut i = check_cname_authoritative(&vec![], None);
    assert!(matches!(i.next(), Some(Resolver::Public)));
    i.reply(true);
    assert!(i.next().is_none() && i.found);
}

#[test]
fn networks_are_separated_by_commas() {
    assert_eq!(allow_list(&None), Vec::<String>::new());
    assert_eq!(allow_list(&Some(" 10.0.0.0/8, ::1".to_string())), vec!["10.0.0.0/8", "::1"]);
}

#[test]
fn an_account_is_asked_for_once_and_not_carelessly() {
    let s = storage(&["example.com"]);
    let own = OWN;
    assert!(matches!(start_register(&s, "*.example.com", own, false), Registering::Known));
    assert!(matches!(start_register(&s, "other.com", own, false), Registering::Ask));
    let public = public_acme_dns();
    assert!(matches!(start_register(&s, "other.com", public, false), Registering::Unconfirmed));
    assert!(matches!(start_register(&s, "other.com", public, true), Registering::Ask));
}

#[test]
fn the_hook_writes_the_challenge_of_a_known_domain() {
    let s = storage(&["example.com"]);
    match start_hook(&s, "*.example.com", "token", false, OWN, false) {
        Hook::Update { domain, account, txt } => {
            assert_eq!(domain, "example.com");
            assert_eq!(account.username, "example.com-user");
            assert_eq!(account.allow, vec!["10.0.0.0/8"]);
            assert_eq!(txt, "token");
        }
        other => panic!("{:?}", other),
    }
    match start_hook(&s, "example.com", "token", true, public_acme_dns(), false) {
        Hook::Update { txt, .. } => assert_eq!(txt, ""),
        other => panic!("{:?}", other),
    }
    assert_eq!(hook_wait(false), 10);
    assert_eq!(hook_wait(true), 0);
}

#[test]
fn the_hook_asks_for_a_missing_account() {
    let mut s = storage(&[]);
    match start_hook(&s, "*.example.com", "token", false, OWN, false) {
        Hook::Register { domain } => {
            assert_eq!(domain, "example.com");
            match hook_registered(&mut s, domain, account("sub"), "token") {
                Hook::Update { domain, account, txt } => {
                    assert_eq!(domain, "example.com");
                    assert_eq!(account.subdomain, "sub");
                    assert_eq!(txt, "token");
                }
                other => panic!("{:?}", other),
            }
        }
        other => panic!("{:?}", other),
    }
    assert_eq!(s.get("example.com").unwrap().subdomain, "sub");
}

#[test]
fn the_hook_does_not_ask_for_an_account_when_the_validation_is_over() {
    let s = storage(&[]);
    let m = "Error: No acme-dns account registered for domain 'example.com' in storage.";
    assert!(matches!(start_hook(&s, "example.com", "t", true, OWN, true), Hook::Fail(t) if t == m));
}

#[test]
fn the_hook_does_not_ask_the_public_server_carelessly() {
    let s = storage(&[]);
    let public = public_acme_dns();
    let m = "Error: No acme-dns account registered for domain 'example.com' in storage.";
    let refused = start_hook(&s, "*.example.com", "t", false, public, false);
    assert!(matches!(refused, Hook::Fail(t) if t == m));
    let confirmed = start_hook(&s, "*.example.com", "t", false, public, true);
    assert!(matches!(confirmed, Hook::Register { domain } if domain == "example.com"));
    let known = storage(&["example.com"]);
    let update = start_hook(&known, "example.com", "t", false, public, false);
    assert!(matches!(update, Hook::Update { txt, .. } if txt == "t"));
}

#[test]
fn a_hook_has_a_domain_and_a_challenge() {
    assert!(is_hook("example.com", "token"));
    assert!(!is_hook("example.com", ""));
    assert!(!is_hook("", "token"));
}

#[test]
fn what_the_user_answers_is_understood() {
    assert!(wants_monitoring("\n"));
    assert!(wants_monitoring("yes\n"));
    assert!(!wants_monitoring(" N \n"));
    assert!(wants_caa("Y\n"));
    assert!(!wants_caa("\n"));
    assert!(!wants_caa("yes\n"));
}

#[test]
fn what_the_user_is_told_is_written() {
    assert_eq!(
        account_line("example.com", true, "sub.auth.example.org"),
        format!("- {:<30} [Status: {}] Target: {}", "example.com", "OK", "sub.auth.example.org")
    );
    assert_eq!(
        account_line("example.com", false, "t"),
        format!("- {:<30} [Status: {}] Target: {}", "example.com", "CNAME_MISMATCH", "t")
    );
    assert_eq!(
        caa_lines("example.com"),
        vec![
            "example.com.         IN    CAA    0 issue \"letsencrypt.org; validationmethods=dns-01\"",
            "example.com.         IN    CAA    0 issuewild \"letsencrypt.org; validationmethods=dns-01\"",
        ]
    );
    assert_eq!(update_url("https://a"), "https://a/update");
    assert_eq!(register_url("https://a"), "https://a/register");
    assert_eq!(default_storage(), "/etc/acmedns/clientstorage.json");
    assert_eq!(STORAGE_MODE, 0o600);
}

#[test]
fn setting_up_a_domain_goes_from_step_to_step() {
    let answered = |s: &str| Event::Answered(s.to_string());
    let go = |step: Step, event: Event, watchable: bool| {
        advance(step, &event, watchable, "example.com")
    };
    let (step, lines) = go(Step::FirstCheck, Event::Looked(false), true);
    assert_eq!((step, lines.len()), (Step::AskMonitoring, 0));
    let (step, lines) = go(step, answered("\n"), true);
    assert_eq!(step, Step::WatchAlias);
    assert_eq!(lines, vec!["\nWaiting for CNAME record propagation..."]);
    let (step, lines) = go(step, Event::Looked(false), true);
    assert_eq!((step, lines.len()), (Step::WatchAlias, 0));
    let (step, lines) = go(step, Event::Looked(true), true);
    assert_eq!(step, Step::AskCaa);
    assert_eq!(lines, vec!["\nCNAME propagation verified successfully!"]);
    let (step, lines) = go(step, answered("y\n"), true);
    assert_eq!(step, Step::WatchCaa);
    assert_eq!(lines.len(), 4);
    assert_eq!(lines[1..3].to_vec(), caa_lines("example.com"));
    let (step, lines) = go(step, Event::Looked(true), true);
    assert_eq!(step, Step::Done);
    assert_eq!(lines, vec!["\nCAA record detected successfully!"]);

    let (step, lines) = go(Step::FirstCheck, Event::Looked(true), true);
    assert_eq!((step, lines.len()), (Step::AskCaa, 1));
    let (step, lines) = go(Step::AskMonitoring, answered("n\n"), true);
    assert_eq!(step, Step::AskCaa);
    assert!(lines[0].ends_with("acme-dns-client-rust check -d example.com"));
    let (step, lines) = go(Step::AskCaa, answered("y"), false);
    assert_eq!((step, lines.len()), (Step::Done, 3));
    let (step, lines) = go(Step::AskCaa, answered(""), true);
    assert_eq!(step, Step::Done);
    assert_eq!(lines, vec!["Skipping CAA record setup."]);
    let (step, lines) = go(Step::AskCaa, Event::Looked(true), true);
    assert_eq!((step, lines.len()), (Step::AskCaa, 0));
}
