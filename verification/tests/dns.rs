use acme_dns_rust::config::General;
use acme_dns_rust::db::{DbPool, TxtRow};
use acme_dns_rust::dns::{
    with_root, AcmeDnsHandler, Lookup, RecordData, RecordGroup, RecordKind, TxtAnswer, STATIC_TTL,
};
use acme_dns_rust::limit::SECOND;
use hickory_server::proto::rr::rdata::{A, CNAME, SOA};
use hickory_server::proto::rr::{Name, RData, Record, RecordSet, RrKey};
use hickory_server::store::in_memory::InMemoryZoneHandler;
use hickory_server::zone_handler::{AxfrPolicy, ZoneType};
use std::collections::BTreeMap;
use std::str::FromStr;

fn general(domain: &str, records: &[&str]) -> General {
    General {
        listen: "0.0.0.0:53".to_string(),
        proto: "udp".to_string(),
        domain: domain.to_string(),
        nsname: "ns1.example.com".to_string(),
        nsadmin: "admin.example.com".to_string(),
        debug: false,
        static_records: records.iter().map(|s| s.to_string()).collect(),
    }
}

fn handler(domain: &str) -> AcmeDnsHandler {
    AcmeDnsHandler::with_serial(&general(domain, &[]), 7).unwrap()
}

fn group<'a>(h: &'a AcmeDnsHandler, owner: &str, kind: RecordKind) -> &'a RecordGroup {
    let found: Vec<&RecordGroup> =
        h.zone.iter().filter(|g| g.owner == owner && g.kind == kind).collect();
    assert_eq!(found.len(), 1, "{} {:?}", owner, kind);
    found[0]
}

#[test]
fn static_records_are_grouped_by_name_and_type() {
    let g = general(
        "auth.example.com",
        &[
            "@ A 192.0.2.1",
            "@ A 192.0.2.1",
            "auth.example.com. A 192.0.2.2",
            "AUTH.example.com. 300 A 192.0.2.3",
            "www CNAME target.example.org.",
            "six AAAA 2001:db8::1",
            "sub NS ns9.example.net.",
        ],
    );
    let h = AcmeDnsHandler::with_serial(&g, 2026010100).unwrap();
    assert_eq!(h.origin, "auth.example.com.");
    assert_eq!(h.own_domain, "auth.example.com.");
    let a = group(&h, "auth.example.com.", RecordKind::A);
    assert_eq!(a.ttl, STATIC_TTL);
    let bits: Vec<u32> = a
        .records
        .iter()
        .map(|r| match &r.data {
            RecordData::A(b) => *b,
            _ => panic!("no address"),
        })
        .collect();
    assert_eq!(bits, vec![0xC000_0201, 0xC000_0202, 0xC000_0203]);
    let c = group(&h, "www.auth.example.com.", RecordKind::Cname);
    assert!(matches!(&c.records[0].data, RecordData::Cname(n) if n == "target.example.org."));
    let s = group(&h, "six.auth.example.com.", RecordKind::Aaaa);
    assert!(matches!(&s.records[0].data, RecordData::Aaaa(b) if *b == 0x2001_0db8 << 96 | 1));
    let n = group(&h, "sub.auth.example.com.", RecordKind::Ns);
    assert!(matches!(&n.records[0].data, RecordData::Ns(n) if n == "ns9.example.net."));
    let own = group(&h, "auth.example.com.", RecordKind::Ns);
    assert!(matches!(&own.records[0].data, RecordData::Ns(n) if n == "ns1.example.com."));
}

#[test]
fn a_record_is_not_added_twice_and_an_alias_replaces_the_last() {
    let g = general(
        "example.com",
        &[
            "@ NS NS1.Example.Com.",
            "@ NS ns2.example.com.",
            "@ NS ns2.EXAMPLE.com.",
            "www CNAME a.example.org.",
            "www CNAME b.example.org.",
        ],
    );
    let h = AcmeDnsHandler::with_serial(&g, 1).unwrap();
    let ns = group(&h, "example.com.", RecordKind::Ns);
    assert_eq!(ns.records.len(), 2);
    assert!(matches!(&ns.records[0].data, RecordData::Ns(n) if n == "NS1.Example.Com."));
    assert!(matches!(&ns.records[1].data, RecordData::Ns(n) if n == "ns2.example.com."));
    let alias = group(&h, "www.example.com.", RecordKind::Cname);
    assert_eq!(alias.records.len(), 1);
    assert!(matches!(&alias.records[0].data, RecordData::Cname(n) if n == "b.example.org."));
}

#[test]
fn kept_tokens_are_answered_for_two_seconds() {
    let row = TxtRow { id: 1, last_update: "1".to_string(), value: "a".to_string() };
    let fetched = AcmeDnsHandler::get_txt_cached(Some(vec![row]));
    let entry = fetched.remember(5 * SECOND).unwrap();
    assert_eq!(entry.recall(5 * SECOND), Some(vec!["a".to_string()]));
    assert_eq!(entry.recall(7 * SECOND - 1), Some(vec!["a".to_string()]));
    assert_eq!(entry.recall(7 * SECOND), None);
    assert!(AcmeDnsHandler::get_txt_cached(Some(vec![])).remember(0).is_none());
    assert!(AcmeDnsHandler::get_txt_cached(None).remember(0).is_none());
}

#[test]
fn lines_that_are_no_records_are_passed_over() {
    let g = general(
        "example.com",
        &[
            "",
            "@ A",
            "@ A nonsense",
            "@ AAAA 192.0.2.1",
            "@ A 2001:db8::1",
            "@ TXT text",
            "@ a 192.0.2.1",
            "@ 300 A",
            "bad..name A 192.0.2.1",
            "@ A 192.0.2.1 and more",
            "@ SOA a. b. 1 2 3 4 5",
        ],
    );
    let h = AcmeDnsHandler::with_serial(&g, 1).unwrap();
    assert_eq!(h.zone.len(), 2);
}

#[test]
fn the_authority_carries_the_serial_number() {
    let h = AcmeDnsHandler::with_serial(&general("example.com", &[]), 2026010112).unwrap();
    let soa = group(&h, "example.com.", RecordKind::Soa);
    assert_eq!(soa.ttl, 2026010112);
    assert_eq!(soa.records.len(), 1);
    match &soa.records[0].data {
        RecordData::Soa { mname, rname, serial, refresh, retry, expire, minimum } => {
            assert_eq!(mname, "ns1.example.com.");
            assert_eq!(rname, "admin.example.com.");
            assert_eq!((*serial, *refresh, *retry), (2026010112, 86400, 7200));
            assert_eq!((*expire, *minimum), (3600000, 1));
        }
        _ => panic!("no authority"),
    }
}

#[test]
fn without_a_name_server_the_zone_names_itself() {
    let mut g = general("example.com.", &[]);
    g.nsname = String::new();
    g.nsadmin = "bad..name".to_string();
    let h = AcmeDnsHandler::with_serial(&g, 1).unwrap();
    assert_eq!(h.zone.len(), 1);
    match &h.zone[0].records[0].data {
        RecordData::Soa { mname, rname, .. } => {
            assert_eq!(mname, "example.com.");
            assert_eq!(rname, "example.com.");
        }
        _ => panic!("no authority"),
    }
}

#[test]
fn a_domain_that_is_no_name_is_refused() {
    let m = AcmeDnsHandler::with_serial(&general("bad..name", &[]), 1).unwrap_err();
    assert!(m.starts_with("Invalid domain 'bad..name.': "), "{}", m);
    assert!(m.len() > "Invalid domain 'bad..name.': ".len());
    assert!(AcmeDnsHandler::new(&general("bad..name", &[])).is_err());
}

#[test]
fn the_serial_number_of_a_new_zone_is_the_present_hour() {
    let h = AcmeDnsHandler::new(&general("example.com", &[])).unwrap();
    let soa = group(&h, "example.com.", RecordKind::Soa);
    assert!(soa.ttl > 2024010100, "{}", soa.ttl);
}

#[test]
fn a_question_is_about_a_subdomain() {
    let h = handler("auth.example.com");
    for q in [
        "8e5700ea-a4bf-41c7-8a77-e990661dcc6a.auth.example.com.",
        "8E5700EA-A4BF-41C7-8A77-E990661DCC6A.Auth.Example.com.",
        "_acme-challenge.8e5700ea-a4bf-41c7-8a77-e990661dcc6a.auth.example.com.",
    ] {
        assert_eq!(h.sanitize_domain_question(q), "8e5700ea-a4bf-41c7-8a77-e990661dcc6a");
    }
    assert_eq!(h.sanitize_domain_question("_acme-challenge.ABC.Auth.Example.COM."), "abc");
    assert_eq!(h.sanitize_domain_question("auth.example.com."), "");
    assert_eq!(h.sanitize_domain_question("_ACME-Challenge.Other.ORG."), "other.org");
    assert_eq!(h.sanitize_domain_question("other.org."), "other.org");
    assert_eq!(h.sanitize_domain_question("_acme-challenge.example.com."), "example.com");
}

#[test]
fn questions_outside_the_zone_are_refused() {
    let h = handler("auth.example.com");
    assert!(matches!(h.lookup("www.example.org.", true), Lookup::Refused));
    assert!(matches!(h.lookup(".", false), Lookup::Refused));
    assert!(matches!(h.lookup("www.auth.example.com.", false), Lookup::Static));
    assert!(matches!(h.lookup("www.example.com.", false), Lookup::Static));
    assert!(matches!(h.lookup("a.AUTH.example.com.", true), Lookup::Txt(s) if s == "a"));
    let h = handler("example.com");
    assert!(matches!(h.lookup("example.com.", false), Lookup::Static));
    assert!(matches!(h.lookup("com.", false), Lookup::Refused));
}

#[test]
fn tokens_are_answered_and_kept_only_if_there_are_some() {
    let rows = vec![
        TxtRow { id: 1, last_update: "1".to_string(), value: "old".to_string() },
        TxtRow { id: 2, last_update: "2".to_string(), value: "new".to_string() },
    ];
    let f = AcmeDnsHandler::get_txt_cached(Some(rows));
    assert_eq!(f.values, vec!["new", "old"]);
    assert!(f.store);
    let f = AcmeDnsHandler::get_txt_cached(Some(vec![]));
    assert!(f.values.is_empty() && !f.store);
    let f = AcmeDnsHandler::get_txt_cached(None);
    assert!(f.values.is_empty() && !f.store);
}

#[test]
fn an_answer_holds_the_tokens_or_says_that_there_are_none() {
    let values = vec!["a".to_string(), String::new(), "b".to_string()];
    assert!(
        matches!(AcmeDnsHandler::txt_answer(values, false), TxtAnswer::Records(v) if v == ["a", "b"])
    );
    assert!(matches!(AcmeDnsHandler::txt_answer(vec![], true), TxtAnswer::Empty));
    assert!(matches!(AcmeDnsHandler::txt_answer(vec![], false), TxtAnswer::Static));
}

#[test]
fn a_written_challenge_comes_first_in_the_answer() {
    let h = handler("auth.example.com");
    let account = DbPool::Sqlite(String::new()).register(&Vec::new()).unwrap();
    let name = format!("_acme-challenge.{}.auth.example.com.", account.subdomain);
    match h.lookup(&name, true) {
        Lookup::Txt(sub) => assert_eq!(sub, account.subdomain),
        other => panic!("{:?}", other),
    }
    let token = "B".repeat(43);
    let mut rows: Vec<TxtRow> = (0..4)
        .map(|i| TxtRow {
            id: i,
            last_update: format!("2026-01-01 00:00:0{}", i),
            value: "A".repeat(43),
        })
        .collect();
    rows.insert(
        1,
        TxtRow { id: 9, last_update: "2026-01-01 00:00:03".to_string(), value: token.clone() },
    );
    let fetched = AcmeDnsHandler::get_txt_cached(Some(rows));
    match AcmeDnsHandler::txt_answer(fetched.values, true) {
        TxtAnswer::Records(v) => assert_eq!(v, vec![token, "A".repeat(43)]),
        other => panic!("{:?}", other),
    }
}

#[test]
fn a_name_is_written_with_a_dot_at_its_end() {
    assert_eq!(with_root("a.b"), "a.b.");
    assert_eq!(with_root("a.b."), "a.b.");
    assert_eq!(with_root(""), ".");
}

/// What the DNS server's own store says to the given records and an authority.
fn store(domain: &str, records: &[(&str, RData)]) -> Result<(), String> {
    let origin = Name::from_str(domain).unwrap();
    let soa = SOA::new(origin.clone(), origin.clone(), 7, 86400, 7200, 3600000, 1);
    let mut all: Vec<(Name, RData)> =
        records.iter().map(|(n, d)| (Name::from_str(n).unwrap(), d.clone())).collect();
    all.push((origin.clone(), RData::SOA(soa)));
    let mut sets: BTreeMap<RrKey, RecordSet> = BTreeMap::new();
    for (name, data) in all {
        let kind = data.record_type();
        sets.entry(RrKey::new(name.clone().into(), kind))
            .or_insert_with(|| RecordSet::new(name.clone(), kind, STATIC_TTL))
            .insert(Record::from_rdata(name, STATIC_TTL, data), STATIC_TTL);
    }
    let made: Result<InMemoryZoneHandler, String> =
        InMemoryZoneHandler::new(origin, sets, ZoneType::Primary, AxfrPolicy::Deny);
    made.map(|_| ())
}

fn refusal(lines: &[&str], nsname: &str) -> String {
    let mut g = general("example.com", lines);
    g.nsname = nsname.to_string();
    AcmeDnsHandler::with_serial(&g, 7).unwrap_err()
}

fn alias(target: &str) -> RData {
    RData::CNAME(CNAME(Name::from_str(target).unwrap()))
}

#[test]
fn an_alias_beside_an_address_is_refused() {
    let told = refusal(&["www CNAME a.", "www A 192.0.2.1"], "");
    assert_eq!(
        told,
        "Failed to initialize static zone records: Failed to insert www.example.com. CNAME to \
         zone: example.com."
    );
    let same = store(
        "example.com.",
        &[
            ("www.example.com.", alias("a.")),
            ("www.example.com.", RData::A(A::new(192, 0, 2, 1))),
        ],
    );
    assert_eq!(told, format!("Failed to initialize static zone records: {}", same.unwrap_err()));
}

#[test]
fn an_alias_of_the_zone_itself_is_refused() {
    assert_eq!(
        refusal(&["@ CNAME x."], "ns1.example.com"),
        "Failed to initialize static zone records: Failed to insert example.com. CNAME to zone: \
         example.com."
    );
    let told = refusal(&["@ CNAME x."], "");
    assert_eq!(
        told,
        "Failed to initialize static zone records: Failed to insert example.com. SOA to zone: \
         example.com."
    );
    let same = store("example.com.", &[("example.com.", alias("x."))]);
    assert_eq!(told, format!("Failed to initialize static zone records: {}", same.unwrap_err()));
}

#[test]
fn an_address_of_version_6_is_refused_beside_an_alias() {
    let told = refusal(&["six AAAA 2001:db8::1", "six CNAME x."], "");
    assert_eq!(
        told,
        "Failed to initialize static zone records: Failed to insert six.example.com. AAAA to \
         zone: example.com."
    );
}

#[test]
fn the_first_name_in_canonical_order_is_refused() {
    let told = refusal(
        &[
            "a.z CNAME x.",
            "a.z A 192.0.2.1",
            "b CNAME x.",
            "b A 192.0.2.1",
            "c CNAME x.",
            "c A 192.0.2.1",
        ],
        "",
    );
    assert_eq!(
        told,
        "Failed to initialize static zone records: Failed to insert b.example.com. CNAME to zone: \
         example.com."
    );
    let address = RData::A(A::new(192, 0, 2, 1));
    let same = store(
        "example.com.",
        &[
            ("a.z.example.com.", alias("x.")),
            ("a.z.example.com.", address.clone()),
            ("b.example.com.", alias("x.")),
            ("b.example.com.", address.clone()),
            ("c.example.com.", alias("x.")),
            ("c.example.com.", address),
        ],
    );
    assert_eq!(told, format!("Failed to initialize static zone records: {}", same.unwrap_err()));
}

#[test]
fn a_record_keeps_the_name_of_its_own_line() {
    let g = general(
        "example.com",
        &["_Srv A 192.0.2.1", "_SRV A 192.0.2.2", "_srv A 192.0.2.2", "_al CNAME a.", "_AL CNAME b."],
    );
    let h = AcmeDnsHandler::with_serial(&g, 1).unwrap();
    let a = group(&h, "_srv.example.com.", RecordKind::A);
    assert_eq!(a.name, "_Srv.example.com.");
    let names: Vec<&str> = a.records.iter().map(|r| r.name.as_str()).collect();
    assert_eq!(names, vec!["_Srv.example.com.", "_SRV.example.com."]);
    let c = group(&h, "_al.example.com.", RecordKind::Cname);
    assert_eq!(c.name, "_al.example.com.");
    assert_eq!(c.records.len(), 1);
    assert_eq!(c.records[0].name, "_AL.example.com.");
    let soa = group(&h, "example.com.", RecordKind::Soa);
    assert_eq!(soa.records[0].name, "example.com.");
}
