//! The client: accounts at servers, checks of the DNS, and the hook that writes challenges.

use vstd::prelude::*;

use crate::net::Ip;
use crate::text::{
    concat, contains, copied, count, count_of, ends_with_char, is_char, join, joined, law_joined,
    law_occurrences_add_up, law_pieces, law_removal, lemma_cut_holds_no_separator,
    lemma_cut_nonempty, lemma_pieces_join, lemma_reads_as, lemma_trimmed_end_is, lower, lowercase,
    occurs_in, pad_end, padded, pieces, reads_as, remove_all, same, split, split_trimmed, texts,
    trim, trim_end_char, trim_end_matches, trimmed, trimmed_pieces, without,
};

verus! {

/// For how many seconds the hook waits for a written challenge to spread.
pub const PROPAGATION_WAIT: u64 = 10;

/// How many seconds lie between two checks of the DNS.
pub const CHECK_PERIOD: u64 = 15;

/// The permissions of the file of accounts: its owner alone may read and write it.
pub const STORAGE_MODE: u32 = 0o600;

/// The file of accounts, if no other is named.
pub fn default_storage() -> (res: &'static str)
    ensures
        res@ == "/etc/acmedns/clientstorage.json"@,
{
    "/etc/acmedns/clientstorage.json"
}

/// The public instance, which is asked if no other server is named.
pub open spec fn public_server() -> Seq<char> {
    "https://auth.acme-dns.io"@
}

/// The public instance.
pub fn public_acme_dns() -> (res: &'static str)
    ensures
        res@ == public_server(),
{
    "https://auth.acme-dns.io"
}

/// An account at a server.
#[derive(Debug, Clone)]
pub struct Account {
    /// The user name.
    pub username: String,
    /// The password.
    pub password: String,
    /// The domain that the challenges are pointed to.
    pub fulldomain: String,
    /// The subdomain that the account may write to.
    pub subdomain: String,
    /// The networks that it may be used from.
    pub allow: Vec<String>,
    /// The server.
    pub server_url: String,
}

/// The account of a domain.
#[derive(Debug, Clone)]
pub struct Entry {
    /// The domain.
    pub domain: String,
    /// The account.
    pub account: Account,
}

/// The accounts of domains.
#[derive(Debug)]
pub struct Storage {
    /// The domains that have an account.
    pub entries: Vec<Entry>,
}

/// Whether entry number `i` is that of a domain.
pub open spec fn is_entry(entries: Seq<Entry>, domain: Seq<char>, i: int) -> bool {
    0 <= i < entries.len() && entries[i].domain@ == domain
}

/// The account of each domain.
pub open spec fn accounts(entries: Seq<Entry>) -> Map<Seq<char>, Account> {
    Map::new(
        |d: Seq<char>| exists|i: int| is_entry(entries, d, i),
        |d: Seq<char>| entries[choose|i: int| is_entry(entries, d, i)].account,
    )
}

/// Whether no domain has two entries.
pub open spec fn are_unique(entries: Seq<Entry>) -> bool {
    forall|i: int, j: int|
        0 <= i < j < entries.len() ==> (#[trigger] entries[i]).domain@ != (
        #[trigger] entries[j]).domain@
}

/// An entry is what its domain has.
proof fn lemma_entry(entries: Seq<Entry>, i: int)
    requires
        are_unique(entries),
        0 <= i < entries.len(),
    ensures
        accounts(entries).contains_key(entries[i].domain@),
        accounts(entries)[entries[i].domain@] == entries[i].account,
{
    let d = entries[i].domain@;
    assert(is_entry(entries, d, i));
    let k = choose|k: int| is_entry(entries, d, k);
    assert(entries[k].domain@ == entries[i].domain@);
}

impl Storage {
    /// The account of each domain.
    pub open spec fn view(&self) -> Map<Seq<char>, Account> {
        accounts(self.entries@)
    }

    /// No domain has two accounts.
    pub open spec fn wf(&self) -> bool {
        are_unique(self.entries@)
    }

    /// No accounts.
    pub fn new() -> (res: Storage)
        ensures
            res.wf(),
            res@ == Map::<Seq<char>, Account>::empty(),
    {
        let res = Storage { entries: Vec::new() };
        assert(res@ =~= Map::<Seq<char>, Account>::empty());
        res
    }

    /// The number of the entry of a domain, if it has one.
    fn find(&self, domain: &str) -> (res: Option<usize>)
        ensures
            match res {
                Some(i) => i < self.entries@.len() && self.entries@[i as int].domain@ == domain@,
                None => !self@.contains_key(domain@),
            },
    {
        let mut i: usize = 0;
        while i < self.entries.len()
            invariant
                i <= self.entries@.len(),
                forall|k: int| 0 <= k < i ==> (#[trigger] self.entries@[k]).domain@ != domain@,
            decreases self.entries@.len() - i,
        {
            if same(self.entries[i].domain.as_str(), domain) {
                return Some(i);
            }
            i = i + 1;
        }
        None
    }

    /// The account of a domain, if it has one.
    pub fn get(&self, domain: &str) -> (res: Option<&Account>)
        requires
            self.wf(),
        ensures
            match res {
                Some(a) => self@.contains_key(domain@) && *a == self@[domain@],
                None => !self@.contains_key(domain@),
            },
    {
        match self.find(domain) {
            Some(i) => {
                proof {
                    lemma_entry(self.entries@, i as int);
                }
                Some(&self.entries[i].account)
            },
            None => None,
        }
    }

    /// Gives a domain an account, in place of the one that it may have.
    pub fn insert(&mut self, domain: String, account: Account)
        requires
            old(self).wf(),
        ensures
            final(self).wf(),
            final(self)@ == old(self)@.insert(domain@, account),
    {
        self.remove(domain.as_str());
        let ghost before = self.entries@;
        self.entries.push(Entry { domain, account });
        proof {
            let after = self.entries@;
            assert forall|i: int, j: int| 0 <= i < j < after.len() implies (
            #[trigger] after[i]).domain@ != (#[trigger] after[j]).domain@ by {
                if j == before.len() {
                    lemma_entry(before, i);
                }
            }
            let want = accounts(before).insert(domain@, account);
            lemma_entry(after, before.len() as int);
            assert forall|d: Seq<char>| #[trigger] accounts(after).contains_key(d)
                == want.contains_key(d) by {
                if accounts(before).contains_key(d) {
                    let k = choose|k: int| is_entry(before, d, k);
                    assert(is_entry(after, d, k));
                }
                if accounts(after).contains_key(d) && d != domain@ {
                    let k = choose|k: int| is_entry(after, d, k);
                    assert(is_entry(before, d, k));
                }
            }
            assert forall|d: Seq<char>| #[trigger] accounts(after).contains_key(d) implies accounts(
                after,
            )[d] == want[d] by {
                let k = choose|k: int| is_entry(after, d, k);
                lemma_entry(after, k);
                if k < before.len() {
                    lemma_entry(before, k);
                }
            }
            assert(accounts(after) =~= want);
        }
        assert(self@ =~= old(self)@.insert(domain@, account));
    }

    /// Takes the account of a domain away and says whether it had one.
    pub fn remove(&mut self, domain: &str) -> (res: bool)
        requires
            old(self).wf(),
        ensures
            final(self).wf(),
            res == old(self)@.contains_key(domain@),
            final(self)@ == old(self)@.remove(domain@),
    {
        match self.find(domain) {
            Some(i) => {
                let ghost before = self.entries@;
                let gone = self.entries.remove(i);
                proof {
                    let after = self.entries@;
                    lemma_entry(before, i as int);
                    let want = accounts(before).remove(domain@);
                    assert forall|p: int, q: int| 0 <= p < q < after.len() implies (
                    #[trigger] after[p]).domain@ != (#[trigger] after[q]).domain@ by {
                        let p2 = if p < i {
                            p
                        } else {
                            p + 1
                        };
                        let q2 = if q < i {
                            q
                        } else {
                            q + 1
                        };
                        assert(before[p2].domain@ != before[q2].domain@);
                    }
                    assert forall|d: Seq<char>| #[trigger] accounts(after).contains_key(d)
                        == want.contains_key(d) by {
                        if accounts(after).contains_key(d) {
                            let k = choose|k: int| is_entry(after, d, k);
                            let k2 = if k < i {
                                k
                            } else {
                                k + 1
                            };
                            assert(is_entry(before, d, k2));
                            assert(before[k2].domain@ != before[i as int].domain@);
                        }
                        if want.contains_key(d) {
                            let k = choose|k: int| is_entry(before, d, k);
                            let k2 = if k < i {
                                k
                            } else {
                                k - 1
                            };
                            assert(is_entry(after, d, k2));
                        }
                    }
                    assert forall|d: Seq<char>| #[trigger]
                        accounts(after).contains_key(d) implies accounts(after)[d] == want[d] by {
                        let k = choose|k: int| is_entry(after, d, k);
                        lemma_entry(after, k);
                        if k < i {
                            lemma_entry(before, k);
                        } else {
                            lemma_entry(before, k + 1);
                        }
                    }
                    assert(accounts(after) =~= want);
                }
                true
            },
            None => {
                assert(self@ =~= old(self)@.remove(domain@));
                false
            },
        }
    }
}

/// A domain without the marks of wildcards.
pub open spec fn clean(domain: Seq<char>) -> Seq<char> {
    without(domain, "*."@)
}

/// The domain that an account belongs to.
pub fn clean_domain(domain: &str) -> (res: String)
    ensures
        res@ == clean(domain@),
{
    proof {
        reveal_strlit("*.");
    }
    remove_all(domain, "*.")
}

/// The address of a name server: a version 6 address is put in brackets if it is not, and the port
/// is 53 if none is given.
pub open spec fn ns_address(ns: Seq<char>) -> Seq<char> {
    if count_of(ns, ':') > 1 && count_of(ns, '[') == 0 {
        "["@ + ns + "]:53"@
    } else if count_of(ns, ':') == 0 || (ns.len() > 0 && ns.last() == ']') {
        ns + ":53"@
    } else {
        ns
    }
}

/// The address to ask, of the name server that the user named.
pub fn get_resolver(ns: &str) -> (res: String)
    ensures
        res@ == ns_address(ns@),
{
    if count(ns, ':') > 1 && count(ns, '[') == 0 {
        concat(concat("[", ns).as_str(), "]:53")
    } else if count(ns, ':') == 0 || ends_with_char(ns, ']') {
        concat(ns, ":53")
    } else {
        ns.to_owned()
    }
}

/// The labels of a domain.
pub open spec fn labels(domain: Seq<char>) -> Seq<Seq<char>> {
    pieces(trim_end_char(domain, '.'), '.')
}

/// The zones that a domain may belong to: itself and what is left without one label after the
/// other, down to two labels.
pub open spec fn zones(domain: Seq<char>) -> Seq<Seq<char>> {
    let l = labels(domain);
    Seq::new((l.len() - 1) as nat, |k: int| joined(l.skip(k), "."@))
}

/// The search for the name servers of a domain's zone.
#[derive(Debug, Clone)]
pub struct ZoneSearch {
    /// The names to ask for name servers.
    pub zones: Vec<String>,
    /// How many of them were asked.
    pub asked: usize,
    /// The name servers that the last one has.
    pub servers: Vec<Ip>,
}

impl ZoneSearch {
    /// No more names were asked than there are.
    pub open spec fn wf(&self) -> bool {
        self.asked <= self.zones@.len()
    }

    /// Whether the search goes on: no name server was found, and there is a name left to ask.
    pub open spec fn is_open(&self) -> bool {
        self.servers@.len() == 0 && self.asked < self.zones@.len()
    }

    /// The name to ask next, if the search goes on.
    pub fn next(&self) -> (res: Option<&String>)
        ensures
            match res {
                Some(z) => self.is_open() && *z == self.zones@[self.asked as int],
                None => !self.is_open(),
            },
    {
        if self.servers.len() == 0 && self.asked < self.zones.len() {
            Some(&self.zones[self.asked])
        } else {
            None
        }
    }

    /// Takes the name servers that the name has.
    pub fn reply(&mut self, servers: Vec<Ip>)
        requires
            old(self).is_open(),
        ensures
            final(self).wf(),
            final(self).zones == old(self).zones,
            final(self).asked == old(self).asked + 1,
            final(self).servers == servers,
    {
        assert(self.asked < self.zones.len());
        self.asked = self.asked + 1;
        self.servers = servers;
    }
}

/// Starts the search for the name servers of a domain's zone: the zones that it may belong to are
/// asked one after the other until one has name servers.
pub fn find_base_zone_ns(domain: &str) -> (res: ZoneSearch)
    ensures
        res.wf(),
        texts(res.zones@) == zones(domain@).map_values(|z: Seq<char>| z + "."@),
        res.asked == 0,
        res.servers@.len() == 0,
{
    let parts = split(trim_end_matches(domain, '.').as_str(), '.');
    let ghost l = labels(domain@);
    let ghost all = zones(domain@);
    let ghost f = |z: Seq<char>| z + "."@;
    let mut res: Vec<String> = Vec::new();
    let mut k: usize = 0;
    assert(texts(res@) =~= all.take(0).map_values(f));
    while k < parts.len() - 1
        invariant
            parts@.len() >= 1,
            k <= parts@.len() - 1,
            texts(parts@) == l,
            l == labels(domain@),
            all == zones(domain@),
            f == (|z: Seq<char>| z + "."@),
            texts(res@) == all.take(k as int).map_values(f),
        decreases parts@.len() - k,
    {
        let ghost before = texts(res@);
        let zone = join(&parts, k, ".");
        assert(zone@ == all[k as int]);
        let name = concat(zone.as_str(), ".");
        res.push(name);
        assert(texts(res@) =~= before.push(f(all[k as int])));
        assert(all.take(k + 1).map_values(f) =~= before.push(f(all[k as int])));
        k = k + 1;
    }
    assert(all.take(all.len() as int) =~= all);
    ZoneSearch { zones: res, asked: 0, servers: Vec::new() }
}

/// The name to ask for the alias of a domain's challenge.
pub fn cname_query(domain: &str) -> (res: String)
    ensures
        res@ == "_acme-challenge."@ + domain@ + "."@,
{
    concat(concat("_acme-challenge.", domain).as_str(), ".")
}

/// The form of a name in which aliases are compared.
pub open spec fn compared(name: Seq<char>) -> Seq<char> {
    lowercase(trim_end_char(name, '.'))
}

/// Whether an alias leads to a target: it is the target, or the target or its first label occurs
/// in it.
pub open spec fn leads_to(alias: Seq<char>, target: Seq<char>) -> bool {
    let r = compared(alias);
    let t = compared(target);
    ||| r == t
    ||| occurs_in(t, r)
    ||| occurs_in(pieces(t, '.')[0], r)
}

/// Whether one of the aliases leads to a target.
pub open spec fn one_leads_to(aliases: Seq<Seq<char>>, target: Seq<char>) -> bool {
    exists|i: int| 0 <= i < aliases.len() && leads_to(#[trigger] aliases[i], target)
}

/// Whether one of the aliases that came back leads to the target.
pub fn check_cname(aliases: &Vec<String>, target: &str) -> (res: bool)
    ensures
        res == one_leads_to(texts(aliases@), target@),
{
    let t = lower(trim_end_matches(target, '.').as_str());
    let first = split(t.as_str(), '.');
    assert(texts(first@)[0] == first@[0]@);
    let ghost all = texts(aliases@);
    let mut i: usize = 0;
    while i < aliases.len()
        invariant
            i <= aliases@.len(),
            all == texts(aliases@),
            t@ == compared(target@),
            first@.len() >= 1,
            first@[0]@ == pieces(t@, '.')[0],
            forall|k: int| 0 <= k < i ==> !leads_to(#[trigger] all[k], target@),
        decreases aliases@.len() - i,
    {
        assert(all[i as int] == aliases@[i as int]@);
        let r = lower(trim_end_matches(aliases[i].as_str(), '.').as_str());
        if same(r.as_str(), t.as_str()) || contains(r.as_str(), t.as_str()) || contains(
            r.as_str(),
            first[0].as_str(),
        ) {
            return true;
        }
        i = i + 1;
    }
    false
}

/// Where to ask for records.
#[derive(Debug, Clone)]
pub enum Resolver {
    /// A name server of the domain's zone.
    Authoritative(Ip),
    /// The name server that the user named.
    Custom(String),
    /// Public name servers.
    Public,
}

/// Where to ask, as a value.
pub enum ResolverView {
    /// A name server of the domain's zone.
    Authoritative(Ip),
    /// The name server that the user named.
    Custom(Seq<char>),
    /// Public name servers.
    Public,
}

impl View for Resolver {
    type V = ResolverView;

    open spec fn view(&self) -> ResolverView {
        match self {
            Resolver::Authoritative(ip) => ResolverView::Authoritative(*ip),
            Resolver::Custom(a) => ResolverView::Custom(a@),
            Resolver::Public => ResolverView::Public,
        }
    }
}

/// Where to ask for the records of a domain, one after the other until one knows of them: the
/// name servers of its zone, the one that the user named, and public ones.
pub open spec fn resolvers(servers: Seq<Ip>, custom: Option<String>) -> Seq<ResolverView> {
    servers.map_values(|ip: Ip| ResolverView::Authoritative(ip)) + (match custom {
        Some(a) => seq![ResolverView::Custom(a@)],
        None => Seq::empty(),
    }) + seq![ResolverView::Public]
}

/// An inquiry about the records of a domain.
#[derive(Debug, Clone)]
pub struct Inquiry {
    /// Where to ask.
    pub resolvers: Vec<Resolver>,
    /// How many of them were asked.
    pub asked: usize,
    /// Whether the last one knew of the records.
    pub found: bool,
}

impl Inquiry {
    /// No more were asked than there are.
    pub open spec fn wf(&self) -> bool {
        self.asked <= self.resolvers@.len()
    }

    /// Whether the inquiry goes on: the records were not found, and there is somewhere left to ask.
    pub open spec fn is_open(&self) -> bool {
        !self.found && self.asked < self.resolvers@.len()
    }

    /// Where to ask next, if the inquiry goes on.
    pub fn next(&self) -> (res: Option<&Resolver>)
        ensures
            match res {
                Some(r) => self.is_open() && *r == self.resolvers@[self.asked as int],
                None => !self.is_open(),
            },
    {
        if !self.found && self.asked < self.resolvers.len() {
            Some(&self.resolvers[self.asked])
        } else {
            None
        }
    }

    /// Takes whether the one that was asked knew of the records.
    pub fn reply(&mut self, found: bool)
        requires
            old(self).is_open(),
        ensures
            final(self).wf(),
            final(self).resolvers == old(self).resolvers,
            final(self).asked == old(self).asked + 1,
            final(self).found == found,
    {
        assert(self.asked < self.resolvers.len());
        self.asked = self.asked + 1;
        self.found = found;
    }
}

/// Starts an inquiry about the records of a domain. `custom` is the address of the name server
/// that the user named, if it is one.
pub fn check_cname_authoritative(servers: &Vec<Ip>, custom: Option<String>) -> (res: Inquiry)
    ensures
        res.wf(),
        res.resolvers@.map_values(|r: Resolver| r@) == resolvers(servers@, custom),
        res.asked == 0,
        !res.found,
{
    let ghost view = |r: Resolver| r@;
    let mut res: Vec<Resolver> = Vec::new();
    let mut i: usize = 0;
    while i < servers.len()
        invariant
            i <= servers@.len(),
            res@.len() == i,
            forall|k: int|
                0 <= k < i ==> (#[trigger] res@[k])@ == ResolverView::Authoritative(servers@[k]),
        decreases servers@.len() - i,
    {
        res.push(Resolver::Authoritative(servers[i]));
        i = i + 1;
    }
    if let Some(a) = custom {
        res.push(Resolver::Custom(a));
    }
    res.push(Resolver::Public);
    assert(res@.map_values(view) =~= resolvers(servers@, custom));
    Inquiry { resolvers: res, asked: 0, found: false }
}

/// The networks that the user named.
pub open spec fn allowed(allow: Option<String>) -> Seq<Seq<char>> {
    match allow {
        Some(l) => trimmed_pieces(l@, ','),
        None => Seq::empty(),
    }
}

/// The networks that the user named, separated by commas.
pub fn allow_list(allow: &Option<String>) -> (res: Vec<String>)
    ensures
        texts(res@) == allowed(*allow),
{
    match allow {
        Some(l) => split_trimmed(l.as_str(), ','),
        None => {
            let res: Vec<String> = Vec::new();
            assert(texts(res@) =~= Seq::empty());
            res
        },
    }
}

/// What a server replies to a request for an account.
#[derive(Debug, Clone)]
pub struct RegisterResponse {
    /// The user name.
    pub username: String,
    /// The password.
    pub password: String,
    /// The domain that the challenges are pointed to.
    pub fulldomain: String,
    /// The subdomain that the account may write to.
    pub subdomain: String,
}

/// The account that a server gave.
pub fn account_from(response: RegisterResponse, allow: Vec<String>, server: &str) -> (res: Account)
    ensures
        res.username == response.username,
        res.password == response.password,
        res.fulldomain == response.fulldomain,
        res.subdomain == response.subdomain,
        res.allow == allow,
        res.server_url@ == server@,
{
    Account {
        username: response.username,
        password: response.password,
        fulldomain: response.fulldomain,
        subdomain: response.subdomain,
        allow,
        server_url: server.to_owned(),
    }
}

/// What is done about a request for an account.
#[derive(Debug, Clone)]
pub enum Registering {
    /// Nothing, since the domain has one.
    Known,
    /// Nothing, since the user has to confirm that they trust the public instance.
    Unconfirmed,
    /// The server is asked.
    Ask,
}

/// What is done about a request for an account for a domain.
pub fn start_register(storage: &Storage, domain: &str, server: &str, dangerous: bool) -> (res:
    Registering)
    requires
        storage.wf(),
    ensures
        storage@.contains_key(clean(domain@)) ==> res is Known,
        !storage@.contains_key(clean(domain@)) && !is_open_to(server@, dangerous) ==> res
            is Unconfirmed,
        !storage@.contains_key(clean(domain@)) && is_open_to(server@, dangerous) ==> res
            is Ask,
{
    let name = clean_domain(domain);
    if storage.get(name.as_str()).is_some() {
        Registering::Known
    } else if same(server, public_acme_dns()) && !dangerous {
        Registering::Unconfirmed
    } else {
        Registering::Ask
    }
}

/// What the hook does.
#[derive(Debug, Clone)]
pub enum Hook {
    /// It asks the server for an account for the domain, and then for the challenge.
    Register {
        /// The domain.
        domain: String,
    },
    /// It asks the account's server to write a challenge.
    Update {
        /// The domain.
        domain: String,
        /// The account.
        account: Account,
        /// The challenge.
        txt: String,
    },
    /// It fails, saying this.
    Fail(String),
}

/// The challenge that the hook writes: the one that is to be validated or, when that is over, an
/// empty text.
pub open spec fn challenge(validation: Seq<char>, cleanup: bool) -> Seq<char> {
    if cleanup {
        Seq::empty()
    } else {
        validation
    }
}

/// Whether the environment is that of a hook: a domain and a challenge are given.
pub fn is_hook(domain: &str, validation: &str) -> (res: bool)
    ensures
        res == (domain@.len() > 0 && validation@.len() > 0),
{
    !domain.is_empty() && !validation.is_empty()
}

/// What is said where the hook finds no account.
pub open spec fn no_account_text(domain: Seq<char>) -> Seq<char> {
    "Error: No acme-dns account registered for domain '"@ + domain + "' in storage."@
}

/// Whether an account may be asked for at a server: at the public one only where that is confirmed.
pub open spec fn is_open_to(server: Seq<char>, dangerous: bool) -> bool {
    server != public_server() || dangerous
}

/// Whether `hook` is what there is to do for a domain: its challenge is written, and an account that
/// is not found is asked for unless the validation is over or the server is not `open`.
pub open spec fn is_hook_for(
    accounts: Map<Seq<char>, Account>,
    domain: Seq<char>,
    validation: Seq<char>,
    cleanup: bool,
    open: bool,
    hook: Hook,
) -> bool {
    if accounts.contains_key(domain) {
        hook matches Hook::Update { domain: d, account, txt } && {
            &&& d@ == domain
            &&& is_copy(account, accounts[domain])
            &&& txt@ == challenge(validation, cleanup)
        }
    } else if !cleanup && open {
        hook matches Hook::Register { domain: d } && d@ == domain
    } else {
        hook matches Hook::Fail(m) && m@ == no_account_text(domain)
    }
}

/// Whether two accounts say the same.
pub open spec fn is_copy(a: Account, b: Account) -> bool {
    &&& a.username@ == b.username@
    &&& a.password@ == b.password@
    &&& a.fulldomain@ == b.fulldomain@
    &&& a.subdomain@ == b.subdomain@
    &&& texts(a.allow@) == texts(b.allow@)
    &&& a.server_url@ == b.server_url@
}

impl Account {
    /// A copy of the account.
    pub fn copy(&self) -> (res: Account)
        ensures
            is_copy(res, *self),
    {
        let allow = copied(&self.allow);
        Account {
            username: self.username.clone(),
            password: self.password.clone(),
            fulldomain: self.fulldomain.clone(),
            subdomain: self.subdomain.clone(),
            allow,
            server_url: self.server_url.clone(),
        }
    }
}

/// What the hook does for a domain. `cleanup` says that the validation is over, and `dangerous` that
/// an account may be asked for at the public server too.
pub fn start_hook(
    storage: &Storage,
    domain: &str,
    validation: &str,
    cleanup: bool,
    server: &str,
    dangerous: bool,
) -> (res: Hook)
    requires
        storage.wf(),
    ensures
        is_hook_for(
            storage@,
            clean(domain@),
            validation@,
            cleanup,
            is_open_to(server@, dangerous),
            res,
        ),
{
    let name = clean_domain(domain);
    match storage.get(name.as_str()) {
        Some(account) => {
            let txt = if cleanup {
                String::new()
            } else {
                validation.to_owned()
            };
            Hook::Update { domain: name, account: account.copy(), txt }
        },
        None => {
            if cleanup || (same(server, public_acme_dns()) && !dangerous) {
                let start = concat(
                    "Error: No acme-dns account registered for domain '",
                    name.as_str(),
                );
                Hook::Fail(concat(start.as_str(), "' in storage."))
            } else {
                Hook::Register { domain: name }
            }
        },
    }
}

/// What the hook does after the server gave an account to a domain: the account is kept, and then
/// there is a challenge to write.
pub fn hook_registered(storage: &mut Storage, domain: String, account: Account, validation: &str) -> (res:
    Hook)
    requires
        old(storage).wf(),
    ensures
        final(storage).wf(),
        final(storage)@ == old(storage)@.insert(domain@, account),
        is_hook_for(final(storage)@, domain@, validation@, false, true, res),
{
    let kept = account.copy();
    let name = domain.clone();
    storage.insert(domain, account);
    Hook::Update { domain: name, account: kept, txt: validation.to_owned() }
}

/// For how many seconds the hook waits after a challenge was written: until it has spread, unless
/// the validation is over.
pub fn hook_wait(cleanup: bool) -> (res: u64)
    ensures
        res == (if cleanup {
            0
        } else {
            PROPAGATION_WAIT
        }),
{
    if cleanup {
        0
    } else {
        PROPAGATION_WAIT
    }
}

/// Where the account's server takes challenges.
pub fn update_url(server: &str) -> (res: String)
    ensures
        res@ == server@ + "/update"@,
{
    concat(server, "/update")
}

/// Where a server gives out accounts.
pub fn register_url(server: &str) -> (res: String)
    ensures
        res@ == server@ + "/register"@,
{
    concat(server, "/register")
}

/// The record that the user has to make for a domain.
pub open spec fn cname_text(domain: Seq<char>, fulldomain: Seq<char>) -> Seq<char> {
    "_acme-challenge."@ + domain + ". IN CNAME "@ + fulldomain + "."@
}

/// The record that the user has to make for a domain.
pub fn cname_line(domain: &str, fulldomain: &str) -> (res: String)
    ensures
        res@ == cname_text(domain@, fulldomain@),
{
    let mut res = concat("_acme-challenge.", domain);
    res.append(". IN CNAME ");
    res.append(fulldomain);
    res.append(".");
    res
}

/// Records that keep other authorities from giving out certificates for a domain.
pub open spec fn caa_texts(domain: Seq<char>) -> Seq<Seq<char>> {
    seq![
        domain
            + ".         IN    CAA    0 issue \"letsencrypt.org; validationmethods=dns-01\""@,
        domain
            + ".         IN    CAA    0 issuewild \"letsencrypt.org; validationmethods=dns-01\""@,
    ]
}

/// Records that keep other authorities from giving out certificates for a domain.
pub fn caa_lines(domain: &str) -> (res: Vec<String>)
    ensures
        texts(res@) == caa_texts(domain@),
{
    let mut res: Vec<String> = Vec::new();
    res.push(
        concat(
            domain,
            ".         IN    CAA    0 issue \"letsencrypt.org; validationmethods=dns-01\"",
        ),
    );
    res.push(
        concat(
            domain,
            ".         IN    CAA    0 issuewild \"letsencrypt.org; validationmethods=dns-01\"",
        ),
    );
    assert(texts(res@) =~= caa_texts(domain@));
    res
}

/// The line of an account in the list of accounts.
pub open spec fn account_text(domain: Seq<char>, verified: bool, fulldomain: Seq<char>) -> Seq<char> {
    "- "@ + padded(domain, 30) + " [Status: "@ + (if verified {
        "OK"@
    } else {
        "CNAME_MISMATCH"@
    }) + "] Target: "@ + fulldomain
}

/// The line of an account in the list of accounts.
pub fn account_line(domain: &str, verified: bool, fulldomain: &str) -> (res: String)
    ensures
        res@ == account_text(domain@, verified, fulldomain@),
{
    let mut res = concat("- ", pad_end(domain, 30).as_str());
    res.append(" [Status: ");
    if verified {
        res.append("OK");
    } else {
        res.append("CNAME_MISMATCH");
    }
    res.append("] Target: ");
    res.append(fulldomain);
    res
}

/// An answer of the user, in small letters.
pub open spec fn answer(input: Seq<char>) -> Seq<char> {
    lowercase(trimmed(input))
}

/// Whether the user wants the alias to be watched: unless they say no.
pub fn wants_monitoring(input: &str) -> (res: bool)
    ensures
        res == (answer(input@) != "n"@),
{
    !same(lower(trim(input).as_str()).as_str(), "n")
}

/// Whether the user wants help with records of authorities: if they say yes.
pub fn wants_caa(input: &str) -> (res: bool)
    ensures
        res == (answer(input@) == "y"@),
{
    same(lower(trim(input).as_str()).as_str(), "y")
}

/// Where the user stands in setting up a domain that was given an account.
#[derive(Debug, Clone, Copy, PartialEq, Eq, Structural)]
pub enum Step {
    /// The alias is looked for.
    FirstCheck,
    /// The user is asked whether to watch for the alias.
    AskMonitoring,
    /// The alias is looked for until it is there.
    WatchAlias,
    /// The user is asked whether they want help with records of authorities.
    AskCaa,
    /// Such a record is looked for until it is there.
    WatchCaa,
    /// There is nothing left to do.
    Done,
}

/// What happens in setting up a domain.
#[derive(Debug, Clone)]
pub enum Event {
    /// What was looked for is there, or it is not.
    Looked(bool),
    /// The user answered.
    Answered(String),
}

/// The step that follows. Records of authorities are waited for only where `watchable` says that
/// the name server that the user named can be asked. An event that does not belong to a step
/// changes nothing.
pub open spec fn next_step(step: Step, event: Event, watchable: bool) -> Step {
    match (step, event) {
        (Step::FirstCheck, Event::Looked(found)) => if found {
            Step::AskCaa
        } else {
            Step::AskMonitoring
        },
        (Step::AskMonitoring, Event::Answered(input)) => if answer(input@) != "n"@ {
            Step::WatchAlias
        } else {
            Step::AskCaa
        },
        (Step::WatchAlias, Event::Looked(true)) => Step::AskCaa,
        (Step::AskCaa, Event::Answered(input)) => if answer(input@) == "y"@ && watchable {
            Step::WatchCaa
        } else {
            Step::Done
        },
        (Step::WatchCaa, Event::Looked(true)) => Step::Done,
        _ => step,
    }
}

/// What the user is told on the way to the step that follows.
pub open spec fn step_texts(step: Step, event: Event, watchable: bool, domain: Seq<char>) -> Seq<
    Seq<char>,
> {
    match (step, event) {
        (Step::FirstCheck, Event::Looked(true)) => seq![
            "CNAME record seems to already be set up correctly, you are good to go!"@,
        ],
        (Step::AskMonitoring, Event::Answered(input)) => if answer(input@) != "n"@ {
            seq!["\nWaiting for CNAME record propagation..."@]
        } else {
            seq![
                "\nSkipping CNAME monitoring. You can check it later using: acme-dns-client-rust check -d "@
                    + domain,
            ]
        },
        (Step::WatchAlias, Event::Looked(true)) => seq![
            "\nCNAME propagation verified successfully!"@,
        ],
        (Step::AskCaa, Event::Answered(input)) => if answer(input@) == "y"@ {
            seq!["\nExample CAA records to add to your DNS zone:"@] + caa_texts(domain) + (
            if watchable {
                seq!["\nWaiting for CAA record creation (checking every 15s)..."@]
            } else {
                Seq::empty()
            })
        } else {
            seq!["Skipping CAA record setup."@]
        },
        (Step::WatchCaa, Event::Looked(true)) => seq!["\nCAA record detected successfully!"@],
        _ => Seq::empty(),
    }
}

/// One text as a list.
fn one_line(s: &str) -> (res: Vec<String>)
    ensures
        texts(res@) == seq![s@],
{
    let mut res: Vec<String> = Vec::new();
    res.push(s.to_owned());
    assert(texts(res@) =~= seq![s@]);
    res
}

/// No text.
fn no_lines() -> (res: Vec<String>)
    ensures
        texts(res@) == Seq::<Seq<char>>::empty(),
{
    let res: Vec<String> = Vec::new();
    assert(texts(res@) =~= Seq::<Seq<char>>::empty());
    res
}

/// The step that follows in setting up a domain, and what the user is told.
pub fn advance(step: Step, event: &Event, watchable: bool, domain: &str) -> (res: (
    Step,
    Vec<String>,
))
    ensures
        res.0 == next_step(step, *event, watchable),
        texts(res.1@) == step_texts(step, *event, watchable, domain@),
{
    match (step, event) {
        (Step::FirstCheck, Event::Looked(true)) => (
            Step::AskCaa,
            one_line("CNAME record seems to already be set up correctly, you are good to go!"),
        ),
        (Step::FirstCheck, Event::Looked(false)) => (Step::AskMonitoring, no_lines()),
        (Step::AskMonitoring, Event::Answered(input)) => {
            if wants_monitoring(input.as_str()) {
                (Step::WatchAlias, one_line("\nWaiting for CNAME record propagation..."))
            } else {
                let line = concat(
                    "\nSkipping CNAME monitoring. You can check it later using: acme-dns-client-rust check -d ",
                    domain,
                );
                (Step::AskCaa, one_line(line.as_str()))
            }
        },
        (Step::WatchAlias, Event::Looked(true)) => (
            Step::AskCaa,
            one_line("\nCNAME propagation verified successfully!"),
        ),
        (Step::AskCaa, Event::Answered(input)) => {
            if wants_caa(input.as_str()) {
                let mut lines = one_line("\nExample CAA records to add to your DNS zone:");
                let mut records = caa_lines(domain);
                let ghost head = texts(lines@);
                lines.append(&mut records);
                assert(texts(lines@) =~= head + caa_texts(domain@));
                if watchable {
                    let ghost before = texts(lines@);
                    let mut last = one_line(
                        "\nWaiting for CAA record creation (checking every 15s)...",
                    );
                    let ghost tail = texts(last@);
                    lines.append(&mut last);
                    assert(texts(lines@) =~= before + tail);
                    (Step::WatchCaa, lines)
                } else {
                    assert(texts(lines@) + Seq::<Seq<char>>::empty() =~= texts(lines@));
                    (Step::Done, lines)
                }
            } else {
                (Step::Done, one_line("Skipping CAA record setup."))
            }
        },
        (Step::WatchCaa, Event::Looked(true)) => (
            Step::Done,
            one_line("\nCAA record detected successfully!"),
        ),
        _ => (step, no_lines()),
    }
}

/// How far a step is.
pub open spec fn rank(step: Step) -> nat {
    match step {
        Step::FirstCheck => 0,
        Step::AskMonitoring => 1,
        Step::WatchAlias => 2,
        Step::AskCaa => 3,
        Step::WatchCaa => 4,
        Step::Done => 5,
    }
}

/// Whether a step waits for an answer of the user, and not for a look.
pub open spec fn is_question(step: Step) -> bool {
    step is AskMonitoring || step is AskCaa
}

/// Setting up a domain only moves forward: every answer to a question and every find is a step
/// ahead, and nothing leads back.
pub proof fn law_setting_up_moves_forward(step: Step, event: Event, watchable: bool)
    ensures
        rank(next_step(step, event, watchable)) >= rank(step),
        is_question(step) && event is Answered ==> rank(next_step(step, event, watchable)) > rank(
            step,
        ),
        !is_question(step) && !(step is Done) && event == Event::Looked(true) ==> rank(
            next_step(step, event, watchable),
        ) > rank(step),
{
}

/// Whether `states` are those of a search that was asked on as long as it was open, with `replies`
/// the name servers that came back.
pub open spec fn is_search(states: Seq<ZoneSearch>, replies: Seq<Seq<Ip>>) -> bool {
    &&& states.len() == replies.len() + 1
    &&& states[0].asked == 0 && states[0].servers@.len() == 0
    &&& forall|i: int|
        0 <= i < replies.len() ==> {
            let before = states[i];
            let after = states[i + 1];
            &&& before.is_open()
            &&& after.zones == before.zones
            &&& after.asked == before.asked + 1
            &&& after.servers@ == #[trigger] replies[i]
        }
    &&& !states.last().is_open()
}

/// As many zones were asked as came back.
proof fn lemma_search(states: Seq<ZoneSearch>, replies: Seq<Seq<Ip>>, n: nat)
    requires
        is_search(states, replies),
        n <= replies.len(),
    ensures
        states[n as int].asked == n,
        states[n as int].zones == states[0].zones,
    decreases n,
{
    if n > 0 {
        lemma_search(states, replies, (n - 1) as nat);
        let reply = replies[n - 1];
    }
}

/// A search ends with the name servers of the first zone that has some, after which no zone is
/// asked, or with none, after all zones were asked.
pub proof fn law_search_ends_with_the_first_servers(
    states: Seq<ZoneSearch>,
    replies: Seq<Seq<Ip>>,
)
    requires
        is_search(states, replies),
    ensures
        replies.len() <= states[0].zones@.len(),
        forall|i: int| 0 <= i < replies.len() - 1 ==> (#[trigger] replies[i]).len() == 0,
        states.last().servers@.len() > 0 ==> replies.len() > 0 && states.last().servers@
            == replies.last(),
        states.last().servers@.len() == 0 ==> replies.len() == states[0].zones@.len() && forall|
            i: int,
        |
            0 <= i < replies.len() ==> (#[trigger] replies[i]).len() == 0,
{
    let n = replies.len();
    lemma_search(states, replies, n);
    assert forall|i: int| 0 <= i < n - 1 implies (#[trigger] replies[i]).len() == 0 by {
        let next = replies[i + 1];
        assert(states[i + 1].is_open());
    }
    if n > 0 {
        let reply = replies[n - 1];
        lemma_search(states, replies, (n - 1) as nat);
        assert(states[n - 1].is_open());
    }
}

/// Whether `states` are those of an inquiry that was asked on as long as it was open, with
/// `replies` whether each that was asked knew of the records.
pub open spec fn is_inquiry(states: Seq<Inquiry>, replies: Seq<bool>) -> bool {
    &&& states.len() == replies.len() + 1
    &&& states[0].asked == 0 && !states[0].found
    &&& forall|i: int|
        0 <= i < replies.len() ==> {
            let before = states[i];
            let after = states[i + 1];
            &&& before.is_open()
            &&& after.resolvers == before.resolvers
            &&& after.asked == before.asked + 1
            &&& after.found == #[trigger] replies[i]
        }
    &&& !states.last().is_open()
}

/// As many were asked as replied.
proof fn lemma_inquiry(states: Seq<Inquiry>, replies: Seq<bool>, n: nat)
    requires
        is_inquiry(states, replies),
        n <= replies.len(),
    ensures
        states[n as int].asked == n,
        states[n as int].resolvers == states[0].resolvers,
    decreases n,
{
    if n > 0 {
        lemma_inquiry(states, replies, (n - 1) as nat);
        let reply = replies[n - 1];
    }
}

/// An inquiry finds the records if and only if one that was asked knows of them. None is asked
/// after it, and all are asked if none knows.
pub proof fn law_inquiry_finds_what_one_knows(states: Seq<Inquiry>, replies: Seq<bool>)
    requires
        is_inquiry(states, replies),
    ensures
        states.last().found <==> replies.contains(true),
        forall|i: int| 0 <= i < replies.len() - 1 ==> !#[trigger] replies[i],
        replies.len() <= states[0].resolvers@.len(),
        !states.last().found ==> replies.len() == states[0].resolvers@.len(),
{
    let n = replies.len();
    lemma_inquiry(states, replies, n);
    assert forall|i: int| 0 <= i < n - 1 implies !#[trigger] replies[i] by {
        let next = replies[i + 1];
        assert(states[i + 1].is_open());
    }
    if n > 0 {
        let reply = replies[n - 1];
        lemma_inquiry(states, replies, (n - 1) as nat);
        assert(states[n - 1].is_open());
    }
    if replies.contains(true) {
        let k = replies.index_of(true);
        assert(replies[k]);
    }
}

/// The mark of a wildcard does not change which account a domain belongs to.
pub proof fn law_wildcard_shares_the_account(domain: Seq<char>)
    ensures
        clean("*."@ + domain) == clean(domain),
{
    reveal_strlit("*.");
    let s = "*."@ + domain;
    assert(s.take(2) =~= "*."@);
    assert(s.skip(2) =~= domain);
}

/// The record that the user is told to make passes the check.
pub proof fn law_requested_record_passes(fulldomain: Seq<char>)
    ensures
        leads_to(fulldomain + "."@, fulldomain),
{
    reveal_strlit(".");
    let s = fulldomain + "."@;
    assert(s.last() == '.');
    assert(s.drop_last() =~= fulldomain);
}

/// A target occurs in every text that its first label and the rest occur in together, so to look
/// for the first label finds every alias that looking for the whole target finds.
pub proof fn law_first_label_decides(alias: Seq<char>, target: Seq<char>)
    ensures
        leads_to(alias, target) <==> occurs_in(pieces(compared(target), '.')[0], compared(alias)),
{
    let r = compared(alias);
    let t = compared(target);
    let first = pieces(t, '.')[0];
    lemma_first_piece_is_prefix(t, is_char('.'));
    if occurs_in(t, r) {
        let i = choose|i: int|
            0 <= i <= r.len() - t.len() && #[trigger] r.subrange(i, i + t.len()) == t;
        assert(r.subrange(i, i + first.len()) =~= t.take(first.len() as int));
    }
    if r == t {
        assert(r.subrange(0int, 0int + first.len()) =~= t.take(first.len() as int));
    }
}

/// The first piece of a text that is cut is its start.
proof fn lemma_first_piece_is_prefix(s: Seq<char>, sep: spec_fn(char) -> bool)
    ensures
        ({
            let first = crate::text::cut_at(s, sep)[0];
            first.len() <= s.len() && s.take(first.len() as int) == first
        }),
    decreases s.len(),
{
    if s.len() > 0 {
        let before = s.drop_last();
        lemma_first_piece_is_prefix(before, sep);
        lemma_cut_nonempty(before, sep);
        let parts = crate::text::cut_at(before, sep);
        let first = crate::text::cut_at(s, sep)[0];
        if sep(s.last()) || parts.len() > 1 {
            assert(first == parts[0]);
            assert(s.take(first.len() as int) =~= before.take(first.len() as int));
        } else {
            lemma_only_piece(before, sep);
            assert(s =~= before.push(s.last()));
            assert(first == before.push(s.last()));
            assert(s.take(first.len() as int) =~= first);
        }
    } else {
        assert(s.take(0) =~= Seq::empty());
    }
}

/// A text that is cut nowhere is its only piece.
proof fn lemma_only_piece(s: Seq<char>, sep: spec_fn(char) -> bool)
    requires
        crate::text::cut_at(s, sep).len() == 1,
    ensures
        crate::text::cut_at(s, sep)[0] == s,
    decreases s.len(),
{
    if s.len() > 0 {
        lemma_cut_nonempty(s.drop_last(), sep);
        lemma_only_piece(s.drop_last(), sep);
        assert(s =~= s.drop_last().push(s.last()));
    }
}

/// The names that are asked for name servers: the domain itself, without dots at its end but for
/// one, and each time what stands behind the first dot of the last, down to a name of two labels;
/// none if the domain has no dot.
pub proof fn law_each_zone_is_asked(domain: &str, base: Seq<char>, res: ZoneSearch)
    requires
        call_ensures(find_base_zone_ns, (domain,), res),
        base.is_prefix_of(domain@),
        base.len() == 0 || base.last() != '.',
        forall|i: int| base.len() <= i < domain@.len() ==> #[trigger] domain@[i] == '.',
    ensures
        res.asked == 0,
        res.servers@.len() == 0,
        res.zones@.len() == 0 <==> !base.contains('.'),
        res.zones@.len() > 0 ==> res.zones@[0]@ == base + seq!['.'],
        forall|k: int|
            0 <= k < res.zones@.len() - 1 ==> is_label_before(
                (#[trigger] res.zones@[k])@,
                res.zones@[k + 1]@,
            ),
        res.zones@.len() > 0 ==> exists|last: Seq<char>|
            !last.contains('.') && #[trigger] is_label_before(res.zones@.last()@, last + seq!['.']),
{
    reveal_strlit(".");
    assert("."@ =~= seq!['.']);
    lemma_trimmed_end_is(domain@, '.', base);
    lemma_zones(domain@);
    let all = zones(domain@);
    let z = res.zones@;
    let f = |w: Seq<char>| w + "."@;
    assert(texts(z) == all.map_values(f));
    assert(texts(z).len() == z.len());
    assert forall|k: int| 0 <= k < z.len() implies (#[trigger] z[k])@ == all[k] + seq!['.'] by {
        assert(texts(z)[k] == z[k]@);
        assert(all.map_values(f)[k] == f(all[k]));
    }
    assert forall|k: int| 0 <= k < z.len() - 1 implies is_label_before(
        (#[trigger] z[k])@,
        z[k + 1]@,
    ) by {
        assert(is_label_before(all[k], all[k + 1]));
        let label = choose|label: Seq<char>|
            !label.contains('.') && all[k] == #[trigger] (label + seq!['.'] + all[k + 1]);
        assert(z[k]@ =~= label + seq!['.'] + z[k + 1]@);
    }
    if z.len() > 0 {
        let last = choose|last: Seq<char>|
            !last.contains('.') && #[trigger] is_label_before(all.last(), last);
        let label = choose|label: Seq<char>|
            !label.contains('.') && all.last() == #[trigger] (label + seq!['.'] + last);
        assert(z[z.len() - 1]@ == all[z.len() - 1] + seq!['.']);
        assert(z.last()@ =~= label + seq!['.'] + (last + seq!['.']));
        assert(is_label_before(z.last()@, last + seq!['.']));
    }
}

/// The zones of a domain, one label less each time.
proof fn lemma_zones(domain: Seq<char>)
    ensures
        ({
            let base = trim_end_char(domain, '.');
            let all = zones(domain);
            &&& all.len() == 0 <==> !base.contains('.')
            &&& all.len() > 0 ==> all[0] == base
            &&& forall|k: int|
                0 <= k < all.len() - 1 ==> is_label_before(#[trigger] all[k], all[k + 1])
            &&& all.len() > 0 ==> exists|last: Seq<char>|
                !last.contains('.') && #[trigger] is_label_before(all.last(), last)
        }),
{
    reveal_strlit(".");
    assert("."@ =~= seq!['.']);
    let base = trim_end_char(domain, '.');
    let all = zones(domain);
    let l = labels(domain);
    let n = l.len();
    lemma_pieces_join(base, '.');
    lemma_cut_holds_no_separator(base, is_char('.'));
    assert(n >= 1);
    assert(all.len() == n - 1);
    assert forall|k: int| 0 <= k < n implies !(#[trigger] l[k]).contains('.') by {
        if l[k].contains('.') {
            let i = l[k].index_of('.');
            assert(!is_char('.')(l[k][i]));
        }
    }
    assert(l.skip(0) =~= l);
    if n == 1 {
        assert(joined(l, "."@) == l[0]);
    } else if !base.contains('.') {
        law_pieces(base, '.', Seq::empty());
    }
    assert forall|k: int| 0 <= k < all.len() implies #[trigger] all[k] == l[k] + seq!['.'] + joined(
        l.skip(k + 1),
        "."@,
    ) by {
        law_joined(l[k], l.skip(k + 1), "."@);
        assert(l.skip(k) =~= seq![l[k]] + l.skip(k + 1));
    }
    assert forall|k: int| 0 <= k < all.len() - 1 implies is_label_before(
        #[trigger] all[k],
        all[k + 1],
    ) by {
        assert(all[k + 1] == joined(l.skip(k + 1), "."@));
        assert(!l[k].contains('.'));
    }
    if n > 1 {
        assert(l.skip(n - 1) =~= seq![l[n - 1]]);
        assert(joined(seq![l[n - 1]], "."@) == l[n - 1]);
        assert(all.last() == all[n - 2]);
        assert(all[n - 2] == l[n - 2] + seq!['.'] + l[n - 1]);
        assert(!l[n - 2].contains('.') && !l[n - 1].contains('.'));
        assert(is_label_before(all.last(), l[n - 1]));
    }
}

/// Whether a name is a label, a dot, and the rest.
pub open spec fn is_label_before(name: Seq<char>, rest: Seq<char>) -> bool {
    exists|label: Seq<char>| !label.contains('.') && name == #[trigger] (label + seq!['.'] + rest)
}

/// A search asks the next of its names as long as none had name servers, takes what came back as it
/// is, and goes on behind that name.
pub proof fn law_search_goes_name_by_name(
    s: &mut ZoneSearch,
    servers: Vec<Ip>,
    done: (),
    asked: Option<&String>,
)
    requires
        call_ensures(ZoneSearch::next, (&*old(s),), asked),
        old(s).is_open(),
        call_ensures(ZoneSearch::reply, (s, servers), done),
    ensures
        asked is Some,
        old(s).servers@.len() == 0,
        asked->Some_0@ == old(s).zones@[old(s).asked as int]@,
        final(s).zones@ == old(s).zones@,
        final(s).asked == old(s).asked + 1,
        final(s).servers@ == servers@,
{
}

/// An alias passes the check if and only if the first label of the target occurs in it. Both are taken
/// in small letters and without dots at their end; `plain` are the aliases in that form.
pub proof fn law_alias_names_the_first_label(
    aliases: &Vec<String>,
    target: &str,
    label: Seq<char>,
    rest: Seq<char>,
    plain: Seq<Seq<char>>,
    res: bool,
)
    requires
        call_ensures(check_cname, (aliases, target), res),
        !label.contains('.'),
        ({
            let t = lowercase(trim_end_char(target@, '.'));
            ||| reads_as(target@, label)
            ||| reads_as(target@, label + seq!['.'] + rest)
            ||| t == label
            ||| t == label + seq!['.'] + rest
        }),
        plain.len() == aliases@.len(),
        forall|i: int|
            0 <= i < plain.len() ==> reads_as((#[trigger] aliases@[i])@, plain[i]) || plain[i]
                == lowercase(trim_end_char(aliases@[i]@, '.')),
    ensures
        res <==> exists|i: int| 0 <= i < plain.len() && is_made_with(label, #[trigger] plain[i]),
{
    law_pieces(label, '.', rest);
    let t = compared(target@);
    if reads_as(target@, label) {
        lemma_reads_as(target@, label);
    } else if reads_as(target@, label + seq!['.'] + rest) {
        lemma_reads_as(target@, label + seq!['.'] + rest);
    }
    assert(pieces(t, '.')[0] == label);
    assert forall|i: int| 0 <= i < plain.len() implies #[trigger] leads_to(
        texts(aliases@)[i],
        target@,
    ) == occurs_in(label, plain[i]) by {
        assert(texts(aliases@)[i] == aliases@[i]@);
        if reads_as(aliases@[i]@, plain[i]) {
            lemma_reads_as(aliases@[i]@, plain[i]);
        }
        law_first_label_decides(aliases@[i]@, target@);
    }
    if res {
        let i = choose|i: int|
            0 <= i < texts(aliases@).len() && leads_to(#[trigger] texts(aliases@)[i], target@);
        let r = plain[i];
        assert(occurs_in(label, r));
        let k = choose|k: int|
            0 <= k <= r.len() - label.len() && #[trigger] r.subrange(k, k + label.len()) == label;
        assert(r.take(k) + label + r.skip(k + label.len()) =~= r);
        assert(is_made_with(label, plain[i]));
    }
    if exists|i: int| 0 <= i < plain.len() && is_made_with(label, #[trigger] plain[i]) {
        let i = choose|i: int| 0 <= i < plain.len() && is_made_with(label, #[trigger] plain[i]);
        let r = plain[i];
        let (a, b) = choose|a: Seq<char>, b: Seq<char>| #[trigger] (a + label + b) == r;
        assert(r.subrange(a.len() as int, (a.len() + label.len()) as int) =~= label);
        assert(occurs_in(label, r));
        assert(leads_to(texts(aliases@)[i], target@));
    }
}

/// Whether a text is something, the part, and something.
pub open spec fn is_made_with(part: Seq<char>, s: Seq<char>) -> bool {
    exists|a: Seq<char>, b: Seq<char>| #[trigger] (a + part + b) == s
}

/// The record that the user is told to make is one of the name that is asked for the alias, and
/// points to the account's domain.
pub proof fn law_the_requested_record_is_asked_for(
    domain: &str,
    fulldomain: &str,
    asked: String,
    line: String,
)
    requires
        call_ensures(cname_query, (domain,), asked),
        call_ensures(cname_line, (domain, fulldomain), line),
    ensures
        line@ == asked@ + " IN CNAME "@ + fulldomain@ + "."@,
        asked@ == "_acme-challenge."@ + domain@ + "."@,
{
    reveal_strlit(".");
    reveal_strlit(" IN CNAME ");
    reveal_strlit(". IN CNAME ");
    assert(". IN CNAME "@ =~= "."@ + " IN CNAME "@);
    assert(line@ =~= asked@ + " IN CNAME "@ + fulldomain@ + "."@);
}

/// The address of a name server has a port: 53 if none is written. A version 6 address without
/// brackets gets them, since its colons are no sign of a port.
pub proof fn law_name_servers_have_a_port(ns: &str, res: String, a: Seq<char>, b: Seq<char>, c: Seq<char>)
    requires
        call_ensures(get_resolver, (ns,), res),
    ensures
        !ns@.contains(':') ==> res@ == ns@ + ":53"@,
        ns@ == a + seq![':'] + b && !a.contains(':') && !b.contains(':') && (ns@.last() != ']')
            ==> res@ == ns@,
        ns@ == a + seq![':'] + b && !a.contains(':') && !b.contains(':') && ns@.last() == ']'
            ==> res@ == ns@ + ":53"@,
        ns@ == a + seq![':'] + b + seq![':'] + c && !ns@.contains('[') ==> res@ == "["@ + ns@
            + "]:53"@,
        ns@.contains('[') && ns@.last() == ']' ==> res@ == ns@ + ":53"@,
        ns@.contains('[') && ns@.contains(':') && ns@.last() != ']' ==> res@ == ns@,
{
    lemma_count(ns@, ':');
    lemma_count(ns@, '[');
    lemma_count(a, ':');
    lemma_count(b, ':');
    if ns@ == a + seq![':'] + b {
        law_occurrences_add_up(a + seq![':'], b, ':', ':');
        law_occurrences_add_up(a, seq![':'], ':', ':');
    }
    if ns@ == a + seq![':'] + b + seq![':'] + c {
        law_occurrences_add_up(a + seq![':'] + b + seq![':'], c, ':', ':');
        law_occurrences_add_up(a + seq![':'] + b, seq![':'], ':', ':');
        law_occurrences_add_up(a + seq![':'], b, ':', ':');
        law_occurrences_add_up(a, seq![':'], ':', ':');
    }
}

/// A character occurs in a text that holds it, and only there.
proof fn lemma_count(s: Seq<char>, c: char)
    ensures
        count_of(s, c) > 0 <==> s.contains(c),
    decreases s.len(),
{
    reveal(Seq::filter);
    if s.len() > 0 {
        lemma_count(s.drop_last(), c);
        if s.contains(c) {
            let i = s.index_of(c);
            if i < s.len() - 1 {
                assert(s.drop_last()[i] == c);
            }
        }
        if s.drop_last().contains(c) {
            let i = s.drop_last().index_of(c);
            assert(s[i] == c);
        }
        if s.last() == c {
            assert(s[s.len() - 1] == c);
        }
    }
}

/// The mark of a wildcard is taken out of a domain wherever it first stands, and out of what is
/// behind it; a domain without one stays as it is.
pub proof fn law_wildcards_are_taken_out(domain: &str, res: String, a: Seq<char>, b: Seq<char>)
    requires
        call_ensures(clean_domain, (domain,), res),
        forall|x: Seq<char>, y: Seq<char>| #[trigger] (x + "*."@ + y) != a,
    ensures
        domain@ == a ==> res@ == a,
        domain@ == a + "*."@ + b ==> res@ == a + clean(b),
{
    reveal_strlit("*.");
    law_removal(a, "*."@);
    lemma_clean_behind(a, b);
}

proof fn lemma_clean_behind(a: Seq<char>, b: Seq<char>)
    requires
        forall|x: Seq<char>, y: Seq<char>| #[trigger] (x + "*."@ + y) != a,
    ensures
        clean(a + "*."@ + b) == a + clean(b),
    decreases a.len(),
{
    reveal_strlit("*.");
    let m = "*."@;
    let s = a + m + b;
    if a.len() == 0 {
        assert(s =~= m + b);
        law_removal(b, m);
        assert(a + clean(b) =~= clean(b));
    } else {
        let r = a.drop_first();
        assert forall|x: Seq<char>, y: Seq<char>| #[trigger] (x + m + y) != r by {
            if x + m + y == r {
                assert(seq![a[0]] + r =~= a);
                assert((seq![a[0]] + x) + m + y =~= seq![a[0]] + (x + m + y));
            }
        }
        lemma_clean_behind(r, b);
        assert(s.drop_first() =~= r + m + b);
        if s.take(2) == m {
            assert(s.take(2)[0] == a[0] && s.take(2)[1] == s[1]);
            if a.len() > 1 {
                assert(Seq::<char>::empty() + m + a.skip(2) =~= a);
            } else {
                assert(s[1] == '*');
            }
        }
        assert(seq![a[0]] + (r + clean(b)) =~= a + clean(b));
    }
}

/// What was kept of a domain is found again, what was taken away is not, and other domains keep
/// what they have. Nothing is found in new accounts.
pub proof fn law_kept_accounts_are_found(
    key: &str,
    s: &mut Storage,
    t: &mut Storage,
    fresh: Storage,
    domain: String,
    account: Account,
    other: &str,
    done: (),
    had: bool,
    in_fresh: Option<&Account>,
    before: Option<&Account>,
    kept: Option<&Account>,
    kept_other: Option<&Account>,
    gone: Option<&Account>,
    gone_other: Option<&Account>,
)
    requires
        key@ == domain@,
        call_ensures(Storage::new, (), fresh),
        call_ensures(Storage::get, (&fresh, other), in_fresh),
        old(s).wf(),
        call_ensures(Storage::get, (&*old(s), other), before),
        call_ensures(Storage::insert, (s, domain, account), done),
        call_ensures(Storage::get, (&*final(s), key), kept),
        call_ensures(Storage::get, (&*final(s), other), kept_other),
        *old(t) == *final(s),
        call_ensures(Storage::remove, (t, key), had),
        call_ensures(Storage::get, (&*final(t), key), gone),
        call_ensures(Storage::get, (&*final(t), other), gone_other),
    ensures
        in_fresh is None,
        kept == Some(&account),
        other@ != domain@ ==> kept_other == before && gone_other == before,
        had,
        gone is None,
{
}

/// Accounts are found under the domain of the entry that they stand in, and under no other.
pub proof fn law_accounts_are_those_of_the_entries(
    s: Storage,
    domain: &str,
    got: Option<&Account>,
    i: int,
)
    requires
        s.wf(),
        call_ensures(Storage::get, (&s, domain), got),
    ensures
        0 <= i < s.entries@.len() && s.entries@[i].domain@ == domain@ ==> got == Some(
            &s.entries@[i].account,
        ),
        got is Some ==> exists|k: int|
            0 <= k < s.entries@.len() && (#[trigger] s.entries@[k]).domain@ == domain@,
{
    if 0 <= i < s.entries@.len() {
        lemma_entry(s.entries@, i);
    }
    if got is Some {
        let k = choose|k: int| is_entry(s.entries@, domain@, k);
        assert(s.entries@[k].domain@ == domain@);
    }
}

/// The networks that the user named are the texts between commas, without the white space around
/// them; none if nothing was named.
pub proof fn law_networks_stand_between_commas(
    key: &str,
    one: String,
    more: String,
    several: String,
    first: Seq<char>,
    none: Vec<String>,
    of_one: Vec<String>,
    of_more: Vec<String>,
    of_several: Vec<String>,
    piece: String,
)
    requires
        key@ == one@,
        call_ensures(allow_list, (&None::<String>,), none),
        call_ensures(allow_list, (&Some(one),), of_one),
        call_ensures(allow_list, (&Some(more),), of_more),
        call_ensures(allow_list, (&Some(several),), of_several),
        call_ensures(trim, (key,), piece),
        !one@.contains(','),
        several@ == one@ + seq![','] + more@,
    ensures
        none@.len() == 0,
        texts(of_one@) == seq![piece@],
        texts(of_several@) == seq![piece@] + texts(of_more@),
{
    law_pieces(one@, ',', more@);
    let f = |p: Seq<char>| trimmed(p);
    assert(texts(none@).len() == 0);
    assert(trimmed_pieces(one@, ',') =~= seq![trimmed(one@)]);
    assert((seq![one@] + pieces(more@, ',')).map_values(f) =~= seq![trimmed(one@)] + pieces(
        more@,
        ',',
    ).map_values(f));
}

/// Who is asked for the records of a domain: each name server of its zone, in order, the one that
/// the user named, if they did, and public ones last.
pub proof fn law_resolvers_are_asked_in_order(
    servers: &Vec<Ip>,
    custom: Option<String>,
    res: Inquiry,
)
    requires
        call_ensures(check_cname_authoritative, (servers, custom), res),
    ensures
        res.asked == 0,
        !res.found,
        res.resolvers@.len() == servers@.len() + (if custom is Some {
            2nat
        } else {
            1nat
        }),
        forall|i: int|
            0 <= i < servers@.len() ==> #[trigger] res.resolvers@[i] == Resolver::Authoritative(
                servers@[i],
            ),
        custom is Some ==> (res.resolvers@[servers@.len() as int] matches Resolver::Custom(a) && a@
            == custom->Some_0@),
        res.resolvers@.last() is Public,
{
    let v = res.resolvers@.map_values(|r: Resolver| r@);
    assert(v.len() == res.resolvers@.len());
    assert forall|i: int| 0 <= i < servers@.len() implies #[trigger] res.resolvers@[i]
        == Resolver::Authoritative(servers@[i]) by {
        assert(v[i] == ResolverView::Authoritative(servers@[i]));
        assert(v[i] == res.resolvers@[i]@);
    }
    assert(v[v.len() - 1] == res.resolvers@.last()@);
    if custom is Some {
        assert(v[servers@.len() as int] == res.resolvers@[servers@.len() as int]@);
    }
}

/// An inquiry asks the next one as long as none knew of the records, and goes on behind it.
pub proof fn law_inquiry_goes_one_by_one(
    s: &mut Inquiry,
    found: bool,
    done: (),
    asked: Option<&Resolver>,
)
    requires
        call_ensures(Inquiry::next, (&*old(s),), asked),
        old(s).is_open(),
        call_ensures(Inquiry::reply, (s, found), done),
    ensures
        asked == Some(&old(s).resolvers@[old(s).asked as int]),
        !old(s).found,
        final(s).resolvers@ == old(s).resolvers@,
        final(s).asked == old(s).asked + 1,
        final(s).found == found,
{
}

/// An account is asked for only for a domain that has none, and at the public server only where that
/// is confirmed.
pub proof fn law_accounts_are_not_asked_for_carelessly(
    key: &str,
    storage: &Storage,
    domain: &str,
    server: &str,
    dangerous: bool,
    name: String,
    held: Option<&Account>,
    res: Registering,
)
    requires
        key@ == name@,
        storage.wf(),
        call_ensures(clean_domain, (domain,), name),
        call_ensures(Storage::get, (storage, key), held),
        call_ensures(start_register, (storage, domain, server, dangerous), res),
    ensures
        res is Known <==> held is Some,
        res is Ask <==> held is None && (dangerous || server@ != "https://auth.acme-dns.io"@),
        res is Unconfirmed <==> held is None && !dangerous && server@
            == "https://auth.acme-dns.io"@,
{
}

/// The hook writes with the account of the domain if it has one: the challenge, or nothing once the
/// validation is over. Where it has none, an account is asked for only while the validation goes on,
/// and at the public server only where that is confirmed; else it fails.
pub proof fn law_hook_writes_with_the_account(
    key: &str,
    storage: &Storage,
    domain: &str,
    validation: &str,
    cleanup: bool,
    server: &str,
    dangerous: bool,
    name: String,
    held: Option<&Account>,
    res: Hook,
)
    requires
        key@ == name@,
        storage.wf(),
        call_ensures(clean_domain, (domain,), name),
        call_ensures(Storage::get, (storage, key), held),
        call_ensures(start_hook, (storage, domain, validation, cleanup, server, dangerous), res),
    ensures
        res is Update <==> held is Some,
        res matches Hook::Update { domain: d, account, txt } ==> {
            let a = *held->Some_0;
            &&& d@ == name@
            &&& account.username@ == a.username@
            &&& account.password@ == a.password@
            &&& account.fulldomain@ == a.fulldomain@
            &&& account.subdomain@ == a.subdomain@
            &&& account.server_url@ == a.server_url@
            &&& texts(account.allow@) == texts(a.allow@)
            &&& !cleanup ==> txt@ == validation@
            &&& cleanup ==> txt@.len() == 0
        },
        res is Register <==> held is None && !cleanup && (dangerous || server@
            != "https://auth.acme-dns.io"@),
        res matches Hook::Register { domain: d } ==> d@ == name@,
        res matches Hook::Fail(m) ==> m@ == "Error: No acme-dns account registered for domain '"@
            + name@ + "' in storage."@,
{
}

/// An account that the hook was given is kept under the domain, and the challenge is then written
/// with it.
pub proof fn law_hook_keeps_the_account(
    key: &str,
    s: &mut Storage,
    domain: String,
    account: Account,
    validation: &str,
    res: Hook,
    kept: Option<&Account>,
)
    requires
        key@ == domain@,
        old(s).wf(),
        call_ensures(hook_registered, (s, domain, account, validation), res),
        call_ensures(Storage::get, (&*final(s), key), kept),
    ensures
        kept == Some(&account),
        res matches Hook::Update { domain: d, account: a, txt } && d@ == domain@ && txt@
            == validation@ && a.username@ == account.username@ && a.password@ == account.password@
            && a.subdomain@ == account.subdomain@ && a.server_url@ == account.server_url@,
{
}

/// A challenge is waited for ten seconds, and its removal not at all. Requests go to the server's
/// own address.
pub proof fn law_requests_go_to_the_server(
    server: &str,
    update: String,
    register: String,
    while_on: u64,
    when_over: u64,
)
    requires
        call_ensures(update_url, (server,), update),
        call_ensures(register_url, (server,), register),
        call_ensures(hook_wait, (false,), while_on),
        call_ensures(hook_wait, (true,), when_over),
    ensures
        update@ == server@ + "/update"@,
        register@ == server@ + "/register"@,
        while_on == 10,
        when_over == 0,
{
}

/// An answer in ASCII means no only if it is an `n`, and yes only if it is a `y`, small or capital,
/// with white space around it or without.
pub proof fn law_answers(input: &str, bare: String, watch: bool, caa: bool)
    requires
        call_ensures(trim, (input,), bare),
        call_ensures(wants_monitoring, (input,), watch),
        call_ensures(wants_caa, (input,), caa),
        forall|i: int| 0 <= i < bare@.len() ==> (#[trigger] bare@[i] as u32) < 128,
    ensures
        !watch <==> bare@ == seq!['n'] || bare@ == seq!['N'],
        caa <==> bare@ == seq!['y'] || bare@ == seq!['Y'],
{
    reveal_strlit("n");
    reveal_strlit("y");
    assert("n"@ =~= seq!['n'] && "y"@ =~= seq!['y']);
    let l = lowercase(bare@);
    assert(l.len() == bare@.len());
    if l.len() == 1 {
        let c = bare@[0];
        assert(l[0] == crate::text::ascii_lower(c));
        assert(bare@ =~= seq![c]);
        assert(l =~= seq![crate::text::ascii_lower(c)]);
        assert('N' as u32 == 78 && 'Y' as u32 == 89 && 'n' as u32 == 110 && 'y' as u32 == 121);
        assert(crate::text::ascii_lower(c) == 'n' <==> c == 'n' || c == 'N');
        assert(crate::text::ascii_lower(c) == 'y' <==> c == 'y' || c == 'Y');
        assert(seq![crate::text::ascii_lower(c)][0] == crate::text::ascii_lower(c));
        assert(seq![c][0] == c);
        assert(seq!['n'][0] == 'n' && seq!['N'][0] == 'N' && seq!['y'][0] == 'y' && seq!['Y'][0]
            == 'Y');
    }
}

/// Setting up a domain: the alias is asked about unless it is there, watched unless the user says
/// no, and left only once it is there; authorities come after, and their record is watched only if
/// the user says yes and it can be, and left only once it is there.
pub proof fn law_setting_up(
    key: &str,
    step: Step,
    event: Event,
    watchable: bool,
    domain: &str,
    res: (Step, Vec<String>),
    watch: bool,
    caa: bool,
)
    requires
        call_ensures(advance, (step, &event, watchable, domain), res),
        event matches Event::Answered(input) ==> key@ == input@ && call_ensures(
            wants_monitoring,
            (key,),
            watch,
        ) && call_ensures(wants_caa, (key,), caa),
    ensures
        step is FirstCheck && event == Event::Looked(false) ==> res.0 is AskMonitoring,
        step is FirstCheck && event == Event::Looked(true) ==> res.0 is AskCaa,
        step is AskMonitoring && event is Answered ==> res.0 == (if watch {
            Step::WatchAlias
        } else {
            Step::AskCaa
        }),
        step is WatchAlias ==> res.0 == (if event == Event::Looked(true) {
            Step::AskCaa
        } else {
            Step::WatchAlias
        }),
        step is AskCaa && event is Answered ==> res.0 == (if caa && watchable {
            Step::WatchCaa
        } else {
            Step::Done
        }),
        step is WatchCaa ==> res.0 == (if event == Event::Looked(true) {
            Step::Done
        } else {
            Step::WatchCaa
        }),
        step is Done ==> res.0 is Done,
        step is FirstCheck && event is Answered ==> res.0 == step,
        (step is AskMonitoring || step is AskCaa) && event is Looked ==> res.0 == step,
        res.0 == step && !(event is Answered) ==> res.1@.len() == 0,
{
    assert(texts(res.1@).len() == res.1@.len());
}

/// The user is shown two records that name the one authority, for the domain and for names below
/// it, and in the list of accounts whether the alias of each is right.
pub proof fn law_shown_lines(
    domain: &str,
    fulldomain: &str,
    caa: Vec<String>,
    right: String,
    wrong: String,
)
    requires
        call_ensures(caa_lines, (domain,), caa),
        call_ensures(account_line, (domain, true, fulldomain), right),
        call_ensures(account_line, (domain, false, fulldomain), wrong),
    ensures
        texts(caa@) == seq![
            domain@
                + ".         IN    CAA    0 issue \"letsencrypt.org; validationmethods=dns-01\""@,
            domain@
                + ".         IN    CAA    0 issuewild \"letsencrypt.org; validationmethods=dns-01\""@,
        ],
        right@ == "- "@ + padded(domain@, 30) + " [Status: "@ + "OK"@ + "] Target: "@ + fulldomain@,
        wrong@ == "- "@ + padded(domain@, 30) + " [Status: "@ + "CNAME_MISMATCH"@ + "] Target: "@
            + fulldomain@,
{
}

/// An account is what the server gave, with the networks and the server that it was asked for; a copy
/// of it says the same.
pub proof fn law_accounts_are_what_was_given(
    response: RegisterResponse,
    allow: Vec<String>,
    server: &str,
    res: Account,
    again: Account,
)
    requires
        call_ensures(account_from, (response, allow, server), res),
        call_ensures(Account::copy, (&res,), again),
    ensures
        res.username@ == response.username@,
        res.password@ == response.password@,
        res.fulldomain@ == response.fulldomain@,
        res.subdomain@ == response.subdomain@,
        res.allow@ == allow@,
        res.server_url@ == server@,
        again.username@ == res.username@,
        again.password@ == res.password@,
        again.fulldomain@ == res.fulldomain@,
        again.subdomain@ == res.subdomain@,
        texts(again.allow@) == texts(res.allow@),
        again.server_url@ == res.server_url@,
{
}

/// What the user is told on the way: that the alias is right, that it is waited for or not and how to
/// look later, that it was found, which records of authorities to make, and that one was found.
pub proof fn law_what_the_user_is_told(
    step: Step,
    event: Event,
    key: &str,
    watchable: bool,
    domain: &str,
    res: (Step, Vec<String>),
    watch: bool,
    caa: bool,
    records: Vec<String>,
)
    requires
        call_ensures(advance, (step, &event, watchable, domain), res),
        call_ensures(caa_lines, (domain,), records),
        event matches Event::Answered(input) ==> key@ == input@ && call_ensures(
            wants_monitoring,
            (key,),
            watch,
        ) && call_ensures(wants_caa, (key,), caa),
    ensures
        step is FirstCheck && event == Event::Looked(true) ==> texts(res.1@) == seq![
            "CNAME record seems to already be set up correctly, you are good to go!"@,
        ],
        step is AskMonitoring && event is Answered && watch ==> texts(res.1@) == seq![
            "\nWaiting for CNAME record propagation..."@,
        ],
        step is AskMonitoring && event is Answered && !watch ==> texts(res.1@) == seq![
            "\nSkipping CNAME monitoring. You can check it later using: acme-dns-client-rust check -d "@
                + domain@,
        ],
        step is WatchAlias && event == Event::Looked(true) ==> texts(res.1@) == seq![
            "\nCNAME propagation verified successfully!"@,
        ],
        step is AskCaa && event is Answered && !caa ==> texts(res.1@) == seq![
            "Skipping CAA record setup."@,
        ],
        step is AskCaa && event is Answered && caa && !watchable ==> texts(res.1@) == seq![
            "\nExample CAA records to add to your DNS zone:"@,
        ] + texts(records@),
        step is AskCaa && event is Answered && caa && watchable ==> texts(res.1@) == seq![
            "\nExample CAA records to add to your DNS zone:"@,
        ] + texts(records@) + seq!["\nWaiting for CAA record creation (checking every 15s)..."@],
        step is WatchCaa && event == Event::Looked(true) ==> texts(res.1@) == seq![
            "\nCAA record detected successfully!"@,
        ],
{
    if step is AskCaa && event is Answered && caa && !watchable {
        assert(texts(res.1@) =~= seq!["\nExample CAA records to add to your DNS zone:"@] + texts(
            records@,
        ));
    }
}

/// The file of accounts is its owner's alone, the public server is asked if no other is named, and
/// the DNS is looked at every quarter of a minute.
pub proof fn law_defaults_of_the_client(file: &'static str, server: &'static str, d: &str, v: &str, hook: bool)
    requires
        call_ensures(default_storage, (), file),
        call_ensures(public_acme_dns, (), server),
        call_ensures(is_hook, (d, v), hook),
    ensures
        file@ == "/etc/acmedns/clientstorage.json"@,
        server@ == "https://auth.acme-dns.io"@,
        hook <==> d@.len() > 0 && v@.len() > 0,
        STORAGE_MODE == 0o600,
        CHECK_PERIOD == 15,
{
}

} // verus!
