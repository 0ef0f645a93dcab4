//! The HTTP interface: who is asking, what is refused, and what is replied.

use vstd::prelude::*;

use crate::auth::{
    bcrypt_matches, correct_password, dummy_verify, is_acme_token, is_valid_acme_token,
};
use crate::config::Api;
use crate::db::{is_registration, DbPool, Record, Registration};
use crate::limit::{IpRateLimiter, RegisterLimiter};
use crate::net::{cidr_parse, ip_parse, lemma_holds, lies_in, parse_cidr, parse_ip, Ip};
use crate::text::{
    concat, copied, decimal, decimal_of, law_pieces, pieces, same, split, texts, trim, trimmed,
};

verus! {

/// How many bytes the body of a request may have.
pub const BODY_LIMIT: usize = 1024;

/// For how many seconds clients are told to use HTTPS only, if nothing else is configured.
pub const HSTS_MAX_AGE: u32 = 31_536_000;

/// How often the limiters forget idle addresses, in seconds.
pub const EVICTION_PERIOD: u64 = 60;

/// A reply to a request.
#[derive(Debug, Clone)]
pub enum Reply {
    /// A status without a body.
    Status(u16),
    /// A status and what is wrong.
    Error(u16, String),
    /// A new account.
    Registered {
        /// The user name.
        username: String,
        /// The password.
        password: String,
        /// The domain that the account's challenges are pointed to.
        fulldomain: String,
        /// The subdomain that the account may write to.
        subdomain: String,
        /// The networks that the account may be used from.
        allowfrom: Vec<String>,
    },
    /// A challenge token that was written.
    Updated {
        /// The token.
        txt: String,
    },
}

/// Whether a reply is a bare status.
pub open spec fn is_status(r: Reply, status: u16) -> bool {
    r matches Reply::Status(s) && s == status
}

/// Whether a reply is a complaint.
pub open spec fn is_error(r: Reply, status: u16, message: Seq<char>) -> bool {
    r matches Reply::Error(s, m) && s == status && m@ == message
}

impl Reply {
    /// The status of the reply: an account was created, a token was written, or what it says.
    pub fn status(&self) -> (res: u16)
        ensures
            res == (match *self {
                Reply::Status(s) => s,
                Reply::Error(s, _) => s,
                Reply::Registered { .. } => 201,
                Reply::Updated { .. } => 200,
            }),
    {
        match self {
            Reply::Status(s) => *s,
            Reply::Error(s, _) => *s,
            Reply::Registered { .. } => 201,
            Reply::Updated { .. } => 200,
        }
    }
}

/// Whether an address lies in one of the networks that the texts denote. A text that denotes none
/// holds no address.
pub open spec fn is_within(networks: Seq<Seq<char>>, ip: Ip) -> bool {
    exists|i: int|
        0 <= i < networks.len() && cidr_parse(#[trigger] networks[i]) is Some && cidr_parse(
            networks[i],
        )->0.holds(ip)
}

/// Decides [`is_within`].
pub fn within(networks: &Vec<String>, ip: Ip) -> (res: bool)
    ensures
        res == is_within(texts(networks@), ip),
{
    let ghost all = texts(networks@);
    let mut i: usize = 0;
    while i < networks.len()
        invariant
            i <= networks@.len(),
            all == texts(networks@),
            forall|k: int|
                0 <= k < i ==> !(cidr_parse(#[trigger] all[k]) is Some && cidr_parse(
                    all[k],
                )->0.holds(ip)),
        decreases networks@.len() - i,
    {
        assert(all[i as int] == networks@[i as int]@);
        if let Some(net) = parse_cidr(networks[i].as_str()) {
            if net.contains(ip) {
                return true;
            }
        }
        i = i + 1;
    }
    false
}

/// The address that a header names: its first item.
pub open spec fn named_ip(header: Option<String>) -> Option<Ip> {
    match header {
        Some(h) => ip_parse(trimmed(pieces(h@, ',')[0])),
        None => None,
    }
}

/// Whether a connection comes from a proxy whose header is believed.
pub open spec fn is_trusted(api: Api, connected: Option<Ip>) -> bool {
    &&& api.use_header
    &&& connected is Some
    &&& is_within(texts(api.trusted_proxies@), connected->0)
}

/// The address of the client: the one that the header names, where the connection comes from a
/// trusted proxy and the header names one; else that of the connection.
pub open spec fn client_ip(api: Api, connected: Option<Ip>, header: Option<String>) -> Option<Ip> {
    if is_trusted(api, connected) && named_ip(header) is Some {
        named_ip(header)
    } else {
        connected
    }
}

/// The address of the client, from that of the connection and the configured header.
pub fn extract_client_ip(api: &Api, connected: Option<Ip>, header: &Option<String>) -> (res: Option<
    Ip,
>)
    ensures
        res == client_ip(*api, connected, *header),
{
    if api.use_header {
        let trusted = match connected {
            Some(ip) => within(&api.trusted_proxies, ip),
            None => false,
        };
        if trusted {
            if let Some(h) = header {
                let items = split(h.as_str(), ',');
                assert(texts(items@)[0] == items@[0]@);
                let first = trim(items[0].as_str());
                if let Some(ip) = parse_ip(first.as_str()) {
                    return Some(ip);
                }
            }
        }
    }
    connected
}

/// The address that limits are counted for: where none is known, that of all zeros.
pub open spec fn counted_ip(api: Api, connected: Option<Ip>, header: Option<String>) -> Ip {
    match client_ip(api, connected, header) {
        Some(ip) => ip,
        None => Ip::V4(0),
    }
}

/// The address that limits are counted for.
fn count_for(api: &Api, connected: Option<Ip>, header: &Option<String>) -> (res: Ip)
    ensures
        res == counted_ip(*api, connected, *header),
{
    match extract_client_ip(api, connected, header) {
        Some(ip) => ip,
        None => Ip::V4(0),
    }
}

/// Counts a request that comes at `now`. The reply to it is `Some` if there were too many.
pub fn rate_limiting_middleware(
    limiter: &mut IpRateLimiter,
    api: &Api,
    connected: Option<Ip>,
    header: &Option<String>,
    now: u64,
) -> (res: Option<Reply>)
    requires
        old(limiter).wf(),
    ensures
        final(limiter).wf(),
        ({
            let ip = counted_ip(*api, connected, *header);
            let bucket = old(limiter).bucket(ip, now);
            &&& bucket.admits(now) ==> res is None
            &&& !bucket.admits(now) ==> (res matches Some(r) && is_status(r, 429))
            &&& final(limiter)@ == old(limiter)@.insert(
                crate::limit::key_of(ip),
                (bucket.after(now).tokens, bucket.after(now).last_update),
            )
        }),
{
    let ip = count_for(api, connected, header);
    if limiter.check(ip, now) {
        None
    } else {
        Some(Reply::Status(429))
    }
}

/// What can be asked for.
#[derive(Debug, Clone, Copy, PartialEq, Eq, Structural)]
pub enum Route {
    /// Whether the server is alive.
    Health,
    /// How much it was used.
    Metrics,
    /// A new account.
    Register,
    /// A new challenge token.
    Update,
}

/// The path of a route.
pub open spec fn path_of(r: Route) -> Seq<char> {
    match r {
        Route::Health => "/health"@,
        Route::Metrics => "/metrics"@,
        Route::Register => "/register"@,
        Route::Update => "/update"@,
    }
}

impl Route {
    /// The path of the route.
    pub fn path(&self) -> (res: &'static str)
        ensures
            res@ == path_of(*self),
    {
        match self {
            Route::Health => "/health",
            Route::Metrics => "/metrics",
            Route::Register => "/register",
            Route::Update => "/update",
        }
    }

    /// Whether the route changes something, and so is asked with `POST` and not with `GET`.
    pub fn is_post(&self) -> (res: bool)
        ensures
            res == (*self is Register || *self is Update),
    {
        match self {
            Route::Register | Route::Update => true,
            _ => false,
        }
    }

    /// Whether the route asks for an account.
    pub fn is_protected(&self) -> (res: bool)
        ensures
            res == (*self is Update),
    {
        match self {
            Route::Update => true,
            _ => false,
        }
    }
}

/// The origins that scripts may call from.
#[derive(Debug, Clone)]
pub enum Origins {
    /// Any.
    Any,
    /// These.
    Listed(Vec<String>),
}

/// How requests are routed.
#[derive(Debug, Clone)]
pub struct Router {
    /// What can be asked for.
    pub routes: Vec<Route>,
    /// The origins that scripts may call from.
    pub origins: Origins,
    /// The header that tells clients to use HTTPS only, if it is sent.
    pub hsts: Option<String>,
}

/// What can be asked for under a configuration: accounts are not given out where registration is
/// switched off.
pub open spec fn routes_of(api: Api) -> Seq<Route> {
    if api.disable_registration {
        seq![Route::Health, Route::Metrics, Route::Update]
    } else {
        seq![Route::Health, Route::Metrics, Route::Register, Route::Update]
    }
}

/// Whether `origins` are those of a configuration: any if a star is listed, else those listed.
pub open spec fn are_origins(api: Api, origins: Origins) -> bool {
    if texts(api.corsorigins@).contains("*"@) {
        origins is Any
    } else {
        origins matches Origins::Listed(v) && texts(v@) == texts(api.corsorigins@)
    }
}

/// The header that tells clients to use HTTPS only.
pub open spec fn hsts_text(api: Api) -> Seq<char> {
    let age = match api.hsts_max_age {
        Some(n) => n,
        None => HSTS_MAX_AGE,
    };
    "max-age="@ + decimal_of(age as nat) + (if api.hsts_include_subdomains {
        "; includeSubDomains"@
    } else {
        Seq::empty()
    }) + (if api.hsts_preload {
        "; preload"@
    } else {
        Seq::empty()
    })
}

/// Writes the header that tells clients to use HTTPS only.
fn write_hsts(api: &Api) -> (res: String)
    ensures
        res@ == hsts_text(*api),
{
    let age: u32 = match api.hsts_max_age {
        Some(n) => n,
        None => HSTS_MAX_AGE,
    };
    let mut res = concat("max-age=", decimal(age as u64).as_str());
    if api.hsts_include_subdomains {
        res.append("; includeSubDomains");
    }
    if api.hsts_preload {
        res.append("; preload");
    }
    assert(res@ =~= hsts_text(*api));
    res
}

/// Whether a star is listed.
fn has_star(origins: &Vec<String>) -> (res: bool)
    ensures
        res == texts(origins@).contains("*"@),
{
    let ghost all = texts(origins@);
    let mut i: usize = 0;
    while i < origins.len()
        invariant
            i <= origins@.len(),
            all == texts(origins@),
            forall|k: int| 0 <= k < i ==> #[trigger] all[k] != "*"@,
        decreases origins@.len() - i,
    {
        assert(all[i as int] == origins@[i as int]@);
        if same(origins[i].as_str(), "*") {
            return true;
        }
        i = i + 1;
    }
    false
}

/// How requests are routed under a configuration.
pub fn create_router(api: &Api) -> (res: Router)
    ensures
        res.routes@ == routes_of(*api),
        are_origins(*api, res.origins),
        match res.hsts {
            Some(h) => api.hsts_enabled && h@ == hsts_text(*api),
            None => !api.hsts_enabled,
        },
{
    let mut routes: Vec<Route> = Vec::new();
    routes.push(Route::Health);
    routes.push(Route::Metrics);
    if !api.disable_registration {
        routes.push(Route::Register);
    }
    routes.push(Route::Update);
    let origins = if has_star(&api.corsorigins) {
        Origins::Any
    } else {
        Origins::Listed(copied(&api.corsorigins))
    };
    let hsts = if api.hsts_enabled {
        Some(write_hsts(api))
    } else {
        None
    };
    Router { routes, origins, hsts }
}

/// The server is alive.
pub fn health_check() -> (res: Reply)
    ensures
        is_status(res, 200),
{
    Reply::Status(200)
}

/// What is asked for with a new account.
#[derive(Debug, Clone)]
pub struct RegisterRequest {
    /// The networks that the account may be used from.
    pub allowfrom: Option<Vec<String>>,
}

/// What is asked for with a new challenge token.
#[derive(Debug, Clone)]
pub struct UpdateRequest {
    /// The subdomain.
    pub subdomain: String,
    /// The token.
    pub txt: String,
}

/// A new account that is not stored yet.
#[derive(Debug, Clone)]
pub struct Pending {
    /// The account.
    pub account: Registration,
    /// The networks that it may be used from.
    pub allow_from: Vec<String>,
}

/// Counts a request for an account that comes at `now`. The reply to it is `Some` if the last one
/// was too short ago.
pub fn limit_registration(
    limiter: &mut RegisterLimiter,
    api: &Api,
    connected: Option<Ip>,
    header: &Option<String>,
    now: u64,
) -> (res: Option<Reply>)
    ensures
        ({
            let ip = counted_ip(*api, connected, *header);
            let per_min = api.register_rate_limit_per_min;
            let soon = old(limiter).too_soon(per_min, ip, now);
            &&& !soon ==> res is None
            &&& soon ==> (res matches Some(r) && is_status(r, 429))
            &&& final(limiter)@ == (if crate::limit::register_gap(per_min) > 0 && !soon {
                old(limiter)@.insert(crate::limit::key_of(ip), (0, now))
            } else {
                old(limiter)@
            })
        }),
{
    let ip = count_for(api, connected, header);
    if limiter.allow(api.register_rate_limit_per_min, ip, now) {
        None
    } else {
        Some(Reply::Status(429))
    }
}

/// The networks that a request for an account names.
pub open spec fn asked_networks(request: RegisterRequest) -> Seq<Seq<char>> {
    match request.allowfrom {
        Some(v) => texts(v@),
        None => Seq::empty(),
    }
}

/// Whether all the texts denote networks.
pub open spec fn are_networks(v: Seq<Seq<char>>) -> bool {
    forall|i: int| 0 <= i < v.len() ==> cidr_parse(#[trigger] v[i]) is Some
}

/// Decides [`are_networks`].
fn check_networks(v: &Vec<String>) -> (res: bool)
    ensures
        res == are_networks(texts(v@)),
{
    let ghost all = texts(v@);
    let mut i: usize = 0;
    while i < v.len()
        invariant
            i <= v@.len(),
            all == texts(v@),
            forall|k: int| 0 <= k < i ==> cidr_parse(#[trigger] all[k]) is Some,
        decreases v@.len() - i,
    {
        assert(all[i as int] == v@[i as int]@);
        if parse_cidr(v[i].as_str()).is_none() {
            return false;
        }
        i = i + 1;
    }
    true
}

/// The networks that a request for an account names, or the reply to it. The request is `None` if
/// its body was too long or malformed.
pub fn check_register(request: Option<RegisterRequest>) -> (res: Result<Vec<String>, Reply>)
    ensures
        match request {
            None => res matches Err(r) && is_status(r, 400),
            Some(q) => if are_networks(asked_networks(q)) {
                res matches Ok(v) && texts(v@) == asked_networks(q)
            } else {
                res matches Err(r) && is_error(r, 400, "invalid_allowfrom_cidr"@)
            },
        },
{
    let q = match request {
        Some(q) => q,
        None => {
            return Err(Reply::Status(400));
        },
    };
    let ghost asked = asked_networks(q);
    let allow_from = match q.allowfrom {
        Some(v) => v,
        None => Vec::new(),
    };
    assert(texts(allow_from@) =~= asked);
    if !check_networks(&allow_from) {
        return Err(Reply::Error(400, "invalid_allowfrom_cidr".to_owned()));
    }
    Ok(allow_from)
}

/// The account that was made for networks, or the reply if none could be made.
pub fn made_account(made: Result<Registration, String>, allow_from: Vec<String>) -> (res: Result<
    Pending,
    Reply,
>)
    ensures
        match made {
            Ok(account) => res == Ok::<Pending, Reply>(Pending { account, allow_from }),
            Err(e) => res matches Err(r) && is_error(r, 500, e@),
        },
{
    match made {
        Ok(account) => Ok(Pending { account, allow_from }),
        Err(e) => Err(Reply::Error(500, e)),
    }
}

/// Makes an account as a request asks, which is `None` if its body was too long or malformed. The
/// account is to be stored, and then replied with [`finish_register`]. Where there is no
/// randomness for it, the failure is replied.
pub fn register(pool: &DbPool, request: Option<RegisterRequest>) -> (res: Result<Pending, Reply>)
    ensures
        request is None ==> (res matches Err(r) && is_status(r, 400)),
        request matches Some(q) ==> (!are_networks(asked_networks(q)) ==> (res matches Err(r)
            && is_error(r, 400, "invalid_allowfrom_cidr"@))),
        request matches Some(q) ==> (are_networks(asked_networks(q)) ==> match res {
            Ok(p) => {
                &&& is_registration(*pool, asked_networks(q), p.account)
                &&& texts(p.allow_from@) == asked_networks(q)
            },
            Err(r) => r matches Reply::Error(s, m) && s == 500
                && "error with configuration: "@.is_prefix_of(m@),
        }),
{
    match check_register(request) {
        Ok(allow_from) => made_account(pool.register(&allow_from), allow_from),
        Err(r) => Err(r),
    }
}

/// The domain that an account's challenges are pointed to.
pub open spec fn full_domain(subdomain: Seq<char>, domain: Seq<char>) -> Seq<char> {
    subdomain + "."@ + domain
}

/// Whether a reply tells of an account that was stored.
pub open spec fn is_registered(domain: Seq<char>, pending: Pending, reply: Reply) -> bool {
    reply matches Reply::Registered { username, password, fulldomain, subdomain, allowfrom } && {
        &&& username == pending.account.username
        &&& password == pending.account.password
        &&& subdomain == pending.account.subdomain
        &&& fulldomain@ == full_domain(subdomain@, domain)
        &&& allowfrom == pending.allow_from
    }
}

/// The reply to a request for an account, once it was stored or, with `failure` saying why, was
/// not.
pub fn finish_register(domain: &str, pending: Pending, failure: Option<String>) -> (res: Reply)
    ensures
        match failure {
            Some(e) => is_error(res, 500, e@),
            None => is_registered(domain@, pending, res),
        },
{
    match failure {
        Some(e) => Reply::Error(500, e),
        None => {
            let start = concat(pending.account.subdomain.as_str(), ".");
            let fulldomain = concat(start.as_str(), domain);
            Reply::Registered {
                username: pending.account.username,
                password: pending.account.password,
                fulldomain,
                subdomain: pending.account.subdomain,
                allowfrom: pending.allow_from,
            }
        },
    }
}

/// The user name and the password of a request, where both are given; else the reply to it.
pub fn credentials(user: Option<String>, key: Option<String>) -> (res: Result<
    (String, String),
    Reply,
>)
    ensures
        user is Some && key is Some ==> (res matches Ok(t) && t.0 == user->0 && t.1 == key->0),
        user is None || key is None ==> (res matches Err(r) && is_status(r, 401)),
{
    match (user, key) {
        (Some(u), Some(k)) => Ok((u, k)),
        _ => Err(Reply::Status(401)),
    }
}

/// Whether a password and a client are those of an account: the password matches its hash, and
/// the client's address is known and lies in one of its networks, if it has any.
pub open spec fn is_authentic(
    api: Api,
    connected: Option<Ip>,
    header: Option<String>,
    key: Seq<char>,
    rec: Record,
) -> bool {
    &&& bcrypt_matches(key, rec.password_hash@) == Some(true)
    &&& rec.allow_from@.len() > 0 ==> {
        &&& client_ip(api, connected, header) is Some
        &&& is_within(texts(rec.allow_from@), client_ip(api, connected, header)->0)
    }
}

/// Lets a request through to the account that was found for its user name, or replies to it.
/// Where none was found, as much time is spent as a check of the password takes.
pub fn auth_middleware(
    api: &Api,
    connected: Option<Ip>,
    header: &Option<String>,
    key: &str,
    found: Option<Record>,
) -> (res: Result<Record, Reply>)
    ensures
        match found {
            Some(rec) => if is_authentic(*api, connected, *header, key@, rec) {
                res == Ok::<Record, Reply>(rec)
            } else {
                res matches Err(r) && is_status(r, 401)
            },
            None => res matches Err(r) && is_status(r, 401),
        },
{
    let rec = match found {
        Some(rec) => rec,
        None => {
            dummy_verify();
            return Err(Reply::Status(401));
        },
    };
    if !correct_password(key, rec.password_hash.as_str()) {
        return Err(Reply::Status(401));
    }
    if rec.allow_from.len() > 0 {
        let allowed = match extract_client_ip(api, connected, header) {
            Some(ip) => within(&rec.allow_from, ip),
            None => false,
        };
        if !allowed {
            return Err(Reply::Status(401));
        }
    }
    Ok(rec)
}

/// Whether a request may write a token: it is for the account's own subdomain and the token is
/// one.
pub open spec fn is_writable(rec: Record, request: UpdateRequest) -> bool {
    &&& request.subdomain@ == rec.subdomain@
    &&& is_acme_token(request.txt@)
}

/// What to write as a request asks, or the reply to it. `user` is the account that the request was
/// let through to, and the request is `None` if its body was too long or malformed. What is
/// written is then replied with [`finish_update`].
pub fn update(user: Option<Record>, request: Option<UpdateRequest>) -> (res: Result<
    UpdateRequest,
    Reply,
>)
    ensures
        user is None ==> (res matches Err(r) && is_status(r, 401)),
        user is Some && request is None ==> (res matches Err(r) && is_status(r, 400)),
        user is Some && request is Some && request->0.subdomain@ != user->0.subdomain@ ==> (
        res matches Err(r) && is_error(r, 400, "subdomain_mismatch"@)),
        user is Some && request is Some && request->0.subdomain@ == user->0.subdomain@
            && !is_acme_token(request->0.txt@) ==> (res matches Err(r) && is_error(
            r,
            400,
            "invalid_txt_value"@,
        )),
        user is Some && request is Some && is_writable(user->0, request->0) ==> res == Ok::<
            UpdateRequest,
            Reply,
        >(request->0),
{
    let rec = match user {
        Some(rec) => rec,
        None => {
            return Err(Reply::Status(401));
        },
    };
    let q = match request {
        Some(q) => q,
        None => {
            return Err(Reply::Status(400));
        },
    };
    if !same(q.subdomain.as_str(), rec.subdomain.as_str()) {
        return Err(Reply::Error(400, "subdomain_mismatch".to_owned()));
    }
    if !is_valid_acme_token(q.txt.as_str()) {
        return Err(Reply::Error(400, "invalid_txt_value".to_owned()));
    }
    Ok(q)
}

/// The reply to a request for a token, once it was written or could not be.
pub fn finish_update(txt: String, written: bool) -> (res: Reply)
    ensures
        written ==> (res matches Reply::Updated { txt: t } && t == txt),
        !written ==> is_error(res, 500, "db_error"@),
{
    if written {
        Reply::Updated { txt }
    } else {
        Reply::Error(500, "db_error".to_owned())
    }
}

/// A header from a connection that is not one of a trusted proxy changes nothing.
pub proof fn law_untrusted_header_is_ignored(api: Api, connected: Option<Ip>, header: Option<String>)
    requires
        !is_trusted(api, connected),
    ensures
        client_ip(api, connected, header) == connected,
        counted_ip(api, connected, header) == counted_ip(api, connected, None),
{
}

/// An account with networks is closed to a client whose address is not known, or that is in none
/// of them, even if its password is right.
pub proof fn law_networks_fail_closed(
    api: Api,
    connected: Option<Ip>,
    header: Option<String>,
    key: Seq<char>,
    rec: Record,
)
    requires
        rec.allow_from@.len() > 0,
        client_ip(api, connected, header) matches Some(ip) ==> !is_within(
            texts(rec.allow_from@),
            ip,
        ),
    ensures
        !is_authentic(api, connected, header, key, rec),
{
}

/// Networks that are none hold no address, so an account that has only such is closed to all.
pub proof fn law_malformed_networks_hold_nobody(networks: Seq<Seq<char>>, ip: Ip)
    requires
        forall|i: int| 0 <= i < networks.len() ==> cidr_parse(#[trigger] networks[i]) is None,
    ensures
        !is_within(networks, ip),
{
}

/// An account that reads back as it was made lets its own password in: from anywhere if it was
/// made without networks, else exactly from these.
pub proof fn law_account_lets_its_password_in(
    api: Api,
    connected: Option<Ip>,
    header: Option<String>,
    allow_from: Seq<Seq<char>>,
    password: Seq<char>,
    rec: Record,
)
    requires
        bcrypt_matches(password, rec.password_hash@) == Some(true),
        texts(rec.allow_from@) == allow_from,
    ensures
        is_authentic(api, connected, header, password, rec) <==> (allow_from.len() == 0 || (
        client_ip(api, connected, header) is Some && is_within(
            allow_from,
            client_ip(api, connected, header)->0,
        ))),
{
    assert(texts(rec.allow_from@).len() == rec.allow_from@.len());
}

/// A token that an account may write is one of its own subdomain, and is made of the characters
/// of Base64 for URLs.
pub proof fn law_only_tokens_are_written(rec: Record, request: UpdateRequest)
    requires
        is_writable(rec, request),
    ensures
        request.subdomain@ == rec.subdomain@,
        request.txt@.len() == 43,
        forall|i: int|
            0 <= i < 43 ==> crate::auth::is_token_char(#[trigger] request.txt@[i]),
{
}

/// Whether an address lies in one of the networks that the texts denote.
pub open spec fn lies_in_one(networks: Seq<String>, ip: Ip) -> bool {
    exists|i: int|
        0 <= i < networks.len() && cidr_parse((#[trigger] networks[i])@) is Some && lies_in(
            cidr_parse(networks[i]@)->Some_0,
            ip,
        )
}

/// Whether the networks that the texts denote have prefixes no longer than addresses.
pub open spec fn are_wf(networks: Seq<String>) -> bool {
    forall|i: int|
        0 <= i < networks.len() && cidr_parse((#[trigger] networks[i])@) is Some ==> cidr_parse(
            networks[i]@,
        )->Some_0.wf()
}

/// An address is within the networks if it lies in one of them.
proof fn lemma_within(networks: Seq<String>, ip: Ip)
    requires
        are_wf(networks),
    ensures
        is_within(texts(networks), ip) == lies_in_one(networks, ip),
{
    let all = texts(networks);
    if is_within(all, ip) {
        let i = choose|i: int|
            0 <= i < all.len() && cidr_parse(#[trigger] all[i]) is Some && cidr_parse(
                all[i],
            )->0.holds(ip);
        assert(all[i] == networks[i]@);
        lemma_holds(cidr_parse(all[i])->0, ip);
    }
    if lies_in_one(networks, ip) {
        let i = choose|i: int|
            0 <= i < networks.len() && cidr_parse((#[trigger] networks[i])@) is Some && lies_in(
                cidr_parse(networks[i]@)->Some_0,
                ip,
            );
        assert(all[i] == networks[i]@);
        lemma_holds(cidr_parse(all[i])->0, ip);
    }
}

/// An address is within networks if and only if it is one of the addresses of one of them.
pub proof fn law_within_one_network(networks: &Vec<String>, ip: Ip, res: bool)
    requires
        are_wf(networks@),
        call_ensures(within, (networks, ip), res),
    ensures
        res <==> lies_in_one(networks@, ip),
{
    lemma_within(networks@, ip);
}

/// A request is let through if and only if an account was found, the password matches the account's
/// hash, and either the account names no networks or the client's address is known and is one of the
/// addresses of one of them. It is let through to that account; any other is unauthorized.
pub proof fn law_who_is_let_through(
    api: Api,
    connected: Option<Ip>,
    header: Option<String>,
    key: &str,
    found: Option<Record>,
    client: Option<Ip>,
    res: Result<Record, Reply>,
)
    requires
        call_ensures(extract_client_ip, (&api, connected, &header), client),
        call_ensures(auth_middleware, (&api, connected, &header, key, found), res),
        found matches Some(rec) ==> are_wf(rec.allow_from@),
    ensures
        res is Ok <==> found is Some && bcrypt_matches(key@, found->Some_0.password_hash@) == Some(
            true,
        ) && (found->Some_0.allow_from@.len() == 0 || (client is Some && lies_in_one(
            found->Some_0.allow_from@,
            client->Some_0,
        ))),
        res is Ok ==> res->Ok_0 == found->Some_0,
        res is Err ==> res->Err_0 == Reply::Status(401),
{
    if found is Some && client is Some {
        lemma_within(found->Some_0.allow_from@, client->Some_0);
    }
}

/// A header is believed only if that is configured and the connection comes from one of the trusted
/// networks; its first item, up to a comma and without the white space around it, is then the
/// client's address if it is one. In every other case the client is the connection.
pub proof fn law_whose_address_counts(
    api: Api,
    connected: Option<Ip>,
    header: Option<String>,
    item: &str,
    rest: Seq<char>,
    bare: String,
    res: Option<Ip>,
)
    requires
        call_ensures(extract_client_ip, (&api, connected, &header), res),
        are_wf(api.trusted_proxies@),
        header matches Some(h) ==> !item@.contains(',') && (h@ == item@ || h@ == item@ + seq![',']
            + rest),
        call_ensures(trim, (item,), bare),
    ensures
        api.use_header && connected is Some && lies_in_one(
            api.trusted_proxies@,
            connected->Some_0,
        ) && header is Some && ip_parse(bare@) is Some ==> res == ip_parse(bare@),
        !api.use_header ==> res == connected,
        connected is None ==> res is None,
        connected is Some && !lies_in_one(api.trusted_proxies@, connected->Some_0) ==> res
            == connected,
        header is None ==> res == connected,
        ip_parse(bare@) is None ==> res == connected,
{
    if connected is Some {
        lemma_within(api.trusted_proxies@, connected->Some_0);
    }
    if header is Some {
        law_pieces(item@, ',', rest);
        assert(pieces(header->Some_0@, ',')[0] == item@);
    }
}

/// A request is counted for the client's address, or for one that stands for all that are not known,
/// as [`IpRateLimiter::check`] counts it; one too many is told so.
pub proof fn law_requests_are_counted(
    l: &mut IpRateLimiter,
    m: &mut IpRateLimiter,
    api: Api,
    connected: Option<Ip>,
    header: Option<String>,
    now: u64,
    client: Option<Ip>,
    ip: Ip,
    admitted: bool,
    res: Option<Reply>,
)
    requires
        old(l).wf(),
        *old(m) == *old(l),
        call_ensures(rate_limiting_middleware, (l, &api, connected, &header, now), res),
        call_ensures(extract_client_ip, (&api, connected, &header), client),
        ip == (match client {
            Some(c) => c,
            None => Ip::V4(0),
        }),
        call_ensures(IpRateLimiter::check, (m, ip, now), admitted),
    ensures
        res is None <==> admitted,
        res is Some ==> res->Some_0 == Reply::Status(429),
        final(l)@ == final(m)@,
{
}

/// A registration is counted likewise, as [`RegisterLimiter::allow`] counts it with the configured
/// number per minute.
pub proof fn law_registrations_are_counted(
    l: &mut RegisterLimiter,
    m: &mut RegisterLimiter,
    api: Api,
    connected: Option<Ip>,
    header: Option<String>,
    now: u64,
    client: Option<Ip>,
    ip: Ip,
    admitted: bool,
    res: Option<Reply>,
)
    requires
        *old(m) == *old(l),
        call_ensures(limit_registration, (l, &api, connected, &header, now), res),
        call_ensures(extract_client_ip, (&api, connected, &header), client),
        ip == (match client {
            Some(c) => c,
            None => Ip::V4(0),
        }),
        call_ensures(
            RegisterLimiter::allow,
            (m, api.register_rate_limit_per_min, ip, now),
            admitted,
        ),
    ensures
        res is None <==> admitted,
        res is Some ==> res->Some_0 == Reply::Status(429),
        final(l)@ == final(m)@,
{
}

/// Accounts can be asked for unless that is switched off; health, metrics and updates always, and
/// nothing twice. An account is needed for updates alone, and what changes something is asked for
/// with `POST`.
pub proof fn law_routes(api: Api, res: Router, r: Route, path: &'static str, post: bool, closed: bool)
    requires
        call_ensures(create_router, (&api,), res),
        call_ensures(Route::path, (&r,), path),
        call_ensures(Route::is_post, (&r,), post),
        call_ensures(Route::is_protected, (&r,), closed),
    ensures
        res.routes@.contains(r) <==> !(r is Register && api.disable_registration),
        res.routes@.no_duplicates(),
        r is Health ==> path@ == "/health"@ && !post && !closed,
        r is Metrics ==> path@ == "/metrics"@ && !post && !closed,
        r is Register ==> path@ == "/register"@ && post && !closed,
        r is Update ==> path@ == "/update"@ && post && closed,
{
    let v = res.routes@;
    assert(v[0] is Health && v[1] is Metrics);
    if api.disable_registration {
        assert(v[2] is Update);
    } else {
        assert(v[2] is Register && v[3] is Update);
    }
}

/// Scripts may call from any origin if a star is listed, and otherwise from those listed.
pub proof fn law_origins(api: Api, res: Router)
    requires
        call_ensures(create_router, (&api,), res),
    ensures
        res.origins is Any <==> exists|i: int|
            0 <= i < api.corsorigins@.len() && (#[trigger] api.corsorigins@[i])@ == "*"@,
        res.origins matches Origins::Listed(v) ==> texts(v@) == texts(api.corsorigins@),
{
    let all = texts(api.corsorigins@);
    if all.contains("*"@) {
        let i = all.index_of("*"@);
        assert(api.corsorigins@[i]@ == "*"@);
    }
    if exists|i: int| 0 <= i < api.corsorigins@.len() && (#[trigger] api.corsorigins@[i])@ == "*"@ {
        let i = choose|i: int|
            0 <= i < api.corsorigins@.len() && (#[trigger] api.corsorigins@[i])@ == "*"@;
        assert(all[i] == "*"@);
    }
}

/// Clients are told to use HTTPS only if that is configured, for as many seconds as is configured or
/// a year, with what else is configured behind it.
pub proof fn law_https_header(api: Api, res: Router, age: u64, written: String)
    requires
        call_ensures(create_router, (&api,), res),
        age == (match api.hsts_max_age {
            Some(n) => n as u64,
            None => 31_536_000,
        }),
        call_ensures(decimal, (age,), written),
    ensures
        res.hsts is Some <==> api.hsts_enabled,
        res.hsts matches Some(h) ==> {
            let start = "max-age="@ + written@;
            &&& !api.hsts_include_subdomains && !api.hsts_preload ==> h@ == start
            &&& api.hsts_include_subdomains && !api.hsts_preload ==> h@ == start
                + "; includeSubDomains"@
            &&& !api.hsts_include_subdomains && api.hsts_preload ==> h@ == start + "; preload"@
            &&& api.hsts_include_subdomains && api.hsts_preload ==> h@ == start
                + "; includeSubDomains"@ + "; preload"@
        },
{
    if let Some(h) = res.hsts {
        let start = "max-age="@ + written@;
        let none = Seq::<char>::empty();
        assert(start + none =~= start);
        assert(start + "; includeSubDomains"@ + none =~= start + "; includeSubDomains"@);
        assert(start + none + "; preload"@ =~= start + "; preload"@);
    }
}

/// A request for an account is refused if its body is none, or if one of the texts that it names is
/// no network; otherwise all that it names is kept as it is, and nothing if it names none.
pub proof fn law_requested_networks(request: Option<RegisterRequest>, res: Result<Vec<String>, Reply>)
    requires
        call_ensures(check_register, (request,), res),
    ensures
        request is None ==> res == Err::<Vec<String>, Reply>(Reply::Status(400)),
        request matches Some(q) ==> match q.allowfrom {
            None => res matches Ok(v) && v@.len() == 0,
            Some(w) => {
                &&& res is Ok <==> forall|i: int|
                    0 <= i < w@.len() ==> cidr_parse((#[trigger] w@[i])@) is Some
                &&& res matches Ok(v) ==> texts(v@) == texts(w@)
                &&& res matches Err(r) ==> (r matches Reply::Error(s, m) && s == 400 && m@
                    == "invalid_allowfrom_cidr"@)
            },
        },
{
    if let Some(q) = request {
        match q.allowfrom {
            None => {
                if let Ok(v) = res {
                    assert(texts(v@).len() == v@.len());
                }
            },
            Some(w) => {
                let all = texts(w@);
                if forall|i: int| 0 <= i < w@.len() ==> cidr_parse((#[trigger] w@[i])@) is Some {
                    assert forall|i: int| 0 <= i < all.len() implies cidr_parse(#[trigger] all[i])
                        is Some by {
                        assert(all[i] == w@[i]@);
                    }
                }
                if are_networks(all) {
                    assert forall|i: int| 0 <= i < w@.len() implies cidr_parse((#[trigger] w@[i])@)
                        is Some by {
                        assert(all[i] == w@[i]@);
                    }
                }
            },
        }
    }
}

/// An account that was stored is replied as it was made, with the domain below the server's that
/// belongs to its subdomain; one that was not is replied with the failure.
pub proof fn law_new_accounts_are_replied(
    domain: &str,
    pending: Pending,
    failure: Option<String>,
    res: Reply,
    status: u16,
)
    requires
        call_ensures(finish_register, (domain, pending, failure), res),
        call_ensures(Reply::status, (&res,), status),
    ensures
        failure is None ==> status == 201 && (res matches Reply::Registered {
            username,
            password,
            fulldomain,
            subdomain,
            allowfrom,
        } && username@ == pending.account.username@ && password@ == pending.account.password@
            && subdomain@ == pending.account.subdomain@ && fulldomain@
            == pending.account.subdomain@ + seq!['.'] + domain@ && allowfrom@
            == pending.allow_from@),
        failure is Some ==> status == 500 && (res matches Reply::Error(_, m) && m@
            == failure->Some_0@),
{
    reveal_strlit(".");
    assert("."@ =~= seq!['.']);
}

/// What could not be made is replied with the failure, and what could is for the networks that were
/// asked for.
pub proof fn law_failures_are_replied(
    made: Result<Registration, String>,
    allow_from: Vec<String>,
    res: Result<Pending, Reply>,
    alive: Reply,
)
    requires
        call_ensures(made_account, (made, allow_from), res),
        call_ensures(health_check, (), alive),
    ensures
        alive == Reply::Status(200),
        res is Ok <==> made is Ok,
        res matches Ok(p) ==> p.account == made->Ok_0 && p.allow_from == allow_from,
        res matches Err(r) ==> (r matches Reply::Error(s, m) && s == 500 && m@ == made->Err_0@),
{
}

/// A token is written if and only if the request was let through to an account, has a body, is for
/// the account's own subdomain, and brings a token: 43 ASCII letters, digits, hyphens and
/// underscores. Every other request is told what is wrong with it.
pub proof fn law_what_is_written(
    user: Option<Record>,
    request: Option<UpdateRequest>,
    txt: &str,
    is_token: bool,
    res: Result<UpdateRequest, Reply>,
)
    requires
        call_ensures(update, (user, request), res),
        call_ensures(is_valid_acme_token, (txt,), is_token),
        request matches Some(q) ==> txt@ == q.txt@,
    ensures
        res is Ok <==> user is Some && request is Some && request->Some_0.subdomain@
            == user->Some_0.subdomain@ && is_token,
        res matches Ok(q) ==> q == request->Some_0,
        user is None ==> res == Err::<UpdateRequest, Reply>(Reply::Status(401)),
        user is Some && request is None ==> res == Err::<UpdateRequest, Reply>(Reply::Status(400)),
        user is Some && request is Some && request->Some_0.subdomain@ != user->Some_0.subdomain@
            ==> (res matches Err(Reply::Error(s, m)) && s == 400 && m@ == "subdomain_mismatch"@),
        user is Some && request is Some && request->Some_0.subdomain@ == user->Some_0.subdomain@
            && !is_token ==> (res matches Err(Reply::Error(s, m)) && s == 400 && m@
            == "invalid_txt_value"@),
{
}

/// The reply to an update repeats the token that was written, or says that it was not.
pub proof fn law_updates_are_replied(txt: String, written: bool, res: Reply, status: u16)
    requires
        call_ensures(finish_update, (txt, written), res),
        call_ensures(Reply::status, (&res,), status),
    ensures
        written ==> status == 200 && (res matches Reply::Updated { txt: t } && t@ == txt@),
        !written ==> status == 500 && (res matches Reply::Error(_, m) && m@ == "db_error"@),
{
}

/// A request is unauthorized unless it brings both a user name and a password.
pub proof fn law_credentials(
    user: Option<String>,
    key: Option<String>,
    res: Result<(String, String), Reply>,
)
    requires
        call_ensures(credentials, (user, key), res),
    ensures
        res is Ok <==> user is Some && key is Some,
        res matches Ok(t) ==> t.0@ == user->Some_0@ && t.1@ == key->Some_0@,
        res matches Err(r) ==> r == Reply::Status(401),
{
}

/// A request for an account is refused as [`check_register`] refuses it; otherwise an account is
/// made for the networks that it keeps, or the failure is told.
pub proof fn law_registering(
    pool: DbPool,
    request: Option<RegisterRequest>,
    checked: Result<Vec<String>, Reply>,
    res: Result<Pending, Reply>,
)
    requires
        call_ensures(check_register, (request,), checked),
        call_ensures(register, (&pool, request), res),
    ensures
        checked matches Err(Reply::Status(s)) ==> res == Err::<Pending, Reply>(Reply::Status(s)),
        checked matches Err(Reply::Error(s, m)) ==> (res matches Err(Reply::Error(t, n)) && t == s
            && n@ == m@),
        checked matches Ok(v) ==> match res {
            Ok(p) => texts(p.allow_from@) == texts(v@) && is_registration(
                pool,
                texts(v@),
                p.account,
            ),
            Err(r) => r matches Reply::Error(s, _) && s == 500,
        },
{
}

/// A body has at most a kilobyte, the header of HTTPS lasts a year, and idle addresses are forgotten
/// every minute.
pub proof fn law_numbers_of_the_interface()
    ensures
        BODY_LIMIT == 1024,
        HSTS_MAX_AGE == 365 * 24 * 60 * 60,
        EVICTION_PERIOD == 60,
{
}

} // verus!
