//! Starting the server, and the administrator's commands.

use vstd::prelude::*;

use crate::auth::{
    bcrypt_hash, bcrypt_matches, correct_password, is_bcrypt_hash, HASH_COST, MIN_PASSWORD_LEN,
};
use crate::config::{Api, Config, LogConfig};
use crate::db::Record;
use crate::net::{ip_parse, parse_ip, Ip};
use crate::text::{
    concat, decimal, decimal_of, law_pieces, lower, lowercase, number_of, pad_end, padded,
    parse_number, pieces, same, split, split_trimmed, texts, trim, trimmed, trimmed_pieces,
};

verus! {

/// How severe a message must be to be logged.
#[derive(Debug, Clone, Copy, PartialEq, Eq, Structural)]
pub enum Level {
    /// Errors only.
    Error,
    /// Warnings, too.
    Warn,
    /// What happens, too.
    Info,
    /// Details, too.
    Debug,
}

/// The level that a configuration names, in letters of any size; what it names otherwise means
/// [`Level::Info`].
pub open spec fn level_of(name: Seq<char>) -> Level {
    let n = lowercase(name);
    if n == "error"@ {
        Level::Error
    } else if n == "warn"@ || n == "warning"@ {
        Level::Warn
    } else if n == "debug"@ {
        Level::Debug
    } else {
        Level::Info
    }
}

/// The level of a configuration.
pub fn log_level(config: &LogConfig) -> (res: Level)
    ensures
        res == level_of(config.loglevel@),
{
    let n = lower(config.loglevel.as_str());
    if same(n.as_str(), "error") {
        Level::Error
    } else if same(n.as_str(), "warn") || same(n.as_str(), "warning") {
        Level::Warn
    } else if same(n.as_str(), "debug") {
        Level::Debug
    } else {
        Level::Info
    }
}

/// The addresses that the DNS server listens on, as texts.
pub fn listen_addresses(listen: &str) -> (res: Vec<String>)
    ensures
        texts(res@) == trimmed_pieces(listen@, ','),
        res@.len() >= 1,
{
    split_trimmed(listen, ',')
}

/// The port that goes with address number `i`: the one at its place, or else the first.
pub open spec fn port_text(ports: Seq<Seq<char>>, i: int) -> Seq<char> {
    if i < ports.len() {
        ports[i]
    } else {
        ports[0]
    }
}

/// The address and port number `i`, if the texts denote them.
pub open spec fn address(ips: Seq<Seq<char>>, ports: Seq<Seq<char>>, i: int) -> Option<(Ip, u16)> {
    let port = number_of(port_text(ports, i));
    if ip_parse(ips[i]) is Some && port is Some && port->0 <= u16::MAX {
        Some((ip_parse(ips[i])->0, port->0 as u16))
    } else {
        None
    }
}

/// The addresses and ports among the first `n` that the texts denote.
pub open spec fn addresses(ips: Seq<Seq<char>>, ports: Seq<Seq<char>>, n: nat) -> Seq<(Ip, u16)>
    decreases n,
{
    if n == 0 {
        Seq::empty()
    } else {
        let before = addresses(ips, ports, (n - 1) as nat);
        match address(ips, ports, n - 1) {
            Some(a) => before.push(a),
            None => before,
        }
    }
}

/// The addresses and ports that the HTTP interface is configured for.
pub open spec fn configured_addresses(api: Api) -> Seq<(Ip, u16)> {
    let ips = trimmed_pieces(api.ip@, ',');
    addresses(ips, trimmed_pieces(api.port@, ','), ips.len())
}

/// The addresses and ports that the HTTP interface listens on. Those that are malformed are left
/// out, but there must be one.
pub fn api_addresses(api: &Api) -> (res: Result<Vec<(Ip, u16)>, String>)
    ensures
        match res {
            Ok(v) => v@ == configured_addresses(*api) && v@.len() > 0,
            Err(m) => configured_addresses(*api).len() == 0 && m@
                == "No valid API listen addresses configured"@,
        },
{
    let ips = split_trimmed(api.ip.as_str(), ',');
    let ports = split_trimmed(api.port.as_str(), ',');
    let ghost ip_views = texts(ips@);
    let ghost port_views = texts(ports@);
    let mut res: Vec<(Ip, u16)> = Vec::new();
    let mut i: usize = 0;
    while i < ips.len()
        invariant
            i <= ips@.len(),
            ports@.len() >= 1,
            ip_views == texts(ips@),
            port_views == texts(ports@),
            res@ == addresses(ip_views, port_views, i as nat),
        decreases ips@.len() - i,
    {
        assert(ip_views[i as int] == ips@[i as int]@);
        let port = if i < ports.len() {
            ports[i].as_str()
        } else {
            ports[0].as_str()
        };
        assert(port@ == port_text(port_views, i as int));
        if let Some(ip) = parse_ip(ips[i].as_str()) {
            if let Some(n) = parse_number(port, u16::MAX as u64) {
                res.push((ip, n as u16));
            }
        }
        i = i + 1;
    }
    if res.len() == 0 {
        return Err("No valid API listen addresses configured".to_owned());
    }
    Ok(res)
}

/// Where the certificate of the HTTP interface comes from.
#[derive(Debug, Clone)]
pub enum Tls {
    /// There is none.
    Plain,
    /// Files.
    Files {
        /// The file of the certificate chain.
        chain: String,
        /// The file of the private key.
        key: String,
    },
    /// Let's Encrypt.
    Acme {
        /// Whether it is the staging environment.
        staging: bool,
        /// The domain of the certificate.
        domain: String,
        /// The directory for obtained certificates.
        cache_dir: String,
        /// The contact address, if one is given.
        contact: Option<String>,
    },
}

/// The text, or the other if there is none.
pub open spec fn text_or(t: Option<String>, other: Seq<char>) -> Seq<char> {
    match t {
        Some(s) => s@,
        None => other,
    }
}

/// A copy of the text, or of the other if there is none.
fn copy_or(t: &Option<String>, other: &str) -> (res: String)
    ensures
        res@ == text_or(*t, other@),
{
    match t {
        Some(s) => s.clone(),
        None => other.to_owned(),
    }
}

/// Whether `tls` is what a configuration says.
pub open spec fn is_tls_of(config: Config, tls: Tls) -> bool {
    let mode = config.api.tls@;
    if mode == "cert"@ {
        tls matches Tls::Files { chain, key } && {
            &&& chain@ == text_or(config.api.tls_cert_fullchain, Seq::empty())
            &&& key@ == text_or(config.api.tls_cert_privkey, Seq::empty())
        }
    } else if mode == "letsencrypt"@ || mode == "letsencryptstaging"@ {
        tls matches Tls::Acme { staging, domain, cache_dir, contact } && {
            let email = text_or(config.api.notification_email, Seq::empty());
            &&& staging == (mode == "letsencryptstaging"@)
            &&& domain@ == config.general.domain@
            &&& cache_dir@ == text_or(config.api.acme_cache_dir, "api-certs"@)
            &&& email.len() == 0 ==> contact is None
            &&& email.len() > 0 ==> (contact matches Some(c) && c@ == "mailto:"@ + email)
        }
    } else {
        tls is Plain
    }
}

/// Where the certificate comes from under a configuration.
pub fn tls_mode(config: &Config) -> (res: Tls)
    ensures
        is_tls_of(*config, res),
{
    proof {
        reveal_strlit("");
        reveal_strlit("cert");
        reveal_strlit("letsencrypt");
        reveal_strlit("letsencryptstaging");
        assert(""@ =~= Seq::empty());
        assert("letsencrypt"@.len() != "letsencryptstaging"@.len());
    }
    let mode = config.api.tls.as_str();
    if same(mode, "cert") {
        Tls::Files {
            chain: copy_or(&config.api.tls_cert_fullchain, ""),
            key: copy_or(&config.api.tls_cert_privkey, ""),
        }
    } else if same(mode, "letsencrypt") || same(mode, "letsencryptstaging") {
        let email = copy_or(&config.api.notification_email, "");
        let contact = if email.as_str().is_empty() {
            None
        } else {
            Some(concat("mailto:", email.as_str()))
        };
        Tls::Acme {
            staging: same(mode, "letsencryptstaging"),
            domain: config.general.domain.clone(),
            cache_dir: copy_or(&config.api.acme_cache_dir, "api-certs"),
            contact,
        }
    } else {
        Tls::Plain
    }
}

/// What the administrator has to do before a command.
#[derive(Debug, Clone)]
pub enum Gate {
    /// Set a password, since there is none.
    SetPassword,
    /// Enter the password that has this hash.
    EnterPassword(String),
}

/// What the administrator has to do, from the stored hash of their password.
pub fn admin_gate(hash: Option<String>) -> (res: Gate)
    ensures
        match hash {
            Some(h) => res == Gate::EnterPassword(h),
            None => res is SetPassword,
        },
{
    match hash {
        Some(h) => Gate::EnterPassword(h),
        None => Gate::SetPassword,
    }
}

/// Whether what the administrator entered is their password; else what they are told.
pub fn enter_password(entered: &str, hash: &str) -> (res: Result<(), String>)
    ensures
        match res {
            Ok(_) => bcrypt_matches(entered@, hash@) == Some(true),
            Err(m) => bcrypt_matches(entered@, hash@) != Some(true) && m@
                == "Error: Incorrect admin password."@,
        },
{
    if correct_password(entered, hash) {
        Ok(())
    } else {
        Err("Error: Incorrect admin password.".to_owned())
    }
}

/// The complaint about a password that is too short.
pub open spec fn too_short_text() -> Seq<char> {
    "Password must be at least "@ + decimal_of(MIN_PASSWORD_LEN as nat) + " characters."@
}

/// Whether a new password is long enough to be confirmed; else the complaint about it.
pub fn check_new_password(password: &str) -> (res: Result<(), String>)
    ensures
        match res {
            Ok(_) => password@.len() >= MIN_PASSWORD_LEN,
            Err(m) => password@.len() < MIN_PASSWORD_LEN && m@ == too_short_text(),
        },
{
    if password.unicode_len() < MIN_PASSWORD_LEN {
        let start = concat("Password must be at least ", decimal(MIN_PASSWORD_LEN as u64).as_str());
        Err(concat(start.as_str(), " characters."))
    } else {
        Ok(())
    }
}

/// What becomes of a new password.
#[derive(Debug, Clone)]
pub enum NewPassword {
    /// It is asked for again, with this complaint.
    Again(String),
    /// This hash of it is stored.
    Store(String),
    /// There is no randomness for a hash of it, with this failure.
    Failed(String),
}

/// What becomes of a new password, from its hash.
pub fn hashed_password(hash: Result<String, String>) -> (res: NewPassword)
    ensures
        res == (match hash {
            Ok(h) => NewPassword::Store(h),
            Err(e) => NewPassword::Failed(e),
        }),
{
    match hash {
        Ok(h) => NewPassword::Store(h),
        Err(e) => NewPassword::Failed(e),
    }
}

/// What becomes of a new password that was entered twice. A hash that is stored is one that the
/// password matches.
pub fn setup_admin_password(first: &str, second: &str) -> (res: NewPassword)
    ensures
        first@.len() < MIN_PASSWORD_LEN ==> (res matches NewPassword::Again(m) && m@
            == too_short_text()),
        first@.len() >= MIN_PASSWORD_LEN && first@ != second@ ==> (res matches NewPassword::Again(m)
            && m@ == "Passwords do not match."@),
        first@.len() >= MIN_PASSWORD_LEN && first@ == second@ ==> match res {
            NewPassword::Again(_) => false,
            NewPassword::Store(hash) => bcrypt_matches(first@, hash@) == Some(true)
                && is_bcrypt_hash(hash@, HASH_COST),
            NewPassword::Failed(_) => true,
        },
{
    if let Err(m) = check_new_password(first) {
        return NewPassword::Again(m);
    }
    if !same(first, second) {
        return NewPassword::Again("Passwords do not match.".to_owned());
    }
    hashed_password(bcrypt_hash(first, HASH_COST))
}

/// How far the administrator is on the way to a command.
#[derive(Debug, Clone)]
pub enum AdminStep {
    /// The stored hash of the password is read.
    Start,
    /// The password that has this hash is asked for.
    Enter(String),
    /// A new password is asked for.
    First,
    /// This new password is asked for once more.
    Second(String),
    /// This hash of a new password is stored.
    Saving(String),
    /// The command may be run.
    Command,
    /// There is nothing more to do.
    Stopped,
}

/// What happens on the way to a command.
#[derive(Debug, Clone)]
pub enum AdminEvent {
    /// The stored hash was read; there may be none.
    Hash(Option<String>),
    /// The administrator typed this.
    Typed(String),
    /// The hash was stored.
    Saved,
}

/// Whether a step follows another on an event. An event that does not belong to a step changes
/// nothing.
pub open spec fn follows(step: AdminStep, event: AdminEvent, next: AdminStep) -> bool {
    match (step, event) {
        (AdminStep::Start, AdminEvent::Hash(Some(h))) => next matches AdminStep::Enter(g) && g@
            == h@,
        (AdminStep::Start, AdminEvent::Hash(None)) => next is First,
        (AdminStep::Enter(h), AdminEvent::Typed(entered)) => if bcrypt_matches(entered@, h@)
            == Some(true) {
            next is Command
        } else {
            next is Stopped
        },
        (AdminStep::First, AdminEvent::Typed(first)) => if first@.len() < MIN_PASSWORD_LEN {
            next is First
        } else {
            next matches AdminStep::Second(f) && f@ == first@
        },
        (AdminStep::Second(first), AdminEvent::Typed(second)) => if first@.len()
            < MIN_PASSWORD_LEN || first@ != second@ {
            next is First
        } else {
            match next {
                AdminStep::Saving(h) => bcrypt_matches(first@, h@) == Some(true) && is_bcrypt_hash(
                    h@,
                    HASH_COST,
                ),
                AdminStep::Stopped => true,
                _ => false,
            }
        },
        (AdminStep::Saving(_), AdminEvent::Saved) => next is Command,
        _ => next == step,
    }
}

/// What the administrator is told on the way to the next step; where there is no randomness for a
/// hash, whatever the failure says.
pub open spec fn is_told(step: AdminStep, event: AdminEvent, next: AdminStep, told: Option<String>) -> bool {
    match (step, event) {
        (AdminStep::Start, AdminEvent::Hash(None)) => told matches Some(m) && m@
            == "No admin password set. Configure it now."@,
        (AdminStep::Enter(_), AdminEvent::Typed(_)) => if next is Stopped {
            told matches Some(m) && m@ == "Error: Incorrect admin password."@
        } else {
            told is None
        },
        (AdminStep::First, AdminEvent::Typed(_)) => if next is First {
            told matches Some(m) && m@ == too_short_text()
        } else {
            told is None
        },
        (AdminStep::Second(first), AdminEvent::Typed(second)) => if first@.len()
            < MIN_PASSWORD_LEN {
            told matches Some(m) && m@ == too_short_text()
        } else if first@ != second@ {
            told matches Some(m) && m@ == "Passwords do not match."@
        } else {
            next is Saving <==> told is None
        },
        (AdminStep::Saving(_), AdminEvent::Saved) => told matches Some(m) && m@
            == "Admin password configured successfully!"@,
        _ => told is None,
    }
}

/// The step that follows on what became of a new password, and what the administrator is told: a
/// complaint asks for it again, a hash is stored, and a failure ends it all.
pub fn after_new_password(new: NewPassword) -> (res: (AdminStep, Option<String>))
    ensures
        res == (match new {
            NewPassword::Again(m) => (AdminStep::First, Some(m)),
            NewPassword::Store(h) => (AdminStep::Saving(h), None::<String>),
            NewPassword::Failed(m) => (AdminStep::Stopped, Some(m)),
        }),
{
    match new {
        NewPassword::Again(m) => (AdminStep::First, Some(m)),
        NewPassword::Store(h) => (AdminStep::Saving(h), None),
        NewPassword::Failed(m) => (AdminStep::Stopped, Some(m)),
    }
}

/// The step that follows on the way to a command, and what the administrator is told. A new
/// password that is too short or was not repeated is asked for again.
pub fn admin_advance(step: AdminStep, event: AdminEvent) -> (res: (AdminStep, Option<String>))
    ensures
        follows(step, event, res.0),
        is_told(step, event, res.0, res.1),
{
    match (step, event) {
        (AdminStep::Start, AdminEvent::Hash(hash)) => match admin_gate(hash) {
            Gate::EnterPassword(h) => (AdminStep::Enter(h), None),
            Gate::SetPassword => (
                AdminStep::First,
                Some("No admin password set. Configure it now.".to_owned()),
            ),
        },
        (AdminStep::Enter(h), AdminEvent::Typed(entered)) => match enter_password(
            entered.as_str(),
            h.as_str(),
        ) {
            Ok(_) => (AdminStep::Command, None),
            Err(m) => (AdminStep::Stopped, Some(m)),
        },
        (AdminStep::First, AdminEvent::Typed(first)) => match check_new_password(first.as_str()) {
            Ok(_) => (AdminStep::Second(first), None),
            Err(m) => (AdminStep::First, Some(m)),
        },
        (AdminStep::Second(first), AdminEvent::Typed(second)) => after_new_password(
            setup_admin_password(first.as_str(), second.as_str()),
        ),
        (AdminStep::Saving(_), AdminEvent::Saved) => (
            AdminStep::Command,
            Some("Admin password configured successfully!".to_owned()),
        ),
        (step, _) => (step, None),
    }
}

/// A command is reached only with a password that matches the stored hash, or after the hash of a
/// new one was stored.
pub proof fn law_command_needs_the_password(step: AdminStep, event: AdminEvent, next: AdminStep)
    requires
        follows(step, event, next),
        next is Command,
        !(step is Command),
    ensures
        (step is Enter && event is Typed && bcrypt_matches(event->Typed_0@, step->Enter_0@) == Some(
            true,
        )) || (step is Saving && event is Saved),
{
}

/// The hash that a password is held against is the stored one, and a hash is stored only of a
/// password that is long enough, was typed twice and matches it, and is of the usual cost.
pub proof fn law_admin_hashes_are_the_right_ones(
    step: AdminStep,
    event: AdminEvent,
    next: AdminStep,
)
    requires
        follows(step, event, next),
    ensures
        next matches AdminStep::Enter(h) ==> step == next || (event matches
            AdminEvent::Hash(Some(stored)) && step is Start && stored@ == h@),
        next matches AdminStep::Saving(h) ==> step == next || (step is Second && event is Typed
            && step->Second_0@ == event->Typed_0@ && step->Second_0@.len() >= MIN_PASSWORD_LEN
            && bcrypt_matches(step->Second_0@, h@) == Some(true) && is_bcrypt_hash(h@, HASH_COST)),
{
}

/// A row of the list of accounts.
pub open spec fn user_row(username: Seq<char>, subdomain: Seq<char>, created: Seq<char>) -> Seq<
    char,
> {
    padded(username, 38) + " | "@ + padded(subdomain, 38) + " | "@ + padded(created, 19)
}

/// Writes a row of the list of accounts.
fn write_user_row(username: &str, subdomain: &str, created: &str) -> (res: String)
    ensures
        res@ == user_row(username@, subdomain@, created@),
{
    let mut res = pad_end(username, 38);
    res.append(" | ");
    res.append(pad_end(subdomain, 38).as_str());
    res.append(" | ");
    res.append(pad_end(created, 19).as_str());
    res
}

/// The list of accounts: a heading, a rule, and a row for each.
pub open spec fn user_lines(users: Seq<Record>) -> Seq<Seq<char>> {
    seq![
        user_row("Username"@, "Subdomain"@, "CreatedAt"@),
        Seq::new(101, |i: int| '-'),
    ] + users.map_values(|u: Record| user_row(u.username@, u.subdomain@, u.created_at@))
}

/// Lists the accounts, with the time at which each was made.
pub fn list_lines(users: &Vec<Record>) -> (res: Vec<String>)
    ensures
        texts(res@) == user_lines(users@),
{
    let mut rule = String::new();
    let mut n: usize = 0;
    while n < 101
        invariant
            n <= 101,
            rule@ == Seq::new(n as nat, |i: int| '-'),
        decreases 101 - n,
    {
        rule.push('-');
        n = n + 1;
    }
    let ghost row = |u: Record| user_row(u.username@, u.subdomain@, u.created_at@);
    let ghost head = seq![user_row("Username"@, "Subdomain"@, "CreatedAt"@), rule@];
    let mut res: Vec<String> = Vec::new();
    res.push(write_user_row("Username", "Subdomain", "CreatedAt"));
    res.push(rule);
    assert(texts(res@) =~= head + users@.take(0).map_values(row));
    let mut i: usize = 0;
    while i < users.len()
        invariant
            i <= users@.len(),
            row == (|u: Record| user_row(u.username@, u.subdomain@, u.created_at@)),
            texts(res@) == head + users@.take(i as int).map_values(row),
        decreases users@.len() - i,
    {
        let ghost before = texts(res@);
        let u = &users[i];
        let line = write_user_row(u.username.as_str(), u.subdomain.as_str(), u.created_at.as_str());
        res.push(line);
        assert(texts(res@) =~= before.push(row(users@[i as int])));
        assert(head + users@.take(i + 1).map_values(row) =~= before.push(row(users@[i as int])));
        i = i + 1;
    }
    assert(users@.take(users@.len() as int) =~= users@);
    assert(texts(res@) =~= user_lines(users@));
    res
}

/// What is said of a deletion.
pub fn deletion_line(username: &str, deleted: bool) -> (res: String)
    ensures
        deleted ==> res@ == "Deleted user: "@ + username@,
        !deleted ==> res@ == "User not found: "@ + username@,
{
    if deleted {
        concat("Deleted user: ", username)
    } else {
        concat("User not found: ", username)
    }
}

/// The name that is looked for among the accounts, of a user name or a domain: its first label.
pub fn txt_target(target: &str) -> (res: String)
    ensures
        res@ == pieces(target@, '.')[0],
{
    let labels = split(target, '.');
    assert(texts(labels@)[0] == labels@[0]@);
    labels[0].clone()
}

/// The subdomain whose tokens are shown: that of the account that was found, or else the name
/// itself.
pub fn txt_subdomain(name: String, found: Option<Record>) -> (res: String)
    ensures
        res == (match found {
            Some(r) => r.subdomain,
            None => name,
        }),
{
    match found {
        Some(r) => r.subdomain,
        None => name,
    }
}

/// The line of token number `i`.
pub open spec fn token_line(values: Seq<Seq<char>>, i: int) -> Seq<char> {
    "  ["@ + decimal_of((i + 1) as nat) + "] "@ + values[i]
}

/// The list of the tokens of a subdomain.
pub open spec fn token_lines(subdomain: Seq<char>, values: Seq<Seq<char>>) -> Seq<Seq<char>> {
    seq!["TXT records for subdomain: "@ + subdomain] + (if values.len() == 0 {
        seq!["  (none)"@]
    } else {
        Seq::new(values.len(), |i: int| token_line(values, i))
    })
}

/// Lists the tokens of a subdomain.
pub fn txt_lines(subdomain: &str, values: &Vec<String>) -> (res: Vec<String>)
    ensures
        texts(res@) == token_lines(subdomain@, texts(values@)),
{
    let ghost all = texts(values@);
    let ghost line = |i: int| token_line(all, i);
    let ghost head = seq!["TXT records for subdomain: "@ + subdomain@];
    let mut res: Vec<String> = Vec::new();
    res.push(concat("TXT records for subdomain: ", subdomain));
    assert(texts(res@) =~= head + Seq::new(0, line));
    if values.len() == 0 {
        res.push("  (none)".to_owned());
        assert(texts(res@) =~= token_lines(subdomain@, all));
        return res;
    }
    let mut i: usize = 0;
    while i < values.len()
        invariant
            i <= values@.len(),
            all == texts(values@),
            line == (|i: int| token_line(all, i)),
            texts(res@) == head + Seq::new(i as nat, line),
        decreases values@.len() - i,
    {
        let ghost before = texts(res@);
        let mut text = concat("  [", decimal(i as u64 + 1).as_str());
        text.append("] ");
        text.append(values[i].as_str());
        assert(text@ == line(i as int));
        res.push(text);
        assert(texts(res@) =~= before.push(line(i as int)));
        assert(head + Seq::new((i + 1) as nat, line) =~= before.push(line(i as int)));
        i = i + 1;
    }
    assert(texts(res@) =~= token_lines(subdomain@, all));
    res
}

/// The level is the one that the configuration names, in letters of any size; what is no level means
/// that of what happens.
pub proof fn law_levels(config: LogConfig, name: &str, small: String, res: Level)
    requires
        call_ensures(log_level, (&config,), res),
        name@ == config.loglevel@,
        call_ensures(lower, (name,), small),
    ensures
        res is Error <==> small@ == "error"@,
        res is Warn <==> small@ == "warn"@ || small@ == "warning"@,
        res is Debug <==> small@ == "debug"@,
        res is Info <==> small@ != "error"@ && small@ != "warn"@ && small@ != "warning"@ && small@
            != "debug"@,
{
    reveal_strlit("error");
    reveal_strlit("warn");
    reveal_strlit("warning");
    reveal_strlit("debug");
    assert("error"@[0] == 'e' && "warn"@[0] == 'w' && "warning"@[0] == 'w' && "debug"@[0] == 'd');
}

/// The addresses of the DNS server stand between commas, without the white space around them.
pub proof fn law_addresses_stand_between_commas(
    one: &str,
    more: &str,
    several: &str,
    bare: String,
    of_one: Vec<String>,
    of_more: Vec<String>,
    of_several: Vec<String>,
)
    requires
        call_ensures(trim, (one,), bare),
        call_ensures(listen_addresses, (one,), of_one),
        call_ensures(listen_addresses, (more,), of_more),
        call_ensures(listen_addresses, (several,), of_several),
        !one@.contains(','),
        several@ == one@ + seq![','] + more@,
    ensures
        texts(of_one@) == seq![bare@],
        texts(of_several@) == seq![bare@] + texts(of_more@),
{
    law_pieces(one@, ',', more@);
    let f = |p: Seq<char>| trimmed(p);
    assert(trimmed_pieces(one@, ',') =~= seq![trimmed(one@)]);
    assert((seq![one@] + pieces(more@, ',')).map_values(f) =~= seq![trimmed(one@)] + pieces(
        more@,
        ',',
    ).map_values(f));
}

/// Whether address `i` is one, with the port at its place, or the first port if there are fewer.
pub open spec fn is_bound(ips: Seq<String>, ports: Seq<String>, i: int, a: (Ip, u16)) -> bool {
    let port = if i < ports.len() {
        ports[i]
    } else {
        ports[0]
    };
    &&& 0 <= i < ips.len()
    &&& ip_parse(ips[i]@) == Some(a.0)
    &&& number_of(port@) == Some(a.1 as nat)
}

/// Whether `v` is what the addresses at `at` denote, in their order, and the others denote none.
pub open spec fn are_bound(
    ips: Seq<String>,
    ports: Seq<String>,
    at: Seq<int>,
    v: Seq<(Ip, u16)>,
) -> bool {
    &&& at.len() == v.len()
    &&& forall|p: int, q: int| 0 <= p < q < at.len() ==> #[trigger] at[p] < #[trigger] at[q]
    &&& forall|p: int| 0 <= p < at.len() ==> is_bound(ips, ports, #[trigger] at[p], v[p])
    &&& forall|i: int, a: (Ip, u16)| #[trigger] is_bound(ips, ports, i, a) ==> at.contains(i)
}

/// The HTTP interface listens on each configured address that is one, in the order in which they
/// stand, each with the port at its place or the first port; what is malformed is left out, and if
/// nothing is left that is an error.
pub proof fn law_listening(
    api: Api,
    ip: &str,
    port: &str,
    ips: Vec<String>,
    ports: Vec<String>,
    res: Result<Vec<(Ip, u16)>, String>,
)
    requires
        call_ensures(api_addresses, (&api,), res),
        ip@ == api.ip@,
        port@ == api.port@,
        call_ensures(listen_addresses, (ip,), ips),
        call_ensures(listen_addresses, (port,), ports),
    ensures
        res is Err <==> forall|i: int, a: (Ip, u16)| !#[trigger] is_bound(ips@, ports@, i, a),
        res matches Ok(v) ==> exists|at: Seq<int>| #[trigger] are_bound(ips@, ports@, at, v@),
        res matches Err(m) ==> m@ == "No valid API listen addresses configured"@,
{
    let n = ips@.len();
    let all = configured_addresses(api);
    let at = lemma_bound(ips@, ports@, n);
    assert(texts(ips@).len() == n);
    assert(all == addresses(texts(ips@), texts(ports@), n));
    assert forall|i: int, a: (Ip, u16)| #[trigger] is_bound(ips@, ports@, i, a) implies at.contains(
        i,
    ) by {}
    assert(are_bound(ips@, ports@, at, all));
    if res is Ok {
        let v = res->Ok_0;
        assert(v@ == all);
        assert(is_bound(ips@, ports@, at[0], v@[0]));
    } else {
        assert(at.len() == 0);
        assert forall|i: int, a: (Ip, u16)| !#[trigger] is_bound(ips@, ports@, i, a) by {
            if is_bound(ips@, ports@, i, a) {
                assert(at.contains(i));
            }
        }
    }
}

/// The places of the first `n` addresses that are some.
proof fn lemma_bound(ips: Seq<String>, ports: Seq<String>, n: nat) -> (at: Seq<int>)
    requires
        n <= ips.len(),
        ports.len() >= 1,
    ensures
        at.len() == addresses(texts(ips), texts(ports), n).len(),
        forall|p: int, q: int| 0 <= p < q < at.len() ==> #[trigger] at[p] < #[trigger] at[q],
        forall|p: int|
            0 <= p < at.len() ==> #[trigger] at[p] < n && is_bound(
                ips,
                ports,
                at[p],
                addresses(texts(ips), texts(ports), n)[p],
            ),
        forall|i: int, a: (Ip, u16)|
            i < n && #[trigger] is_bound(ips, ports, i, a) ==> at.contains(i),
    decreases n,
{
    let x = texts(ips);
    let y = texts(ports);
    if n == 0 {
        Seq::empty()
    } else {
        let m = (n - 1) as nat;
        let before = lemma_bound(ips, ports, m);
        let old_list = addresses(x, y, m);
        let list = addresses(x, y, n);
        assert(x[m as int] == ips[m as int]@);
        assert(y[0] == ports[0]@);
        if m < ports.len() {
            assert(y[m as int] == ports[m as int]@);
        }
        match address(x, y, m as int) {
            Some(a) => {
                let at = before.push(m as int);
                assert(is_bound(ips, ports, m as int, a));
                assert forall|p: int| 0 <= p < at.len() implies #[trigger] at[p] < n && is_bound(
                    ips,
                    ports,
                    at[p],
                    list[p],
                ) by {
                    if p < before.len() {
                        assert(before[p] < m);
                        assert(list[p] == old_list[p]);
                    }
                }
                assert forall|p: int, q: int| 0 <= p < q < at.len() implies #[trigger] at[p]
                    < #[trigger] at[q] by {
                    assert(before[p] < m);
                    if q < before.len() {
                        assert(before[q] < m);
                    }
                }
                assert forall|i: int, b: (Ip, u16)|
                    i < n && #[trigger] is_bound(ips, ports, i, b) implies at.contains(i) by {
                    if i < m {
                        let p = before.index_of(i);
                        assert(before.contains(i));
                        assert(at[p] == i);
                    } else {
                        assert(at[before.len() as int] == i);
                    }
                }
                at
            },
            None => {
                assert forall|i: int, b: (Ip, u16)|
                    i < n && #[trigger] is_bound(ips, ports, i, b) implies before.contains(i) by {
                    if i == m {
                        assert(address(x, y, m as int) is Some);
                    }
                }
                assert forall|p: int| 0 <= p < before.len() implies #[trigger] before[p] < n
                    && is_bound(ips, ports, before[p], list[p]) by {
                    assert(before[p] < m);
                }
                before
            },
        }
    }
}

/// The certificate comes from the configured files where files are named, from Let's Encrypt for the
/// served domain where that is named, in its staging environment only where that is, and there is
/// none otherwise.
pub proof fn law_certificates(config: Config, res: Tls)
    requires
        call_ensures(tls_mode, (&config,), res),
    ensures
        res is Files <==> config.api.tls@ == "cert"@,
        res is Acme <==> config.api.tls@ == "letsencrypt"@ || config.api.tls@
            == "letsencryptstaging"@,
        res matches Tls::Files { chain, key } ==> {
            &&& config.api.tls_cert_fullchain matches Some(s) ==> chain@ == s@
            &&& config.api.tls_cert_fullchain is None ==> chain@.len() == 0
            &&& config.api.tls_cert_privkey matches Some(s) ==> key@ == s@
            &&& config.api.tls_cert_privkey is None ==> key@.len() == 0
        },
        res matches Tls::Acme { staging, domain, cache_dir, contact } ==> {
            &&& staging <==> config.api.tls@ == "letsencryptstaging"@
            &&& domain@ == config.general.domain@
            &&& config.api.acme_cache_dir matches Some(s) ==> cache_dir@ == s@
            &&& config.api.acme_cache_dir is None ==> cache_dir@ == "api-certs"@
            &&& contact is Some <==> config.api.notification_email is Some
                && config.api.notification_email->Some_0@.len() > 0
            &&& contact matches Some(c) ==> c@ == "mailto:"@ + config.api.notification_email->Some_0@
        },
{
    reveal_strlit("cert");
    reveal_strlit("letsencrypt");
    reveal_strlit("letsencryptstaging");
    assert("cert"@.len() == 4 && "letsencrypt"@.len() == 11 && "letsencryptstaging"@.len() == 18);
}

/// A stored hash asks for the password that has it, and only without one is a password set. What is
/// entered passes only if it matches.
pub proof fn law_entering(
    hash: Option<String>,
    gate: Gate,
    entered: &str,
    stored: &str,
    right: bool,
    res: Result<(), String>,
)
    requires
        call_ensures(admin_gate, (hash,), gate),
        call_ensures(enter_password, (entered, stored), res),
        call_ensures(correct_password, (entered, stored), right),
    ensures
        gate is SetPassword <==> hash is None,
        gate matches Gate::EnterPassword(h) ==> h@ == hash->Some_0@,
        res is Ok <==> right,
        res matches Err(m) ==> m@ == "Error: Incorrect admin password."@,
{
}

/// A new password has at least twelve characters and is entered twice; what is stored of it is a
/// hash of cost ten that it matches.
pub proof fn law_new_passwords(first: &str, second: &str, long: Result<(), String>, res: NewPassword)
    requires
        call_ensures(check_new_password, (first,), long),
        call_ensures(setup_admin_password, (first, second), res),
    ensures
        long is Ok <==> first@.len() >= 12,
        res is Again <==> first@.len() < 12 || first@ != second@,
        res matches NewPassword::Store(h) ==> bcrypt_matches(first@, h@) == Some(true)
            && is_bcrypt_hash(h@, 10),
        res matches NewPassword::Again(m) ==> m@ == (if first@.len() < 12 {
            "Password must be at least "@ + seq!['1', '2'] + " characters."@
        } else {
            "Passwords do not match."@
        }),
        long matches Err(m) ==> m@ == "Password must be at least "@ + seq!['1', '2']
            + " characters."@,
{
    reveal_with_fuel(decimal_of, 3);
    assert(decimal_of(12) =~= seq!['1', '2']) by {
        assert(decimal_of(1) =~= seq!['1']);
    }
}

/// The way to a command: with a stored hash the password that matches it leads there and any other
/// ends it; without one a new password of twelve characters or more is typed twice, its hash is
/// stored, and then the command is reached. Nothing else leads on.
pub proof fn law_way_to_a_command(
    step: AdminStep,
    event: AdminEvent,
    res: (AdminStep, Option<String>),
)
    requires
        call_ensures(admin_advance, (step, event), res),
    ensures
        step is Start && event is Hash ==> match event->Hash_0 {
            Some(h) => res.0 is Enter && res.0->Enter_0@ == h@ && res.1 is None,
            None => res.0 is First && res.1 is Some,
        },
        step is Enter && event is Typed ==> (res.0 is Command <==> bcrypt_matches(
            event->Typed_0@,
            step->Enter_0@,
        ) == Some(true)) && (res.0 is Command || res.0 is Stopped) && (res.0 is Stopped <==> res.1
            is Some),
        step is First && event is Typed ==> (res.0 is Second <==> event->Typed_0@.len() >= 12) && (
        res.0 is Second || res.0 is First) && (res.0 is Second ==> res.0->Second_0@
            == event->Typed_0@) && (res.0 is First <==> res.1 is Some),
        step is Second && event is Typed ==> (res.0 is First <==> step->Second_0@.len() < 12
            || step->Second_0@ != event->Typed_0@) && (res.0 is First || res.0 is Saving || res.0
            is Stopped) && (res.0 is Saving ==> bcrypt_matches(
            event->Typed_0@,
            res.0->Saving_0@,
        ) == Some(true)) && (res.0 is Saving <==> res.1 is None),
        step is Saving && event is Saved ==> res.0 is Command && res.1 is Some,
        step is Command || step is Stopped ==> res.0 == step && res.1 is None,
        res.0 is Command ==> step is Command || (step is Enter && event is Typed) || (step is Saving
            && event is Saved),
{
}

/// The list of accounts has two lines and one for each account, in which its user name, its subdomain
/// and the moment of its making stand under their headings.
pub proof fn law_account_list(users: &Vec<Record>, res: Vec<String>, i: int)
    requires
        call_ensures(list_lines, (users,), res),
        0 <= i < users@.len(),
    ensures
        res@.len() == users@.len() + 2,
        res@[0]@ == padded("Username"@, 38) + " | "@ + padded("Subdomain"@, 38) + " | "@ + padded(
            "CreatedAt"@,
            19,
        ),
        res@[1]@.len() == 101,
        forall|k: int| 0 <= k < 101 ==> #[trigger] res@[1]@[k] == '-',
        res@[i + 2]@ == padded(users@[i].username@, 38) + " | "@ + padded(
            users@[i].subdomain@,
            38,
        ) + " | "@ + padded(users@[i].created_at@, 19),
{
    let v = texts(res@);
    assert(v == user_lines(users@));
    assert(v.len() == res@.len());
    assert(v[0] == res@[0]@ && v[1] == res@[1]@ && v[i + 2] == res@[i + 2]@);
    assert(v[1] == Seq::new(101, |k: int| '-'));
}

/// The tokens of a subdomain are listed under its name, each with its number, counted from one; or
/// that there are none.
pub proof fn law_token_list(
    subdomain: &str,
    values: &Vec<String>,
    res: Vec<String>,
    i: int,
    n: u64,
    number: String,
)
    requires
        call_ensures(txt_lines, (subdomain, values), res),
        0 <= i < values@.len() ==> n == i + 1,
        call_ensures(decimal, (n,), number),
    ensures
        res@[0]@ == "TXT records for subdomain: "@ + subdomain@,
        values@.len() == 0 ==> res@.len() == 2 && res@[1]@ == "  (none)"@,
        values@.len() > 0 ==> res@.len() == values@.len() + 1,
        0 <= i < values@.len() ==> res@[i + 1]@ == "  ["@ + number@ + "] "@ + values@[i]@,
{
    let v = texts(res@);
    assert(v == token_lines(subdomain@, texts(values@)));
    assert(v.len() == res@.len());
    assert(texts(values@).len() == values@.len());
    assert(v[0] == res@[0]@);
    assert(v[1] == res@[1]@);
    if 0 <= i < values@.len() {
        assert(v[i + 1] == res@[i + 1]@);
        assert(texts(values@)[i] == values@[i]@);
    }
}

/// Tokens are shown of the account that is found under the first label of what was asked for, or
/// else of that label; and it is said whether a deletion found someone.
pub proof fn law_targets(
    target: &str,
    label: Seq<char>,
    rest: Seq<char>,
    name: String,
    found: Option<Record>,
    shown: String,
    deleted: bool,
    line: String,
)
    requires
        call_ensures(txt_target, (target,), name),
        !label.contains('.'),
        target@ == label || target@ == label + seq!['.'] + rest,
        call_ensures(txt_subdomain, (name, found), shown),
        call_ensures(deletion_line, (target, deleted), line),
    ensures
        name@ == label,
        found is None ==> shown@ == label,
        found matches Some(r) ==> shown@ == r.subdomain@,
        deleted ==> line@ == "Deleted user: "@ + target@,
        !deleted ==> line@ == "User not found: "@ + target@,
{
    law_pieces(label, '.', rest);
}

/// What the administrator is told on the way to a command, and what becomes of a new password from
/// its hash.
pub proof fn law_what_the_administrator_is_told(
    step: AdminStep,
    event: AdminEvent,
    res: (AdminStep, Option<String>),
    hash: Result<String, String>,
    new: NewPassword,
    after: (AdminStep, Option<String>),
)
    requires
        call_ensures(admin_advance, (step, event), res),
        call_ensures(hashed_password, (hash,), new),
        call_ensures(after_new_password, (new,), after),
    ensures
        step is Start && event is Hash && event->Hash_0 is None ==> res.1->Some_0@
            == "No admin password set. Configure it now."@,
        step is Enter && res.0 is Stopped ==> res.1->Some_0@ == "Error: Incorrect admin password."@,
        step is First && event is Typed && res.0 is First ==> res.1->Some_0@
            == "Password must be at least "@ + seq!['1', '2'] + " characters."@,
        step is Second && event is Typed && step->Second_0@.len() >= 12 && res.0 is First
            ==> res.1->Some_0@ == "Passwords do not match."@,
        step is Saving && event is Saved ==> res.1->Some_0@
            == "Admin password configured successfully!"@,
        hash matches Ok(h) ==> new is Store && new->Store_0@ == h@ && after.0 is Saving
            && after.0->Saving_0@ == h@ && after.1 is None,
        hash matches Err(e) ==> new is Failed && new->Failed_0@ == e@ && after.0 is Stopped
            && after.1 is Some && after.1->Some_0@ == e@,
{
    reveal_with_fuel(decimal_of, 3);
    assert(decimal_of(12) =~= seq!['1', '2']) by {
        assert(decimal_of(1) =~= seq!['1']);
    }
}

} // verus!
