//! The database: which statements are run, and what is made of the replies.
//!
//! An operation is a list of [`Statement`]s to run one after the other, up to the first that
//! fails, and a function of the rows that came back.

use vstd::multiset::Multiset;
use vstd::prelude::*;
use vstd::relations::{sorted_by, total_ordering};
use vstd::seq_lib::lemma_sorted_unique;

use crate::auth::{
    bcrypt_hash, bcrypt_matches, generate_password, is_bcrypt_hash, is_token_char, GENERATED_LEN,
    HASH_COST,
};
use crate::clock::{four_digit_year, stamp_at, stamp_text, text_view, utc_seconds, utc_text};
use crate::config::Database;
use crate::text::{
    concat, contains, full_texts, is_char, is_full, join, joined, law_joined, law_lines, law_pieces,
    law_pieces_on_both_sides, lemma_cut_holds_no_separator, lemma_cut_nonempty,
    lemma_cut_with_first, lemma_text_less, lemma_text_order,
    lemma_text_order_is_transitive, lemma_trimmed_holds_the_same, lemma_trimmed_without_last, less,
    lines, lines_of, occurs_in, parts_at, pieces, same, split_trimmed, starts_with, text_less,
    texts, trim, trimmed, trimmed_pieces,
};

verus! {

/// How many connections are kept open at most.
pub const MAX_CONNECTIONS: u32 = 5;

/// For how many seconds to wait for a locked database.
pub const BUSY_TIMEOUT: u64 = 10;

/// How many challenge records of one account are kept.
pub const KEPT_TXT: usize = 2;

/// The database and how to reach it.
#[derive(Debug, Clone)]
pub enum DbPool {
    /// SQLite, with the URL to open.
    Sqlite(String),
    /// PostgreSQL, with the URL to connect to.
    Postgres(String),
}

/// A value in a statement.
#[derive(Debug, Clone)]
pub enum Bind {
    /// A text.
    Text(String),
    /// A number.
    Int(i64),
}

/// A value in a statement, as a value.
pub enum BindView {
    /// A text.
    Text(Seq<char>),
    /// A number.
    Int(i64),
}

impl View for Bind {
    type V = BindView;

    open spec fn view(&self) -> BindView {
        match self {
            Bind::Text(s) => BindView::Text(s@),
            Bind::Int(n) => BindView::Int(*n),
        }
    }
}

/// A statement and the values for its placeholders.
#[derive(Debug, Clone)]
pub struct Statement {
    /// The text of the statement.
    pub sql: String,
    /// The values for its placeholders, in their order.
    pub binds: Vec<Bind>,
}

/// A statement, as a value.
pub struct StatementView {
    /// The text of the statement.
    pub sql: Seq<char>,
    /// The values for its placeholders.
    pub binds: Seq<BindView>,
}

impl View for Statement {
    type V = StatementView;

    open spec fn view(&self) -> StatementView {
        StatementView { sql: self.sql@, binds: self.binds@.map_values(|b: Bind| b@) }
    }
}

/// The contents of a list of statements.
pub open spec fn plan_view(v: Seq<Statement>) -> Seq<StatementView> {
    v.map_values(|s: Statement| s@)
}

/// The statement of a text for each kind of database, with the given values.
pub open spec fn in_dialect(
    pool: DbPool,
    sqlite: Seq<char>,
    postgres: Seq<char>,
    binds: Seq<BindView>,
) -> StatementView {
    StatementView {
        sql: if pool is Sqlite {
            sqlite
        } else {
            postgres
        },
        binds,
    }
}

/// Values that are texts.
pub open spec fn text_binds(v: Seq<Seq<char>>) -> Seq<BindView> {
    v.map_values(|s: Seq<char>| BindView::Text(s))
}

/// The URL that SQLite opens for a configured connection.
pub open spec fn sqlite_url(conn: Seq<char>) -> Seq<char> {
    if conn == ":memory:"@ {
        "sqlite::memory:?cache=shared"@
    } else if "sqlite:"@.is_prefix_of(conn) {
        conn
    } else {
        "sqlite://"@ + conn
    }
}

/// An account, as it is used.
#[derive(Debug, Clone)]
pub struct Record {
    /// The user name.
    pub username: String,
    /// The hash of the password.
    pub password_hash: String,
    /// The subdomain that the account may write to.
    pub subdomain: String,
    /// The networks that it may be used from; any if there is none.
    pub allow_from: Vec<String>,
    /// When it was made.
    pub created_at: String,
    /// Whether it was ever used.
    pub has_updated: bool,
}

/// An account, as it is stored.
#[derive(Debug, Clone)]
pub struct RecordRow {
    /// The user name.
    pub username: String,
    /// The hash of the password.
    pub password: String,
    /// The subdomain that the account may write to.
    pub subdomain: String,
    /// The networks that it may be used from, as a JSON list.
    pub allow_from: String,
    /// When it was made, if that is known.
    pub created_at: Option<String>,
    /// Not zero if it was ever used, if that is known.
    pub has_updated: Option<i64>,
}

/// An account as it is used, as a value.
pub struct RecordView {
    /// The user name.
    pub username: Seq<char>,
    /// The hash of the password.
    pub password_hash: Seq<char>,
    /// The subdomain that the account may write to.
    pub subdomain: Seq<char>,
    /// The networks that it may be used from.
    pub allow_from: Seq<Seq<char>>,
    /// When it was made.
    pub created_at: Seq<char>,
    /// Whether it was ever used.
    pub has_updated: bool,
}

impl View for Record {
    type V = RecordView;

    open spec fn view(&self) -> RecordView {
        RecordView {
            username: self.username@,
            password_hash: self.password_hash@,
            subdomain: self.subdomain@,
            allow_from: texts(self.allow_from@),
            created_at: self.created_at@,
            has_updated: self.has_updated,
        }
    }
}

/// An account as it is stored, as a value.
pub struct RowView {
    /// The user name.
    pub username: Seq<char>,
    /// The hash of the password.
    pub password: Seq<char>,
    /// The subdomain that the account may write to.
    pub subdomain: Seq<char>,
    /// The networks that it may be used from, as a JSON list.
    pub allow_from: Seq<char>,
    /// When it was made, if that is known.
    pub created_at: Option<Seq<char>>,
    /// Not zero if it was ever used, if that is known.
    pub has_updated: Option<i64>,
}

impl View for RecordRow {
    type V = RowView;

    open spec fn view(&self) -> RowView {
        RowView {
            username: self.username@,
            password: self.password@,
            subdomain: self.subdomain@,
            allow_from: self.allow_from@,
            created_at: text_view(self.created_at),
            has_updated: self.has_updated,
        }
    }
}

/// The contents of a list of stored accounts.
pub open spec fn row_views(v: Seq<RecordRow>) -> Seq<RowView> {
    v.map_values(|r: RecordRow| r@)
}

/// The contents of a list of accounts.
pub open spec fn record_views(v: Seq<Record>) -> Seq<RecordView> {
    v.map_values(|r: Record| r@)
}

/// A challenge record, as it is stored.
#[derive(Debug, Clone)]
pub struct TxtRow {
    /// The number of the row, which no other row has.
    pub id: i64,
    /// When it was written.
    pub last_update: String,
    /// The challenge token.
    pub value: String,
}

/// The strings of a JSON list of strings; nothing if the text is no such list.
pub uninterp spec fn json_list(s: Seq<char>) -> Option<Seq<Seq<char>>>;

/// The contents of a list of strings, if there is one.
pub open spec fn list_view(r: Option<Vec<String>>) -> Option<Seq<Seq<char>>> {
    match r {
        Some(v) => Some(texts(v@)),
        None => None,
    }
}

/// Calls `serde_json::from_str` for a list of strings and drops the reason of a failure. The
/// result is a function of the text.
#[verifier::external_body]
fn parse_json_list(s: &str) -> (res: Option<Vec<String>>)
    ensures
        list_view(res) == json_list(s@),
{
    serde_json::from_str(s).ok()
}

/// Calls `serde_json::to_string` on a list of strings. It succeeds, since neither a string nor a
/// list of them can fail to be written to a text, and the text is one that `serde_json::from_str`
/// reads back as the list.
#[verifier::external_body]
fn write_json_list(v: &Vec<String>) -> (res: Result<String, String>)
    ensures
        res is Ok,
        res matches Ok(s) ==> json_list(s@) == Some(texts(v@)),
{
    serde_json::to_string(v).map_err(|e| e.to_string())
}

/// The characters of the text of a UUID: lower-case hexadecimal digits and hyphens.
pub open spec fn is_uuid_text(s: Seq<char>) -> bool {
    &&& s.len() == 36
    &&& forall|i: int|
        0 <= i < 36 ==> if i == 8 || i == 13 || i == 18 || i == 23 {
            #[trigger] s[i] == '-'
        } else {
            '0' <= s[i] <= '9' || 'a' <= s[i] <= 'f'
        }
}

/// Calls `uuid::Uuid::new_v4` and writes the result with `Display`: some 32 lower-case
/// hexadecimal digits with hyphens between their groups.
#[verifier::external_body]
fn new_uuid() -> (res: String)
    ensures
        is_uuid_text(res@),
{
    uuid::Uuid::new_v4().to_string()
}

/// Makes a statement.
fn statement(pool: &DbPool, sqlite: &str, postgres: &str, binds: Vec<Bind>) -> (res: Statement)
    ensures
        res@ == in_dialect(*pool, sqlite@, postgres@, binds@.map_values(|b: Bind| b@)),
{
    match pool {
        DbPool::Sqlite(_) => Statement { sql: sqlite.to_owned(), binds },
        DbPool::Postgres(_) => Statement { sql: postgres.to_owned(), binds },
    }
}

/// No values.
fn no_binds() -> (res: Vec<Bind>)
    ensures
        res@.map_values(|b: Bind| b@) == text_binds(seq![]),
{
    let res: Vec<Bind> = Vec::new();
    assert(res@.map_values(|b: Bind| b@) =~= text_binds(seq![]));
    res
}

/// A text as the only value.
fn one_bind(a: &str) -> (res: Vec<Bind>)
    ensures
        res@.map_values(|b: Bind| b@) == text_binds(seq![a@]),
{
    let mut res: Vec<Bind> = Vec::new();
    res.push(Bind::Text(a.to_owned()));
    assert(res@.map_values(|b: Bind| b@) =~= text_binds(seq![a@]));
    res
}

/// Two texts as the values.
fn two_binds(a: &str, c: &str) -> (res: Vec<Bind>)
    ensures
        res@.map_values(|b: Bind| b@) == text_binds(seq![a@, c@]),
{
    let mut res: Vec<Bind> = Vec::new();
    res.push(Bind::Text(a.to_owned()));
    res.push(Bind::Text(c.to_owned()));
    assert(res@.map_values(|b: Bind| b@) =~= text_binds(seq![a@, c@]));
    res
}

/// The columns of an account and where they come from.
pub open spec fn select_records() -> Seq<char> {
    "SELECT Username, Password, Subdomain, AllowFrom, CAST(CreatedAt AS TEXT) as CreatedAt, HasUpdated FROM records"@
}

/// The networks of an account: those of the stored list, or none if it is not a list.
pub open spec fn networks(raw: Seq<char>) -> Seq<Seq<char>> {
    match json_list(raw) {
        Some(l) => l,
        None => Seq::empty(),
    }
}

/// The account that a stored row says.
pub open spec fn record_of(row: RowView) -> RecordView {
    RecordView {
        username: row.username,
        password_hash: row.password,
        subdomain: row.subdomain,
        allow_from: networks(row.allow_from),
        created_at: match row.created_at {
            Some(t) => t,
            None => Seq::empty(),
        },
        has_updated: row.has_updated is Some && row.has_updated->0 != 0,
    }
}

/// What a statement changes in the database.
pub enum Change {
    /// The administrator's password is forgotten.
    ClearAdmin,
    /// This hash of the administrator's password is added.
    AddAdmin(Seq<char>),
    /// An account is added, which is not used yet.
    AddRecord {
        /// The user name.
        username: Seq<char>,
        /// The hash of the password.
        hash: Seq<char>,
        /// The subdomain.
        subdomain: Seq<char>,
        /// The networks, as a JSON list.
        allow_from: Seq<char>,
        /// When it was made.
        created_at: Seq<char>,
    },
    /// The challenge records of the subdomain of this user are deleted.
    DeleteTxtOf(Seq<char>),
    /// The account of this user is deleted.
    DeleteRecord(Seq<char>),
    /// The account of this user is deleted unless it was used.
    DeleteUnused(Seq<char>),
    /// This challenge record is added to this subdomain. The statement names the token; the number
    /// of the row and the time are the database's.
    AddTxt(Seq<char>, TxtView),
    /// The challenge record of this subdomain with the number and token of this one is deleted.
    DeleteTxt(Seq<char>, TxtView),
    /// The account of this subdomain is marked as used.
    MarkUsed(Seq<char>),
}

/// The statement that makes a change.
pub open spec fn sql_of(pool: DbPool, change: Change) -> StatementView {
    match change {
        Change::ClearAdmin => in_dialect(
            pool,
            "DELETE FROM admin"@,
            "DELETE FROM admin"@,
            text_binds(seq![]),
        ),
        Change::AddAdmin(hash) => in_dialect(
            pool,
            "INSERT INTO admin (Password) VALUES (?)"@,
            "INSERT INTO admin (Password) VALUES ($1)"@,
            text_binds(seq![hash]),
        ),
        Change::AddRecord { username, hash, subdomain, allow_from, created_at } => in_dialect(
            pool,
            "INSERT INTO records (Username, Password, Subdomain, AllowFrom, CreatedAt) VALUES (?, ?, ?, ?, ?)"@,
            "INSERT INTO records (Username, Password, Subdomain, AllowFrom, CreatedAt) VALUES ($1, $2, $3, $4, $5)"@,
            text_binds(seq![username, hash, subdomain, allow_from, created_at]),
        ),
        Change::DeleteTxtOf(username) => in_dialect(
            pool,
            "DELETE FROM txt WHERE Subdomain IN (SELECT Subdomain FROM records WHERE Username = ?)"@,
            "DELETE FROM txt WHERE Subdomain IN (SELECT Subdomain FROM records WHERE Username = $1)"@,
            text_binds(seq![username]),
        ),
        Change::DeleteRecord(username) => in_dialect(
            pool,
            "DELETE FROM records WHERE Username = ?"@,
            "DELETE FROM records WHERE Username = $1"@,
            text_binds(seq![username]),
        ),
        Change::DeleteUnused(username) => in_dialect(
            pool,
            "DELETE FROM records WHERE Username = ? AND HasUpdated = 0"@,
            "DELETE FROM records WHERE Username = $1 AND HasUpdated = 0"@,
            text_binds(seq![username]),
        ),
        Change::AddTxt(subdomain, row) => in_dialect(
            pool,
            "INSERT INTO txt (Subdomain, Value, LastUpdate) VALUES (?, ?, CURRENT_TIMESTAMP)"@,
            "INSERT INTO txt (Subdomain, Value, LastUpdate) VALUES ($1, $2, CURRENT_TIMESTAMP)"@,
            text_binds(seq![subdomain, row.value]),
        ),
        Change::DeleteTxt(subdomain, row) => in_dialect(
            pool,
            "DELETE FROM txt WHERE Subdomain = ? AND rowid = ? AND Value = ?"@,
            "DELETE FROM txt WHERE Subdomain = $1 AND (ctid::text::point)[0]::bigint * 65536 + (ctid::text::point)[1]::bigint = $2 AND Value = $3"@,
            seq![BindView::Text(subdomain), BindView::Int(row.id), BindView::Text(row.value)],
        ),
        Change::MarkUsed(subdomain) => in_dialect(
            pool,
            "UPDATE records SET HasUpdated = 1 WHERE Subdomain = ?"@,
            "UPDATE records SET HasUpdated = 1 WHERE Subdomain = $1"@,
            text_binds(seq![subdomain]),
        ),
    }
}

/// The statements that make changes, in their order.
pub open spec fn plan_of(pool: DbPool, changes: Seq<Change>) -> Seq<StatementView> {
    changes.map_values(|c: Change| sql_of(pool, c))
}

/// What is asked of the accounts.
pub enum Query {
    /// The account of this user.
    ByUsername(Seq<char>),
    /// The account of this subdomain.
    BySubdomain(Seq<char>),
    /// All accounts.
    All,
    /// The accounts that were never used.
    Unused,
}

/// The statement that asks for accounts.
pub open spec fn query_of(pool: DbPool, query: Query) -> StatementView {
    match query {
        Query::ByUsername(username) => in_dialect(
            pool,
            select_records() + " WHERE Username = ?"@,
            select_records() + " WHERE Username = $1"@,
            text_binds(seq![username]),
        ),
        Query::BySubdomain(subdomain) => in_dialect(
            pool,
            select_records() + " WHERE Subdomain = ?"@,
            select_records() + " WHERE Subdomain = $1"@,
            text_binds(seq![subdomain]),
        ),
        Query::All => in_dialect(
            pool,
            select_records(),
            select_records(),
            text_binds(seq![]),
        ),
        Query::Unused => in_dialect(
            pool,
            select_records() + " WHERE HasUpdated = 0"@,
            select_records() + " WHERE HasUpdated = 0"@,
            text_binds(seq![]),
        ),
    }
}

/// A new account: what the client is told, and the statement that stores it.
#[derive(Debug, Clone)]
pub struct Registration {
    /// The user name.
    pub username: String,
    /// The password, which is not stored.
    pub password: String,
    /// The subdomain that the account may write to.
    pub subdomain: String,
    /// The statement that stores the account.
    pub insert: Statement,
}

/// Whether a new account is in order: its names are UUIDs, its password is of the usual length
/// and characters, and what is stored are the names, a hash that the password matches, the
/// networks as a JSON list, and the text of some moment.
pub open spec fn is_registration(pool: DbPool, allow_from: Seq<Seq<char>>, r: Registration) -> bool {
    &&& is_uuid_text(r.username@)
    &&& is_uuid_text(r.subdomain@)
    &&& r.password@.len() == GENERATED_LEN
    &&& forall|i: int| 0 <= i < r.password@.len() ==> is_token_char(#[trigger] r.password@[i])
    &&& exists|hash: Seq<char>, list: Seq<char>, secs: i64|
        is_stored_as(pool, allow_from, r, hash, list, secs)
}

/// Whether a new account is stored with the given hash, JSON list and moment, and these are in
/// order.
pub open spec fn is_stored_as(
    pool: DbPool,
    allow_from: Seq<Seq<char>>,
    r: Registration,
    hash: Seq<char>,
    list: Seq<char>,
    secs: i64,
) -> bool {
    &&& bcrypt_matches(r.password@, hash) == Some(true)
    &&& is_bcrypt_hash(hash, HASH_COST)
    &&& json_list(list) == Some(allow_from)
    &&& secs >= 0
    &&& stamp_text(secs) is Some
    &&& r.insert@ == sql_of(pool, stored_record(r, hash, list, secs))
}

/// The change that stores a new account with the given hash, JSON list and moment.
pub open spec fn stored_record(
    r: Registration,
    hash: Seq<char>,
    list: Seq<char>,
    secs: i64,
) -> Change {
    Change::AddRecord {
        username: r.username@,
        hash,
        subdomain: r.subdomain@,
        allow_from: list,
        created_at: stamp_text(secs)->0,
    }
}

/// The hash of the administrator's password that a row holds: none if there is no row or the text
/// in it is empty.
pub open spec fn admin_hash(row: Option<Seq<char>>) -> Option<Seq<char>> {
    match row {
        Some(p) => if p.len() > 0 {
            Some(p)
        } else {
            None
        },
        None => None,
    }
}

/// The changes that replace the hash of the administrator's password.
pub open spec fn replace_admin_hash(hash: Seq<char>) -> Seq<Change> {
    seq![Change::ClearAdmin, Change::AddAdmin(hash)]
}

/// The changes that delete an account and the challenge records of its subdomain.
pub open spec fn delete_account(username: Seq<char>) -> Seq<Change> {
    seq![Change::DeleteTxtOf(username), Change::DeleteRecord(username)]
}

impl DbPool {
    /// The database of a configuration: PostgreSQL where that is named, else SQLite.
    pub fn new(database: &Database) -> (res: DbPool)
        ensures
            database.engine@ == "postgres"@ ==> (res matches DbPool::Postgres(url) && url@
                == database.connection@),
            database.engine@ != "postgres"@ ==> (res matches DbPool::Sqlite(url) && url@
                == sqlite_url(database.connection@)),
    {
        if same(database.engine.as_str(), "postgres") {
            return DbPool::Postgres(database.connection.clone());
        }
        let conn = database.connection.as_str();
        if same(conn, ":memory:") {
            DbPool::Sqlite("sqlite::memory:?cache=shared".to_owned())
        } else if starts_with(conn, "sqlite:") {
            DbPool::Sqlite(conn.to_owned())
        } else {
            DbPool::Sqlite(concat("sqlite://", conn))
        }
    }

    /// Asks for the hash of the administrator's password.
    pub fn get_admin_password_hash(&self) -> (res: Statement)
        ensures
            res@ == in_dialect(
                *self,
                "SELECT Password FROM admin LIMIT 1"@,
                "SELECT Password FROM admin LIMIT 1"@,
                text_binds(seq![]),
            ),
    {
        statement(
            self,
            "SELECT Password FROM admin LIMIT 1",
            "SELECT Password FROM admin LIMIT 1",
            no_binds(),
        )
    }

    /// The hash of the administrator's password, from the row that came back: none if there was
    /// no row or the text in it is empty.
    pub fn admin_password_hash(row: Option<String>) -> (res: Option<String>)
        ensures
            text_view(res) == admin_hash(text_view(row)),
    {
        match row {
            Some(p) => if p.as_str().is_empty() {
                None
            } else {
                Some(p)
            },
            None => None,
        }
    }

    /// Replaces the hash of the administrator's password.
    pub fn set_admin_password(&self, hash: &str) -> (res: Vec<Statement>)
        ensures
            plan_view(res@) == plan_of(*self, replace_admin_hash(hash@)),
    {
        let mut res: Vec<Statement> = Vec::new();
        res.push(statement(self, "DELETE FROM admin", "DELETE FROM admin", no_binds()));
        res.push(
            statement(
                self,
                "INSERT INTO admin (Password) VALUES (?)",
                "INSERT INTO admin (Password) VALUES ($1)",
                one_bind(hash),
            ),
        );
        assert(plan_view(res@) =~= plan_of(*self, replace_admin_hash(hash@)));
        res
    }

    /// The statement that stores an account with the given columns.
    pub fn store_record(
        &self,
        username: &str,
        hash: &str,
        subdomain: &str,
        allow_from: &str,
        created_at: &str,
    ) -> (res: Statement)
        ensures
            res@ == sql_of(
                *self,
                Change::AddRecord {
                    username: username@,
                    hash: hash@,
                    subdomain: subdomain@,
                    allow_from: allow_from@,
                    created_at: created_at@,
                },
            ),
    {
        let mut binds: Vec<Bind> = Vec::new();
        binds.push(Bind::Text(username.to_owned()));
        binds.push(Bind::Text(hash.to_owned()));
        binds.push(Bind::Text(subdomain.to_owned()));
        binds.push(Bind::Text(allow_from.to_owned()));
        binds.push(Bind::Text(created_at.to_owned()));
        assert(binds@.map_values(|b: Bind| b@) =~= text_binds(
            seq![username@, hash@, subdomain@, allow_from@, created_at@],
        ));
        statement(
            self,
            "INSERT INTO records (Username, Password, Subdomain, AllowFrom, CreatedAt) VALUES (?, ?, ?, ?, ?)",
            "INSERT INTO records (Username, Password, Subdomain, AllowFrom, CreatedAt) VALUES ($1, $2, $3, $4, $5)",
            binds,
        )
    }

    /// The new account with the given names and password, from the hash of the password, the JSON
    /// list of its networks and the time. Where there is no hash or no list, the failure is
    /// returned.
    pub fn make_registration(
        &self,
        username: String,
        subdomain: String,
        password: String,
        hash: Result<String, String>,
        list: Result<String, String>,
        created_at: &str,
    ) -> (res: Result<Registration, String>)
        ensures
            match (hash, list) {
                (Err(e), _) => res matches Err(m) && m@ == "error with configuration: "@ + e@,
                (Ok(_), Err(e)) => res matches Err(m) && m@ == "error with configuration: "@ + e@,
                (Ok(h), Ok(l)) => res matches Ok(r) && {
                    &&& r.username == username
                    &&& r.subdomain == subdomain
                    &&& r.password == password
                    &&& r.insert@ == sql_of(
                        *self,
                        Change::AddRecord {
                            username: username@,
                            hash: h@,
                            subdomain: subdomain@,
                            allow_from: l@,
                            created_at: created_at@,
                        },
                    )
                },
            },
    {
        match (hash, list) {
            (Err(e), _) => Err(concat("error with configuration: ", e.as_str())),
            (Ok(_), Err(e)) => Err(concat("error with configuration: ", e.as_str())),
            (Ok(h), Ok(l)) => {
                let insert = self.store_record(
                    username.as_str(),
                    h.as_str(),
                    subdomain.as_str(),
                    l.as_str(),
                    created_at,
                );
                Ok(Registration { username, password, subdomain, insert })
            },
        }
    }

    /// Makes a new account that may be used from the given networks. The names, the password and
    /// the salt of its hash are random. Where there is no randomness for the salt, the failure is
    /// returned in words.
    pub fn register(&self, allow_from: &Vec<String>) -> (res: Result<Registration, String>)
        ensures
            res matches Ok(r) ==> is_registration(*self, texts(allow_from@), r),
            res matches Err(e) ==> "error with configuration: "@.is_prefix_of(e@),
    {
        let username = new_uuid();
        let subdomain = new_uuid();
        let password = generate_password(GENERATED_LEN);
        let hash = bcrypt_hash(password.as_str(), HASH_COST);
        let list = write_json_list(allow_from);
        let secs: i64 = utc_seconds();
        let created = stamp_at(secs).unwrap();
        let ghost hash_result = hash;
        let ghost list_result = list;
        let res = self.make_registration(
            username,
            subdomain,
            password,
            hash,
            list,
            created.as_str(),
        );
        proof {
            if res is Ok {
                assert(is_stored_as(
                    *self,
                    texts(allow_from@),
                    res->Ok_0,
                    hash_result->Ok_0@,
                    list_result->Ok_0@,
                    secs,
                ));
            } else {
                let p = "error with configuration: "@;
                assert(res->Err_0@.subrange(0, p.len() as int) =~= p);
            }
        }
        res
    }

    /// The networks of an account.
    fn parse_allow_from(raw: &str) -> (res: Vec<String>)
        ensures
            texts(res@) == networks(raw@),
    {
        match parse_json_list(raw) {
            Some(l) => l,
            None => {
                let res: Vec<String> = Vec::new();
                assert(texts(res@) =~= Seq::empty());
                res
            },
        }
    }

    /// Whether the stored networks of an account are no list, which is worth a warning.
    pub fn is_malformed_list(raw: &str) -> (res: bool)
        ensures
            res == (json_list(raw@) is None),
    {
        parse_json_list(raw).is_none()
    }

    /// The account that a stored row says.
    pub fn record_from(row: RecordRow) -> (res: Record)
        ensures
            res@ == record_of(row@),
    {
        let allow_from = Self::parse_allow_from(row.allow_from.as_str());
        let created_at = match row.created_at {
            Some(t) => t,
            None => String::new(),
        };
        let has_updated = match row.has_updated {
            Some(n) => n != 0,
            None => false,
        };
        Record {
            username: row.username,
            password_hash: row.password,
            subdomain: row.subdomain,
            allow_from,
            created_at,
            has_updated,
        }
    }

    /// Asks for the account of a user name.
    pub fn get_user_by_username(&self, username: &str) -> (res: Statement)
        ensures
            res@ == query_of(*self, Query::ByUsername(username@)),
    {
        self.select_where(" WHERE Username = ?", " WHERE Username = $1", one_bind(username))
    }

    /// Asks for the account of a subdomain.
    pub fn get_user_by_subdomain(&self, subdomain: &str) -> (res: Statement)
        ensures
            res@ == query_of(*self, Query::BySubdomain(subdomain@)),
    {
        self.select_where(" WHERE Subdomain = ?", " WHERE Subdomain = $1", one_bind(subdomain))
    }

    /// Asks for all accounts.
    pub fn list_users(&self) -> (res: Statement)
        ensures
            res@ == query_of(*self, Query::All),
    {
        let res = self.select_where("", "", no_binds());
        proof {
            reveal_strlit("");
            assert(select_records() + ""@ =~= select_records());
        }
        res
    }

    /// Asks for the accounts that were never used, among which the orphans are.
    pub fn list_unused(&self) -> (res: Statement)
        ensures
            res@ == query_of(*self, Query::Unused),
    {
        self.select_where(" WHERE HasUpdated = 0", " WHERE HasUpdated = 0", no_binds())
    }

    /// Asks for the accounts that meet a condition.
    fn select_where(&self, sqlite: &str, postgres: &str, binds: Vec<Bind>) -> (res: Statement)
        ensures
            res@ == in_dialect(
                *self,
                select_records() + sqlite@,
                select_records() + postgres@,
                binds@.map_values(|b: Bind| b@),
            ),
    {
        let select = "SELECT Username, Password, Subdomain, AllowFrom, CAST(CreatedAt AS TEXT) as CreatedAt, HasUpdated FROM records";
        statement(
            self,
            concat(select, sqlite).as_str(),
            concat(select, postgres).as_str(),
            binds,
        )
    }

    /// The accounts of the rows that came back, in their order.
    pub fn records_from(rows: Vec<RecordRow>) -> (res: Vec<Record>)
        ensures
            record_views(res@) == row_views(rows@).map_values(|r: RowView| record_of(r)),
    {
        let mut res: Vec<Record> = Vec::new();
        for row in it: rows
            invariant
                it.seq() == rows@,
                res@.len() == it.index(),
                forall|i: int|
                    0 <= i < it.index() ==> (#[trigger] res@[i])@ == record_of(rows@[i]@),
        {
            res.push(Self::record_from(row));
        }
        assert(record_views(res@) =~= row_views(rows@).map_values(|r: RowView| record_of(r)));
        res
    }

    /// Deletes an account and the challenge records of its subdomain.
    pub fn delete_user(&self, username: &str) -> (res: Vec<Statement>)
        ensures
            plan_view(res@) == plan_of(*self, delete_account(username@)),
    {
        let mut res: Vec<Statement> = Vec::new();
        res.push(
            statement(
                self,
                "DELETE FROM txt WHERE Subdomain IN (SELECT Subdomain FROM records WHERE Username = ?)",
                "DELETE FROM txt WHERE Subdomain IN (SELECT Subdomain FROM records WHERE Username = $1)",
                one_bind(username),
            ),
        );
        res.push(
            statement(
                self,
                "DELETE FROM records WHERE Username = ?",
                "DELETE FROM records WHERE Username = $1",
                one_bind(username),
            ),
        );
        assert(plan_view(res@) =~= plan_of(*self, delete_account(username@)));
        res
    }

    /// Whether an account was deleted, from the number of rows that the last statement of
    /// [`DbPool::delete_user`] deleted.
    pub fn was_deleted(rows_affected: u64) -> (res: bool)
        ensures
            res == (rows_affected > 0),
    {
        rows_affected > 0
    }
}

/// A challenge record, as a value.
pub struct TxtView {
    /// The number of the row.
    pub id: i64,
    /// When it was written.
    pub last_update: Seq<char>,
    /// The challenge token.
    pub value: Seq<char>,
}

impl View for TxtRow {
    type V = TxtView;

    open spec fn view(&self) -> TxtView {
        TxtView { id: self.id, last_update: self.last_update@, value: self.value@ }
    }
}

/// The contents of a list of challenge records.
pub open spec fn rows_view(v: Seq<TxtRow>) -> Seq<TxtView> {
    v.map_values(|r: TxtRow| r@)
}

/// The order from the newest to the oldest: by the time of writing, then by the number of the row,
/// then by the token.
pub open spec fn not_older(a: TxtView, b: TxtView) -> bool {
    if a.last_update != b.last_update {
        text_less(b.last_update, a.last_update)
    } else if a.id != b.id {
        b.id < a.id
    } else {
        !text_less(a.value, b.value)
    }
}

/// [`not_older`], as a relation.
pub open spec fn newness() -> spec_fn(TxtView, TxtView) -> bool {
    |a: TxtView, b: TxtView| not_older(a, b)
}

/// The records from the newest to the oldest.
pub open spec fn newest_first(rows: Seq<TxtView>) -> Seq<TxtView> {
    rows.sort_by(newness())
}

/// How many of `n` records are kept.
pub open spec fn kept(n: nat) -> int {
    if n < KEPT_TXT {
        n as int
    } else {
        KEPT_TXT as int
    }
}

/// The records that are kept.
pub open spec fn kept_rows(rows: Seq<TxtView>) -> Seq<TxtView> {
    newest_first(rows).take(kept(rows.len()))
}

/// The records that are not kept.
pub open spec fn surplus_rows(rows: Seq<TxtView>) -> Seq<TxtView> {
    newest_first(rows).skip(kept(rows.len()))
}

/// The tokens of records.
pub open spec fn tokens(rows: Seq<TxtView>) -> Seq<Seq<char>> {
    rows.map_values(|r: TxtView| r.value)
}

/// The order of records is total.
proof fn lemma_newness_is_total()
    ensures
        total_ordering(newness()),
{
    let r = newness();
    assert forall|a: TxtView, b: TxtView| #[trigger] r(a, b) && #[trigger] r(b, a) implies a
        == b by {
        lemma_text_order(a.last_update, b.last_update);
        lemma_text_order(a.value, b.value);
    }
    assert forall|a: TxtView| #[trigger] r(a, a) by {
        lemma_text_order(a.value, a.value);
    }
    assert forall|a: TxtView, b: TxtView| #[trigger] r(a, b) || #[trigger] r(b, a) by {
        lemma_text_order(a.last_update, b.last_update);
        lemma_text_order(a.value, b.value);
    }
    assert forall|a: TxtView, b: TxtView, c: TxtView| #[trigger]
        r(a, b) && #[trigger] r(b, c) implies r(a, c) by {
        lemma_text_order(a.last_update, b.last_update);
        lemma_text_order(b.last_update, c.last_update);
        lemma_text_order(a.last_update, c.last_update);
        lemma_text_order(a.value, b.value);
        lemma_text_order(b.value, c.value);
        lemma_text_order(a.value, c.value);
        if text_less(b.last_update, a.last_update) && text_less(c.last_update, b.last_update) {
            lemma_text_order_is_transitive(c.last_update, b.last_update, a.last_update);
        }
        if text_less(a.value, c.value) {
            if text_less(b.value, a.value) {
                lemma_text_order_is_transitive(b.value, a.value, c.value);
            }
        }
    }
}

/// To sort records is to put the same ones in order.
proof fn lemma_newest_first(rows: Seq<TxtView>)
    ensures
        total_ordering(newness()),
        newest_first(rows).to_multiset() == rows.to_multiset(),
        newest_first(rows).len() == rows.len(),
        sorted_by(newest_first(rows), newness()),
        forall|x: TxtView| newest_first(rows).contains(x) <==> rows.contains(x),
{
    lemma_newness_is_total();
    rows.lemma_sort_by_ensures(newness());
    rows.to_multiset_ensures();
    newest_first(rows).to_multiset_ensures();
    assert forall|x: TxtView| newest_first(rows).contains(x) <==> rows.contains(x) by {
        let a = newest_first(rows).to_multiset().count(x);
        let b = rows.to_multiset().count(x);
    }
}

/// Decides [`not_older`].
fn is_not_older(a: &TxtRow, b: &TxtRow) -> (res: bool)
    ensures
        res == not_older(a@, b@),
{
    if !same(a.last_update.as_str(), b.last_update.as_str()) {
        less(b.last_update.as_str(), a.last_update.as_str())
    } else if a.id != b.id {
        b.id < a.id
    } else {
        !less(a.value.as_str(), b.value.as_str())
    }
}

/// Sorts records from the newest to the oldest.
fn sort_rows(rows: Vec<TxtRow>) -> (res: Vec<TxtRow>)
    ensures
        rows_view(res@) == newest_first(rows_view(rows@)),
        res@.len() == rows@.len(),
{
    broadcast use vstd::seq_lib::group_to_multiset_ensures;

    let mut res: Vec<TxtRow> = Vec::new();
    proof {
        lemma_newness_is_total();
    }
    assert(rows_view(rows@).take(0) == rows_view(res@));
    for row in it: rows
        invariant
            it.seq() == rows@,
            total_ordering(newness()),
            sorted_by(rows_view(res@), newness()),
            rows_view(res@).to_multiset() == rows_view(rows@).take(it.index()).to_multiset(),
            res@.len() == it.index(),
    {
        let ghost before = rows_view(res@);
        let mut at: usize = 0;
        while at < res.len() && is_not_older(&res[at], &row)
            invariant
                at <= res@.len(),
                forall|k: int| 0 <= k < at ==> not_older(#[trigger] rows_view(res@)[k], row@),
            decreases res@.len() - at,
        {
            at = at + 1;
        }
        proof {
            let r = newness();
            if at < res@.len() {
                assert(!r(before[at as int], row@));
                assert(r(row@, before[at as int]));
            }
        }
        res.insert(at, row);
        proof {
            let r = newness();
            let after = rows_view(res@);
            assert(after == before.insert(at as int, row@));
            assert forall|i: int, j: int| 0 <= i < j < after.len() implies #[trigger] r(
                after[i],
                after[j],
            ) by {
                let p = if i < at {
                    i
                } else {
                    i - 1
                };
                let q = if j < at {
                    j
                } else {
                    j - 1
                };
                if i == at {
                    if j - 1 > at {
                        assert(r(before[at as int], before[j - 1]));
                    }
                } else if j != at {
                    assert(r(before[p], before[q]));
                } else {
                    assert(r(before[i], row@));
                }
            }
            after.to_multiset_ensures();
            before.to_multiset_ensures();
            assert(after.remove(at as int) == before);
            assert(after.to_multiset().contains(after[at as int]));
            assert(after.to_multiset() =~= before.to_multiset().insert(row@));
            let done = rows_view(rows@).take(it.index());
            done.to_multiset_ensures();
            assert(rows_view(rows@)[it.index()] == row@);
            assert(rows_view(rows@).take(it.index() + 1) =~= done.push(row@));
        }
    }
    proof {
        assert(rows_view(rows@).take(rows@.len() as int) == rows_view(rows@));
        lemma_newest_first(rows_view(rows@));
        lemma_sorted_unique(rows_view(res@), newest_first(rows_view(rows@)), newness());
    }
    res
}

/// The changes that are left after a challenge record was added to a subdomain, which now has the
/// given ones: all but the newest are deleted, and the account is marked as used.
pub open spec fn prune(subdomain: Seq<char>, rows: Seq<TxtView>) -> Seq<Change> {
    surplus_rows(rows).map_values(|r: TxtView| Change::DeleteTxt(subdomain, r)).push(
        Change::MarkUsed(subdomain),
    )
}

impl DbPool {
    /// Adds a challenge record to a subdomain. What is left to do is said by
    /// [`DbPool::prune_txt`], on the rows that [`DbPool::get_txt_for_domain`] asks for.
    pub fn update_txt(&self, subdomain: &str, txt: &str) -> (res: Statement)
        ensures
            forall|row: TxtView|
                row.value == txt@ ==> res@ == #[trigger] sql_of(
                    *self,
                    Change::AddTxt(subdomain@, row),
                ),
            res@ == in_dialect(
                *self,
                "INSERT INTO txt (Subdomain, Value, LastUpdate) VALUES (?, ?, CURRENT_TIMESTAMP)"@,
                "INSERT INTO txt (Subdomain, Value, LastUpdate) VALUES ($1, $2, CURRENT_TIMESTAMP)"@,
                text_binds(seq![subdomain@, txt@]),
            ),
    {
        statement(
            self,
            "INSERT INTO txt (Subdomain, Value, LastUpdate) VALUES (?, ?, CURRENT_TIMESTAMP)",
            "INSERT INTO txt (Subdomain, Value, LastUpdate) VALUES ($1, $2, CURRENT_TIMESTAMP)",
            two_binds(subdomain, txt),
        )
    }

    /// Asks for the challenge records of a subdomain: the number of the row, the time of writing
    /// and the token of each.
    pub fn get_txt_for_domain(&self, subdomain: &str) -> (res: Statement)
        ensures
            res@ == in_dialect(
                *self,
                "SELECT rowid AS Id, CAST(LastUpdate AS TEXT) AS LastUpdate, Value FROM txt WHERE Subdomain = ?"@,
                "SELECT (ctid::text::point)[0]::bigint * 65536 + (ctid::text::point)[1]::bigint AS Id, CAST(LastUpdate AS TEXT) AS LastUpdate, Value FROM txt WHERE Subdomain = $1"@,
                text_binds(seq![subdomain@]),
            ),
    {
        statement(
            self,
            "SELECT rowid AS Id, CAST(LastUpdate AS TEXT) AS LastUpdate, Value FROM txt WHERE Subdomain = ?",
            "SELECT (ctid::text::point)[0]::bigint * 65536 + (ctid::text::point)[1]::bigint AS Id, CAST(LastUpdate AS TEXT) AS LastUpdate, Value FROM txt WHERE Subdomain = $1",
            one_bind(subdomain),
        )
    }

    /// The tokens that a subdomain has, from its challenge records: those of the newest
    /// [`KEPT_TXT`], the newest first.
    pub fn txt_values(rows: Vec<TxtRow>) -> (res: Vec<String>)
        ensures
            texts(res@) == tokens(kept_rows(rows_view(rows@))),
    {
        let sorted = sort_rows(rows);
        let mut res: Vec<String> = Vec::new();
        let mut i: usize = 0;
        while i < sorted.len() && i < KEPT_TXT
            invariant
                i <= sorted@.len(),
                i <= KEPT_TXT,
                texts(res@) == tokens(rows_view(sorted@).take(i as int)),
            decreases sorted@.len() - i,
        {
            let ghost before = texts(res@);
            res.push(sorted[i].value.clone());
            assert(texts(res@) =~= before.push(rows_view(sorted@)[i as int].value));
            assert(tokens(rows_view(sorted@).take(i + 1)) =~= before.push(
                rows_view(sorted@)[i as int].value,
            ));
            i = i + 1;
        }
        res
    }

    /// What is left to do after a challenge record was added to a subdomain, which now has the
    /// given ones: delete all but the newest [`KEPT_TXT`] and mark the account as used.
    pub fn prune_txt(&self, subdomain: &str, rows: Vec<TxtRow>) -> (res: Vec<Statement>)
        ensures
            plan_view(res@) == plan_of(*self, prune(subdomain@, rows_view(rows@))),
    {
        let sorted = sort_rows(rows);
        let mut res: Vec<Statement> = Vec::new();
        let ghost delete = |r: TxtView| sql_of(*self, Change::DeleteTxt(subdomain@, r));
        let ghost all = rows_view(sorted@);
        let n: usize = if sorted.len() < KEPT_TXT {
            sorted.len()
        } else {
            KEPT_TXT
        };
        let mut i: usize = n;
        while i < sorted.len()
            invariant
                n <= i <= sorted@.len(),
                all == rows_view(sorted@),
                delete == (|r: TxtView| sql_of(*self, Change::DeleteTxt(subdomain@, r))),
                plan_view(res@) == all.subrange(n as int, i as int).map_values(delete),
            decreases sorted@.len() - i,
        {
            let ghost before = plan_view(res@);
            let mut binds: Vec<Bind> = Vec::new();
            binds.push(Bind::Text(subdomain.to_owned()));
            binds.push(Bind::Int(sorted[i].id));
            binds.push(Bind::Text(sorted[i].value.clone()));
            let ghost row = all[i as int];
            assert(binds@.map_values(|b: Bind| b@) =~= seq![
                BindView::Text(subdomain@),
                BindView::Int(row.id),
                BindView::Text(row.value),
            ]);
            res.push(
                statement(
                    self,
                    "DELETE FROM txt WHERE Subdomain = ? AND rowid = ? AND Value = ?",
                    "DELETE FROM txt WHERE Subdomain = $1 AND (ctid::text::point)[0]::bigint * 65536 + (ctid::text::point)[1]::bigint = $2 AND Value = $3",
                    binds,
                ),
            );
            assert(plan_view(res@) =~= before.push(delete(row)));
            assert(all.subrange(n as int, i + 1).map_values(delete) =~= before.push(delete(row)));
            i = i + 1;
        }
        assert(all.subrange(n as int, sorted@.len() as int) =~= all.skip(n as int));
        let ghost deleted = plan_view(res@);
        res.push(
            statement(
                self,
                "UPDATE records SET HasUpdated = 1 WHERE Subdomain = ?",
                "UPDATE records SET HasUpdated = 1 WHERE Subdomain = $1",
                one_bind(subdomain),
            ),
        );
        assert(plan_view(res@) =~= deleted.push(sql_of(*self, Change::MarkUsed(subdomain@))));
        assert(plan_of(*self, prune(subdomain@, rows_view(rows@))) =~= deleted.push(
            sql_of(*self, Change::MarkUsed(subdomain@)),
        ));
        res
    }
}

/// Whether no two records have the same number.
pub open spec fn numbered(rows: Seq<TxtView>) -> bool {
    forall|i: int, j: int|
        0 <= i < j < rows.len() ==> (#[trigger] rows[i]).id != (#[trigger] rows[j]).id
}

/// Whether [`Change::DeleteTxt`] with one of the records `gone` deletes `row`, of the same
/// subdomain.
pub open spec fn is_deleted(gone: Seq<TxtView>, row: TxtView) -> bool {
    exists|k: int|
        0 <= k < gone.len() && (#[trigger] gone[k]).id == row.id && gone[k].value == row.value
}

/// The records of a subdomain, in no order, once those that [`DbPool::prune_txt`] deletes are
/// gone.
pub open spec fn pruned(rows: Seq<TxtView>) -> Multiset<TxtView> {
    rows.to_multiset().filter(|r: TxtView| !is_deleted(surplus_rows(rows), r))
}

/// Records of which each is not older than those before it are kept from the last to the first.
pub proof fn lemma_kept_in_order(rows: Seq<TxtView>, read: Seq<TxtView>)
    requires
        rows.len() <= KEPT_TXT,
        read.to_multiset() == rows.to_multiset(),
        forall|i: int, j: int|
            0 <= i < j < rows.len() ==> not_older(#[trigger] rows[j], #[trigger] rows[i]),
    ensures
        kept_rows(read) == rows.reverse(),
{
    lemma_newest_first(read);
    let guess = rows.reverse();
    let r = newness();
    assert forall|i: int, j: int| 0 <= i < j < guess.len() implies #[trigger] r(
        guess[i],
        guess[j],
    ) by {
        assert(not_older(rows[rows.len() - 1 - i], rows[rows.len() - 1 - j]));
    }
    rows.lemma_reverse_to_multiset();
    lemma_sorted_unique(newest_first(read), guess, newness());
    read.to_multiset_ensures();
    rows.to_multiset_ensures();
    assert(kept_rows(read) =~= guess);
}

/// Of records of which each is not older than those before it, two at most, and a newer one, the
/// newer one and the last are kept.
pub proof fn lemma_kept_after_adding(held: Seq<TxtView>, row: TxtView, rows: Seq<TxtView>)
    requires
        held.len() <= KEPT_TXT,
        rows.to_multiset() == held.push(row).to_multiset(),
        forall|i: int| 0 <= i < held.len() ==> not_older(row, #[trigger] held[i]),
        forall|i: int, j: int|
            0 <= i < j < held.len() ==> not_older(#[trigger] held[j], #[trigger] held[i]),
    ensures
        kept_rows(rows).to_multiset() == (if held.len() == 0 {
            seq![row]
        } else {
            seq![held.last(), row]
        }).to_multiset(),
{
    let all = held.push(row);
    let guess = all.reverse();
    let r = newness();
    lemma_newest_first(rows);
    assert forall|i: int, j: int| 0 <= i < j < guess.len() implies #[trigger] r(
        guess[i],
        guess[j],
    ) by {
        let p = all.len() - 1 - i;
        let q = all.len() - 1 - j;
        if p < held.len() {
            assert(not_older(held[p], held[q]));
        } else {
            assert(not_older(row, held[q]));
        }
    }
    all.lemma_reverse_to_multiset();
    lemma_sorted_unique(newest_first(rows), guess, newness());
    rows.to_multiset_ensures();
    all.to_multiset_ensures();
    let want = if held.len() == 0 {
        seq![row]
    } else {
        seq![held.last(), row]
    };
    want.lemma_reverse_to_multiset();
    assert(kept_rows(rows) =~= want.reverse());
}

/// Every record is either kept or deleted, at most two are kept, and no kept one is older than
/// one that is not kept.
pub proof fn law_the_newest_two_are_kept(rows: Seq<TxtView>)
    ensures
        kept_rows(rows).len() == (if rows.len() < 2 {
            rows.len()
        } else {
            2
        }),
        (kept_rows(rows) + surplus_rows(rows)).to_multiset() == rows.to_multiset(),
        forall|i: int, j: int|
            0 <= i < kept_rows(rows).len() && 0 <= j < surplus_rows(rows).len() ==> not_older(
                #[trigger] kept_rows(rows)[i],
                #[trigger] surplus_rows(rows)[j],
            ),
{
    broadcast use vstd::seq_lib::group_to_multiset_ensures;

    lemma_newest_first(rows);
    let all = newest_first(rows);
    assert(kept_rows(rows) + surplus_rows(rows) =~= all);
    let r = newness();
    assert forall|i: int, j: int|
        0 <= i < kept_rows(rows).len() && 0 <= j < surplus_rows(rows).len() implies not_older(
        #[trigger] kept_rows(rows)[i],
        #[trigger] surplus_rows(rows)[j],
    ) by {
        assert(r(all[i], all[j + kept(rows.len())]));
    }
}

/// After an update, exactly the kept records are left in the database.
pub proof fn law_pruning_leaves_the_kept(rows: Seq<TxtView>)
    requires
        numbered(rows),
    ensures
        pruned(rows) == kept_rows(rows).to_multiset(),
{
    broadcast use vstd::seq_lib::group_to_multiset_ensures;
    broadcast use vstd::multiset::group_multiset_axioms;

    lemma_newest_first(rows);
    let all = newest_first(rows);
    let n = kept(rows.len());
    let front = kept_rows(rows);
    let back = surplus_rows(rows);
    assert(front + back =~= all);
    vstd::seq_lib::lemma_multiset_commutative(front, back);
    assert(rows.no_duplicates());
    rows.lemma_multiset_has_no_duplicates();
    all.lemma_multiset_has_no_duplicates_conv();
    assert forall|x: TxtView| pruned(rows).count(x) == front.to_multiset().count(x) by {
        if is_deleted(back, x) {
            if front.contains(x) {
                let i = front.index_of(x);
                let k = choose|k: int|
                    0 <= k < back.len() && (#[trigger] back[k]).id == x.id && back[k].value
                        == x.value;
                assert(all.contains(all[i]));
                assert(all.contains(all[n + k]));
                assert(rows.contains(all[i]));
                assert(rows.contains(all[n + k]));
                let p = rows.index_of(all[i]);
                let q = rows.index_of(all[n + k]);
                assert(all[i] == front[i] && all[n + k] == back[k]);
                assert(rows[p].id == rows[q].id);
                assert(p == q);
            }
        } else {
            if back.contains(x) {
                let k = back.index_of(x);
                assert(back[k].id == x.id);
            }
        }
    }
    assert(pruned(rows) =~= front.to_multiset());
}

/// What is read of a subdomain does not depend on the order in which its records come back, and
/// deleting those that are not kept does not change it. Nothing is then left to delete.
pub proof fn law_pruning_does_not_change_what_is_read(rows: Seq<TxtView>, after: Seq<TxtView>)
    requires
        numbered(rows),
        after.to_multiset() == rows.to_multiset() || after.to_multiset() == pruned(rows),
    ensures
        tokens(kept_rows(after)) == tokens(kept_rows(rows)),
        after.to_multiset() == pruned(rows) ==> surplus_rows(after).len() == 0,
{
    broadcast use vstd::seq_lib::group_to_multiset_ensures;

    lemma_newest_first(rows);
    lemma_newest_first(after);
    rows.to_multiset_ensures();
    after.to_multiset_ensures();
    kept_rows(rows).to_multiset_ensures();
    law_pruning_leaves_the_kept(rows);
    let all = newest_first(rows);
    if after.to_multiset() == rows.to_multiset() {
        lemma_sorted_unique(newest_first(after), all, newness());
        assert(after.len() == rows.len());
    } else {
        let front = kept_rows(rows);
        let r = newness();
        assert forall|i: int, j: int| 0 <= i < j < front.len() implies #[trigger] r(
            front[i],
            front[j],
        ) by {
            assert(r(all[i], all[j]));
        }
        lemma_sorted_unique(newest_first(after), front, newness());
        assert(after.len() == front.len());
    }
    if after.to_multiset() == pruned(rows) {
        assert(after.to_multiset().len() == kept_rows(rows).to_multiset().len());
        assert(newest_first(after).len() == after.len());
    }
}

/// A token that was just written is the first that is read, and the one that was read first
/// before comes second.
pub proof fn law_read_after_update(before: Seq<TxtView>, row: TxtView)
    requires
        forall|i: int| 0 <= i < before.len() ==> not_older(row, #[trigger] before[i]),
    ensures
        tokens(kept_rows(before.push(row))) == (if before.len() == 0 {
            seq![row.value]
        } else {
            seq![row.value, tokens(kept_rows(before))[0]]
        }),
{
    broadcast use vstd::seq_lib::group_to_multiset_ensures;
    broadcast use vstd::multiset::group_multiset_axioms;

    lemma_newest_first(before);
    lemma_newest_first(before.push(row));
    let old_rows = newest_first(before);
    let new_rows = newest_first(before.push(row));
    let guess = seq![row] + old_rows;
    let r = newness();
    assert forall|i: int, j: int| 0 <= i < j < guess.len() implies #[trigger] r(
        guess[i],
        guess[j],
    ) by {
        if i == 0 {
            assert(old_rows.contains(old_rows[j - 1]));
            assert(before.contains(old_rows[j - 1]));
        } else {
            assert(r(old_rows[i - 1], old_rows[j - 1]));
        }
    }
    before.to_multiset_ensures();
    vstd::seq_lib::lemma_multiset_commutative(seq![row], old_rows);
    assert(seq![row] =~= Seq::empty().push(row));
    Seq::<TxtView>::empty().to_multiset_ensures();
    assert(Seq::<TxtView>::empty().to_multiset() =~= Multiset::empty());
    assert(guess.to_multiset() =~= before.push(row).to_multiset());
    lemma_sorted_unique(new_rows, guess, newness());
    assert(old_rows.len() == before.len());
    assert(tokens(kept_rows(before.push(row))) =~= (if before.len() == 0 {
        seq![row.value]
    } else {
        seq![row.value, tokens(kept_rows(before))[0]]
    }));
}

/// Being a line that is no comment.
pub open spec fn is_code_line() -> spec_fn(Seq<char>) -> bool {
    |l: Seq<char>| !"--"@.is_prefix_of(trimmed(l))
}

/// The statements of a script: the texts between semicolons, without comment lines and without
/// the white space around them, that are not empty.
pub open spec fn script_statements(script: Seq<char>) -> Seq<Seq<char>> {
    trimmed_pieces(joined(lines_of(script).filter(is_code_line()), "\n"@), ';').filter(is_full())
}

/// The statements of scripts, one script after the other.
pub open spec fn all_statements(scripts: Seq<Seq<char>>) -> Seq<Seq<char>>
    decreases scripts.len(),
{
    if scripts.len() == 0 {
        Seq::empty()
    } else {
        all_statements(scripts.drop_last()) + script_statements(scripts.last())
    }
}

/// Whether the failure of a statement that sets up the schema says that it was done before.
pub open spec fn says_done_before(message: Seq<char>) -> bool {
    ||| occurs_in("already exists"@, message)
    ||| occurs_in("duplicate column"@, message)
    ||| occurs_in("table already exists"@, message)
}

impl DbPool {
    /// The statements of a script that sets up the schema.
    pub fn execute_sql(script: &str) -> (res: Vec<String>)
        ensures
            texts(res@) == script_statements(script@),
    {
        let all = lines(script);
        let ghost f = is_code_line();
        let ghost views = texts(all@);
        let mut code: Vec<String> = Vec::new();
        let mut i: usize = 0;
        assert(views.take(0).filter(f) == Seq::<Seq<char>>::empty()) by {
            reveal(Seq::filter);
        }
        while i < all.len()
            invariant
                i <= all@.len(),
                f == is_code_line(),
                views == texts(all@),
                texts(code@) == views.take(i as int).filter(f),
            decreases all@.len() - i,
        {
            let ghost before = texts(code@);
            proof {
                reveal(Seq::filter);
                assert(views.take(i + 1).drop_last() == views.take(i as int));
                assert(views.take(i + 1).last() == all@[i as int]@);
            }
            if !starts_with(trim(all[i].as_str()).as_str(), "--") {
                code.push(all[i].clone());
                assert(texts(code@) == before.push(all@[i as int]@));
            }
            i = i + 1;
        }
        assert(views.take(views.len() as int) == views);
        assert(texts(code@).skip(0) == texts(code@));
        let cleaned = join(&code, 0, "\n");
        full_texts(split_trimmed(cleaned.as_str(), ';'))
    }

    /// The statements of the scripts that set up the schema, in the order in which to run them.
    /// A failure does not stop them.
    pub fn run_embedded_migrations(scripts: &Vec<String>) -> (res: Vec<String>)
        ensures
            texts(res@) == all_statements(texts(scripts@)),
    {
        let ghost views = texts(scripts@);
        let mut res: Vec<String> = Vec::new();
        let mut i: usize = 0;
        assert(views.take(0) == Seq::<Seq<char>>::empty());
        while i < scripts.len()
            invariant
                i <= scripts@.len(),
                views == texts(scripts@),
                texts(res@) == all_statements(views.take(i as int)),
            decreases scripts@.len() - i,
        {
            let ghost before = texts(res@);
            let mut more = Self::execute_sql(scripts[i].as_str());
            let ghost added = texts(more@);
            res.append(&mut more);
            assert(texts(res@) == before + added);
            assert(views.take(i + 1).drop_last() == views.take(i as int));
            assert(views.take(i + 1).last() == scripts@[i as int]@);
            i = i + 1;
        }
        assert(views.take(views.len() as int) == views);
        res
    }

    /// Whether the failure of a statement that sets up the schema can be passed over.
    pub fn is_idempotent(message: &str) -> (res: bool)
        ensures
            res == says_done_before(message@),
    {
        contains(message, "already exists") || contains(message, "duplicate column") || contains(
            message,
            "table already exists",
        )
    }
}

/// A statement of a script holds something and no semicolon.
pub proof fn law_statements_are_separate(script: Seq<char>, k: int)
    requires
        0 <= k < script_statements(script).len(),
    ensures
        script_statements(script)[k].len() > 0,
        !script_statements(script)[k].contains(';'),
{
    broadcast use vstd::seq_lib::group_filter_ensures;

    let cleaned = joined(lines_of(script).filter(is_code_line()), "\n"@);
    let parts = trimmed_pieces(cleaned, ';');
    let one = parts.filter(is_full())[k];
    assert(is_full()(one));
    lemma_filter_takes_from(parts, is_full(), k);
    let j = choose|j: int| 0 <= j < parts.len() && parts[j] == one;
    lemma_cut_holds_no_separator(cleaned, is_char(';'));
    let piece = pieces(cleaned, ';')[j];
    assert(parts[j] == trimmed(piece));
    if one.contains(';') {
        lemma_trimmed_holds_the_same(piece, ';');
        let i = piece.index_of(';');
        assert(!is_char(';')(pieces(cleaned, ';')[j][i]));
    }
}

/// What a filter lets through was there before.
proof fn lemma_filter_takes_from(s: Seq<Seq<char>>, f: spec_fn(Seq<char>) -> bool, k: int)
    requires
        0 <= k < s.filter(f).len(),
    ensures
        exists|j: int| 0 <= j < s.len() && #[trigger] s[j] == s.filter(f)[k],
    decreases s.len(),
{
    reveal(Seq::filter);
    if k < s.drop_last().filter(f).len() {
        lemma_filter_takes_from(s.drop_last(), f, k);
        let j = choose|j: int|
            0 <= j < s.drop_last().len() && #[trigger] s.drop_last()[j] == s.drop_last().filter(
                f,
            )[k];
        assert(s[j] == s.filter(f)[k]);
    } else {
        assert(s[s.len() - 1] == s.filter(f)[k]);
    }
}

/// Whether an account was made before the moment of the given text and never used.
pub open spec fn is_orphan(row: RowView, cutoff: Seq<char>) -> bool {
    &&& row.created_at is Some
    &&& text_less(row.created_at->0, cutoff)
    &&& row.has_updated == Some(0i64)
}

/// Being an orphan.
pub open spec fn orphans(cutoff: Seq<char>) -> spec_fn(RowView) -> bool {
    |r: RowView| is_orphan(r, cutoff)
}

/// The changes that delete the orphans among accounts, unless they were used in the meantime.
pub open spec fn delete_orphans(rows: Seq<RowView>, cutoff: Seq<char>) -> Seq<Change> {
    rows.filter(orphans(cutoff)).map_values(|r: RowView| Change::DeleteUnused(r.username))
}

/// The text of the moment before which an unused account is an orphan; none if it cannot be
/// written.
pub open spec fn orphan_cutoff(now: i64, timeout_seconds: i64) -> Option<Seq<char>> {
    if i64::MIN <= now - timeout_seconds <= i64::MAX {
        stamp_text((now - timeout_seconds) as i64)
    } else {
        None
    }
}

/// Whether `plan` is what there is to do about orphans at the moment `now`: nothing can be said if
/// the moment before which they were made cannot be written; else they are deleted.
pub open spec fn is_cleanup(
    pool: DbPool,
    rows: Seq<RowView>,
    timeout_seconds: i64,
    now: i64,
    plan: Option<Vec<Statement>>,
) -> bool {
    match orphan_cutoff(now, timeout_seconds) {
        Some(cutoff) => plan is Some && plan_view(plan->0@) == plan_of(
            pool,
            delete_orphans(rows, cutoff),
        ),
        None => plan is None,
    }
}

impl DbPool {
    /// Deletes, of the given accounts, those that were made more than `timeout_seconds` before
    /// `now` and never used. The times of making are compared as texts; for moments in years of
    /// four digits that is the order in time.
    pub fn cleanup_orphans_at(&self, rows: &Vec<RecordRow>, timeout_seconds: i64, now: i64) -> (res:
        Option<Vec<Statement>>)
        ensures
            is_cleanup(*self, row_views(rows@), timeout_seconds, now, res),
            i64::MIN <= now - timeout_seconds <= i64::MAX && four_digit_year(
                (now - timeout_seconds) as i64,
            ) ==> res is Some && (forall|i: int, made: i64|
                0 <= i < rows@.len() && four_digit_year(made) && (#[trigger] rows@[i]).created_at
                    is Some && rows@[i].created_at->0@ == (#[trigger] stamp_text(made))->0 ==> (
                is_orphan(rows@[i]@, orphan_cutoff(now, timeout_seconds)->0) <==> made
                    + timeout_seconds < now && rows@[i].has_updated == Some(0i64))),
    {
        let moment: i64 = match now.checked_sub(timeout_seconds) {
            Some(m) => m,
            None => {
                return None;
            },
        };
        let cutoff = match stamp_at(moment) {
            Some(c) => c,
            None => {
                return None;
            },
        };
        let ghost all = row_views(rows@);
        let ghost f = orphans(cutoff@);
        let ghost g = |r: RowView| sql_of(*self, Change::DeleteUnused(r.username));
        let mut res: Vec<Statement> = Vec::new();
        let mut i: usize = 0;
        proof {
            reveal(Seq::filter);
            assert(all.take(0).filter(f) == Seq::<RowView>::empty());
        }
        assert(plan_view(res@) == all.take(0).filter(f).map_values(g));
        while i < rows.len()
            invariant
                i <= rows@.len(),
                all == row_views(rows@),
                f == orphans(cutoff@),
                g == (|r: RowView| sql_of(*self, Change::DeleteUnused(r.username))),
                plan_view(res@) == all.take(i as int).filter(f).map_values(g),
            decreases rows@.len() - i,
        {
            let ghost before = plan_view(res@);
            let ghost done = all.take(i as int).filter(f);
            let ghost row = all[i as int];
            assert(row == rows@[i as int]@);
            proof {
                reveal(Seq::filter);
                assert(all.take(i + 1).drop_last() == all.take(i as int));
                assert(all.take(i + 1).last() == row);
            }
            let old_enough = match &rows[i].created_at {
                Some(t) => less(t.as_str(), cutoff.as_str()),
                None => false,
            };
            let unused = match rows[i].has_updated {
                Some(n) => n == 0,
                None => false,
            };
            assert((old_enough && unused) == f(row));
            if old_enough && unused {
                res.push(
                    statement(
                        self,
                        "DELETE FROM records WHERE Username = ? AND HasUpdated = 0",
                        "DELETE FROM records WHERE Username = $1 AND HasUpdated = 0",
                        one_bind(rows[i].username.as_str()),
                    ),
                );
                assert(plan_view(res@) == before.push(g(row)));
                assert(done.push(row).map_values(g) == before.push(g(row)));
            }
            i = i + 1;
        }
        assert(all.take(all.len() as int) == all);
        assert(plan_view(res@) =~= plan_of(*self, delete_orphans(all, cutoff@)));
        Some(res)
    }

    /// [`DbPool::cleanup_orphans_at`] the present moment.
    pub fn cleanup_orphan_records(&self, rows: &Vec<RecordRow>, timeout_seconds: i64) -> (res:
        Option<Vec<Statement>>)
        ensures
            exists|now: i64|
                now >= 0 && stamp_text(now) is Some && #[trigger] is_cleanup(
                    *self,
                    row_views(rows@),
                    timeout_seconds,
                    now,
                    res,
                ),
    {
        let now: i64 = utc_seconds();
        self.cleanup_orphans_at(rows, timeout_seconds, now)
    }
}

/// An account that was ever used is no orphan, however old it is.
pub proof fn law_used_accounts_are_no_orphans(row: RowView, cutoff: Seq<char>)
    requires
        row.has_updated is Some,
        row.has_updated->0 != 0,
    ensures
        !is_orphan(row, cutoff),
{
}

/// Whether a statement has the text that belongs to the kind of database, and the values.
pub open spec fn is_statement(
    s: Statement,
    pool: DbPool,
    sqlite: Seq<char>,
    postgres: Seq<char>,
    binds: Seq<BindView>,
) -> bool {
    &&& pool is Sqlite ==> s.sql@ == sqlite
    &&& pool is Postgres ==> s.sql@ == postgres
    &&& s.binds@.len() == binds.len()
    &&& forall|i: int|
        0 <= i < binds.len() ==> match binds[i] {
            BindView::Text(t) => (#[trigger] s.binds@[i]) is Text && s.binds@[i]->Text_0@ == t,
            BindView::Int(n) => s.binds@[i] is Int && s.binds@[i]->Int_0 == n,
        }
}

/// A statement that is equal as a value has the text and the values.
proof fn lemma_is_statement(
    s: Statement,
    pool: DbPool,
    sqlite: Seq<char>,
    postgres: Seq<char>,
    binds: Seq<BindView>,
)
    requires
        s@ == in_dialect(pool, sqlite, postgres, binds),
    ensures
        is_statement(s, pool, sqlite, postgres, binds),
{
    let v = s.binds@.map_values(|b: Bind| b@);
    assert(v == binds);
    assert(v.len() == s.binds@.len());
    assert forall|i: int| 0 <= i < binds.len() implies match binds[i] {
        BindView::Text(t) => (#[trigger] s.binds@[i]) is Text && s.binds@[i]->Text_0@ == t,
        BindView::Int(n) => s.binds@[i] is Int && s.binds@[i]->Int_0 == n,
    } by {
        assert(v[i] == s.binds@[i]@);
    }
}

/// Texts as values are these.
proof fn lemma_text_binds(a: Seq<char>, b: Seq<char>)
    ensures
        text_binds(seq![]) == Seq::<BindView>::empty(),
        text_binds(seq![a]) == seq![BindView::Text(a)],
        text_binds(seq![a, b]) == seq![BindView::Text(a), BindView::Text(b)],
{
    assert(text_binds(seq![]) =~= Seq::<BindView>::empty());
    assert(text_binds(seq![a]) =~= seq![BindView::Text(a)]);
    assert(text_binds(seq![a, b]) =~= seq![BindView::Text(a), BindView::Text(b)]);
}

/// The database is PostgreSQL only where that is named, at the address that is configured; else it is
/// SQLite, in shared memory, at an address of its kind, or in a file.
pub proof fn law_which_database(database: Database, res: DbPool)
    requires
        call_ensures(DbPool::new, (&database,), res),
    ensures
        res is Postgres <==> database.engine@ == "postgres"@,
        res matches DbPool::Postgres(url) ==> url@ == database.connection@,
        res matches DbPool::Sqlite(url) ==> {
            let c = database.connection@;
            &&& c == ":memory:"@ ==> url@ == "sqlite::memory:?cache=shared"@
            &&& forall|file: Seq<char>| c == #[trigger] ("sqlite:"@ + file) ==> url@ == c
            &&& c != ":memory:"@ && !(exists|file: Seq<char>| c == #[trigger] ("sqlite:"@ + file))
                ==> url@ == "sqlite://"@ + c
        },
{
    let c = database.connection@;
    let p = "sqlite:"@;
    reveal_strlit("sqlite:");
    reveal_strlit(":memory:");
    assert forall|file: Seq<char>| c == #[trigger] (p + file) implies p.is_prefix_of(c) && c
        != ":memory:"@ by {
        assert(c.subrange(0, p.len() as int) =~= p);
        assert(c[0] == 's');
        assert(":memory:"@[0] == ':');
    }
    if p.is_prefix_of(c) {
        assert(p + c.skip(p.len() as int) =~= c);
    }
}

/// The accounts that are asked for: that of a user name, that of a subdomain, all, or those that
/// were never used, each with all its columns.
pub proof fn law_questions_for_accounts(
    pool: DbPool,
    key: &str,
    by_name: Statement,
    by_sub: Statement,
    all: Statement,
    unused: Statement,
    columns: Seq<char>,
)
    requires
        columns
            == "SELECT Username, Password, Subdomain, AllowFrom, CAST(CreatedAt AS TEXT) as CreatedAt, HasUpdated FROM records"@,
        call_ensures(DbPool::get_user_by_username, (&pool, key), by_name),
        call_ensures(DbPool::get_user_by_subdomain, (&pool, key), by_sub),
        call_ensures(DbPool::list_users, (&pool,), all),
        call_ensures(DbPool::list_unused, (&pool,), unused),
    ensures
        is_statement(
            by_name,
            pool,
            columns + " WHERE Username = ?"@,
            columns + " WHERE Username = $1"@,
            seq![BindView::Text(key@)],
        ),
        is_statement(
            by_sub,
            pool,
            columns + " WHERE Subdomain = ?"@,
            columns + " WHERE Subdomain = $1"@,
            seq![BindView::Text(key@)],
        ),
        is_statement(all, pool, columns, columns, seq![]),
        is_statement(
            unused,
            pool,
            columns + " WHERE HasUpdated = 0"@,
            columns + " WHERE HasUpdated = 0"@,
            seq![],
        ),
{
    lemma_text_binds(key@, key@);
    lemma_is_statement(
        by_name,
        pool,
        columns + " WHERE Username = ?"@,
        columns + " WHERE Username = $1"@,
        seq![BindView::Text(key@)],
    );
    lemma_is_statement(
        by_sub,
        pool,
        columns + " WHERE Subdomain = ?"@,
        columns + " WHERE Subdomain = $1"@,
        seq![BindView::Text(key@)],
    );
    lemma_is_statement(all, pool, columns, columns, seq![]);
    lemma_is_statement(
        unused,
        pool,
        columns + " WHERE HasUpdated = 0"@,
        columns + " WHERE HasUpdated = 0"@,
        seq![],
    );
}

/// The administrator's hash is replaced by forgetting all and storing the new one, and read as it
/// was stored; an empty one counts as none.
pub proof fn law_statements_on_the_admin(
    pool: DbPool,
    hash: &str,
    ask: Statement,
    plan: Vec<Statement>,
    row: Option<String>,
    read: Option<String>,
)
    requires
        call_ensures(DbPool::get_admin_password_hash, (&pool,), ask),
        call_ensures(DbPool::set_admin_password, (&pool, hash), plan),
        call_ensures(DbPool::admin_password_hash, (row,), read),
    ensures
        is_statement(
            ask,
            pool,
            "SELECT Password FROM admin LIMIT 1"@,
            "SELECT Password FROM admin LIMIT 1"@,
            seq![],
        ),
        plan@.len() == 2,
        is_statement(plan@[0], pool, "DELETE FROM admin"@, "DELETE FROM admin"@, seq![]),
        is_statement(
            plan@[1],
            pool,
            "INSERT INTO admin (Password) VALUES (?)"@,
            "INSERT INTO admin (Password) VALUES ($1)"@,
            seq![BindView::Text(hash@)],
        ),
        read is Some <==> row is Some && row->Some_0@.len() > 0,
        read is Some ==> read->Some_0@ == row->Some_0@,
{
    lemma_text_binds(hash@, hash@);
    let v = plan_view(plan@);
    assert(v == plan_of(pool, replace_admin_hash(hash@)));
    assert(v.len() == plan@.len());
    assert(v[0] == plan@[0]@ && v[1] == plan@[1]@);
    lemma_is_statement(
        ask,
        pool,
        "SELECT Password FROM admin LIMIT 1"@,
        "SELECT Password FROM admin LIMIT 1"@,
        seq![],
    );
    lemma_is_statement(plan@[0], pool, "DELETE FROM admin"@, "DELETE FROM admin"@, seq![]);
    lemma_is_statement(
        plan@[1],
        pool,
        "INSERT INTO admin (Password) VALUES (?)"@,
        "INSERT INTO admin (Password) VALUES ($1)"@,
        seq![BindView::Text(hash@)],
    );
}

/// Whether a statement stores an account with the given columns.
pub open spec fn stores(
    s: Statement,
    pool: DbPool,
    username: Seq<char>,
    hash: Seq<char>,
    subdomain: Seq<char>,
    list: Seq<char>,
    created_at: Seq<char>,
) -> bool {
    is_statement(
        s,
        pool,
        "INSERT INTO records (Username, Password, Subdomain, AllowFrom, CreatedAt) VALUES (?, ?, ?, ?, ?)"@,
        "INSERT INTO records (Username, Password, Subdomain, AllowFrom, CreatedAt) VALUES ($1, $2, $3, $4, $5)"@,
        seq![
            BindView::Text(username),
            BindView::Text(hash),
            BindView::Text(subdomain),
            BindView::Text(list),
            BindView::Text(created_at),
        ],
    )
}

proof fn lemma_stores(
    s: Statement,
    pool: DbPool,
    username: Seq<char>,
    hash: Seq<char>,
    subdomain: Seq<char>,
    allow_from: Seq<char>,
    created_at: Seq<char>,
)
    requires
        s@ == sql_of(
            pool,
            Change::AddRecord { username, hash, subdomain, allow_from, created_at },
        ),
    ensures
        stores(s, pool, username, hash, subdomain, allow_from, created_at),
{
    let binds = seq![
        BindView::Text(username),
        BindView::Text(hash),
        BindView::Text(subdomain),
        BindView::Text(allow_from),
        BindView::Text(created_at),
    ];
    assert(text_binds(seq![username, hash, subdomain, allow_from, created_at]) =~= binds);
    lemma_is_statement(
        s,
        pool,
        "INSERT INTO records (Username, Password, Subdomain, AllowFrom, CreatedAt) VALUES (?, ?, ?, ?, ?)"@,
        "INSERT INTO records (Username, Password, Subdomain, AllowFrom, CreatedAt) VALUES ($1, $2, $3, $4, $5)"@,
        binds,
    );
}

/// A new account tells the names and the password that it was made with, and stores the names, the
/// hash, the list and the moment; without a hash or a list it is not made, and says why.
pub proof fn law_made_accounts(
    pool: DbPool,
    username: String,
    subdomain: String,
    password: String,
    hash: Result<String, String>,
    list: Result<String, String>,
    created_at: &str,
    res: Result<Registration, String>,
)
    requires
        call_ensures(
            DbPool::make_registration,
            (&pool, username, subdomain, password, hash, list, created_at),
            res,
        ),
    ensures
        res is Ok <==> hash is Ok && list is Ok,
        res matches Ok(r) ==> {
            &&& r.username@ == username@
            &&& r.subdomain@ == subdomain@
            &&& r.password@ == password@
            &&& stores(
                r.insert,
                pool,
                username@,
                hash->Ok_0@,
                subdomain@,
                list->Ok_0@,
                created_at@,
            )
        },
        res matches Err(e) ==> e@ == "error with configuration: "@ + (if hash is Err {
            hash->Err_0@
        } else {
            list->Err_0@
        }),
{
    if let Ok(r) = res {
        lemma_stores(
            r.insert,
            pool,
            username@,
            hash->Ok_0@,
            subdomain@,
            list->Ok_0@,
            created_at@,
        );
    }
}

/// An account that is made has a UUID for a user name and one for a subdomain, a password of forty
/// ASCII letters, digits, hyphens and underscores, and is stored with the two names, a hash of cost
/// ten that the password matches, a list that reads back as the networks, and a moment. The password
/// itself is not stored.
pub proof fn law_new_accounts(
    pool: DbPool,
    allow_from: &Vec<String>,
    res: Result<Registration, String>,
)
    requires
        call_ensures(DbPool::register, (&pool, allow_from), res),
    ensures
        res matches Ok(r) ==> {
            &&& r.username@.len() == 36 && r.subdomain@.len() == 36
            &&& forall|i: int|
                0 <= i < 36 ==> '0' <= #[trigger] r.username@[i] <= '9' || 'a' <= r.username@[i]
                    <= 'f' || r.username@[i] == '-'
            &&& forall|i: int|
                0 <= i < 36 ==> '0' <= #[trigger] r.subdomain@[i] <= '9' || 'a' <= r.subdomain@[i]
                    <= 'f' || r.subdomain@[i] == '-'
            &&& r.password@.len() == 40
            &&& forall|i: int|
                0 <= i < 40 ==> 'a' <= #[trigger] r.password@[i] <= 'z' || 'A' <= r.password@[i]
                    <= 'Z' || '0' <= r.password@[i] <= '9' || r.password@[i] == '-'
                    || r.password@[i] == '_'
            &&& exists|hash: Seq<char>, list: Seq<char>, made: Seq<char>| #[trigger]
                stores(r.insert, pool, r.username@, hash, r.subdomain@, list, made)
                    && bcrypt_matches(r.password@, hash) == Some(true) && is_bcrypt_hash(hash, 10)
                    && json_list(list) == Some(texts(allow_from@))
        },
{
    if let Ok(r) = res {
        assert forall|i: int| 0 <= i < 40 implies 'a' <= #[trigger] r.password@[i] <= 'z' || 'A'
            <= r.password@[i] <= 'Z' || '0' <= r.password@[i] <= '9' || r.password@[i] == '-'
            || r.password@[i] == '_' by {
            assert(is_token_char(r.password@[i]));
        }
        let (hash, list, secs) = choose|hash: Seq<char>, list: Seq<char>, secs: i64|
            is_stored_as(pool, texts(allow_from@), r, hash, list, secs);
        lemma_stores(
            r.insert,
            pool,
            r.username@,
            hash,
            r.subdomain@,
            list,
            stamp_text(secs)->0,
        );
        assert(stores(
            r.insert,
            pool,
            r.username@,
            hash,
            r.subdomain@,
            list,
            stamp_text(secs)->0,
        ));
    }
}

/// An account is read as it is stored: its names and its hash as they are, its networks as the list
/// that they are stored as, or none if that is no list, and it counts as used if the mark is there
/// and is not zero.
pub proof fn law_accounts_are_read_as_stored(row: RecordRow, res: Record, rows: Vec<RecordRow>, all: Vec<Record>)
    requires
        call_ensures(DbPool::record_from, (row,), res),
        call_ensures(DbPool::records_from, (rows,), all),
    ensures
        res.username@ == row.username@,
        res.password_hash@ == row.password@,
        res.subdomain@ == row.subdomain@,
        json_list(row.allow_from@) is Some ==> texts(res.allow_from@) == json_list(
            row.allow_from@,
        )->Some_0,
        json_list(row.allow_from@) is None ==> res.allow_from@.len() == 0,
        row.created_at is Some ==> res.created_at@ == row.created_at->Some_0@,
        row.created_at is None ==> res.created_at@.len() == 0,
        res.has_updated <==> row.has_updated is Some && row.has_updated->Some_0 != 0,
        all@.len() == rows@.len(),
        forall|i: int| 0 <= i < rows@.len() ==> rows@[i] == row ==> (#[trigger] all@[i])@ == res@,
{
    assert(texts(res.allow_from@).len() == res.allow_from@.len());
    assert(record_views(all@).len() == all@.len());
    assert(row_views(rows@).len() == rows@.len());
    assert forall|i: int| 0 <= i < rows@.len() && rows@[i] == row implies (#[trigger] all@[i])@
        == res@ by {
        assert(record_views(all@)[i] == all@[i]@);
        assert(row_views(rows@)[i] == rows@[i]@);
    }
}

/// An account is deleted with the challenge records of its subdomain, which go first; that it was
/// deleted shows in the rows that were.
pub proof fn law_statements_that_delete(
    pool: DbPool,
    username: &str,
    plan: Vec<Statement>,
    n: u64,
    gone: bool,
)
    requires
        call_ensures(DbPool::delete_user, (&pool, username), plan),
        call_ensures(DbPool::was_deleted, (n,), gone),
    ensures
        plan@.len() == 2,
        is_statement(
            plan@[0],
            pool,
            "DELETE FROM txt WHERE Subdomain IN (SELECT Subdomain FROM records WHERE Username = ?)"@,
            "DELETE FROM txt WHERE Subdomain IN (SELECT Subdomain FROM records WHERE Username = $1)"@,
            seq![BindView::Text(username@)],
        ),
        is_statement(
            plan@[1],
            pool,
            "DELETE FROM records WHERE Username = ?"@,
            "DELETE FROM records WHERE Username = $1"@,
            seq![BindView::Text(username@)],
        ),
        gone <==> n != 0,
{
    lemma_text_binds(username@, username@);
    let v = plan_view(plan@);
    assert(v == plan_of(pool, delete_account(username@)));
    assert(v.len() == plan@.len());
    assert(v[0] == plan@[0]@ && v[1] == plan@[1]@);
    lemma_is_statement(
        plan@[0],
        pool,
        "DELETE FROM txt WHERE Subdomain IN (SELECT Subdomain FROM records WHERE Username = ?)"@,
        "DELETE FROM txt WHERE Subdomain IN (SELECT Subdomain FROM records WHERE Username = $1)"@,
        seq![BindView::Text(username@)],
    );
    lemma_is_statement(
        plan@[1],
        pool,
        "DELETE FROM records WHERE Username = ?"@,
        "DELETE FROM records WHERE Username = $1"@,
        seq![BindView::Text(username@)],
    );
}

/// A challenge is stored with its subdomain and its token, at the present time, and the challenges
/// of a subdomain are asked for with number, time and token.
pub proof fn law_statements_on_challenges(
    pool: DbPool,
    subdomain: &str,
    txt: &str,
    add: Statement,
    ask: Statement,
)
    requires
        call_ensures(DbPool::update_txt, (&pool, subdomain, txt), add),
        call_ensures(DbPool::get_txt_for_domain, (&pool, subdomain), ask),
    ensures
        is_statement(
            add,
            pool,
            "INSERT INTO txt (Subdomain, Value, LastUpdate) VALUES (?, ?, CURRENT_TIMESTAMP)"@,
            "INSERT INTO txt (Subdomain, Value, LastUpdate) VALUES ($1, $2, CURRENT_TIMESTAMP)"@,
            seq![BindView::Text(subdomain@), BindView::Text(txt@)],
        ),
        is_statement(
            ask,
            pool,
            "SELECT rowid AS Id, CAST(LastUpdate AS TEXT) AS LastUpdate, Value FROM txt WHERE Subdomain = ?"@,
            "SELECT (ctid::text::point)[0]::bigint * 65536 + (ctid::text::point)[1]::bigint AS Id, CAST(LastUpdate AS TEXT) AS LastUpdate, Value FROM txt WHERE Subdomain = $1"@,
            seq![BindView::Text(subdomain@)],
        ),
{
    lemma_text_binds(subdomain@, txt@);
    lemma_is_statement(
        add,
        pool,
        "INSERT INTO txt (Subdomain, Value, LastUpdate) VALUES (?, ?, CURRENT_TIMESTAMP)"@,
        "INSERT INTO txt (Subdomain, Value, LastUpdate) VALUES ($1, $2, CURRENT_TIMESTAMP)"@,
        seq![BindView::Text(subdomain@), BindView::Text(txt@)],
    );
    lemma_is_statement(
        ask,
        pool,
        "SELECT rowid AS Id, CAST(LastUpdate AS TEXT) AS LastUpdate, Value FROM txt WHERE Subdomain = ?"@,
        "SELECT (ctid::text::point)[0]::bigint * 65536 + (ctid::text::point)[1]::bigint AS Id, CAST(LastUpdate AS TEXT) AS LastUpdate, Value FROM txt WHERE Subdomain = $1"@,
        seq![BindView::Text(subdomain@)],
    );
}

/// Whether one challenge record is newer than another: it was written later, as texts are ordered,
/// or at the same time and has the larger number.
pub open spec fn is_newer(a: TxtRow, b: TxtRow) -> bool {
    ||| exists|k: int| #[trigger] parts_at(b.last_update@, a.last_update@, k)
    ||| a.last_update@ == b.last_update@ && a.id > b.id
}

/// Whether the rows at `i` and `j` are the newest and the newest but one.
pub open spec fn are_newest(rows: Seq<TxtRow>, i: int, j: int) -> bool {
    &&& 0 <= i < rows.len()
    &&& 0 <= j < rows.len()
    &&& i != j
    &&& forall|k: int| 0 <= k < rows.len() && k != i ==> is_newer(rows[i], #[trigger] rows[k])
    &&& forall|k: int|
        0 <= k < rows.len() && k != i && k != j ==> is_newer(rows[j], #[trigger] rows[k])
}

/// Whether a record is one of the rows but those at `i` and `j`.
pub open spec fn is_another(rows: Seq<TxtRow>, i: int, j: int, x: TxtView) -> bool {
    exists|k: int| 0 <= k < rows.len() && k != i && k != j && (#[trigger] rows[k])@ == x
}

/// Of records with different numbers, the one that is not older is newer.
proof fn lemma_newer(a: TxtRow, b: TxtRow)
    requires
        not_older(a@, b@),
        a.id != b.id,
    ensures
        is_newer(a, b),
{
    lemma_text_less(b.last_update@, a.last_update@);
}

/// The newest of two or more records and the newest but one, by where they stand.
proof fn lemma_two_newest(rows: Seq<TxtRow>) -> (r: (int, int))
    requires
        rows.len() >= 2,
        forall|i: int, j: int|
            0 <= i < j < rows.len() ==> (#[trigger] rows[i]).id != (#[trigger] rows[j]).id,
    ensures
        are_newest(rows, r.0, r.1),
        newest_first(rows_view(rows))[0] == rows[r.0]@,
        newest_first(rows_view(rows))[1] == rows[r.1]@,
        forall|k: int|
            0 <= k < rows.len() && k != r.0 && k != r.1 ==> surplus_rows(
                rows_view(rows),
            ).contains((#[trigger] rows[k])@),
        forall|p: int|
            0 <= p < surplus_rows(rows_view(rows)).len() ==> is_another(
                rows,
                r.0,
                r.1,
                #[trigger] surplus_rows(rows_view(rows))[p],
            ),
{
    broadcast use vstd::seq_lib::group_to_multiset_ensures;

    let v = rows_view(rows);
    let all = newest_first(v);
    lemma_newest_first(v);
    let r = newness();
    assert(all.to_multiset() == v.to_multiset());
    assert(all.len() == v.len());
    assert forall|x: TxtView| all.contains(x) <==> v.contains(x) by {
        all.to_multiset_ensures();
        v.to_multiset_ensures();
        assert(all.to_multiset().count(x) == v.to_multiset().count(x));
    }
    assert(v.no_duplicates()) by {
        assert forall|i: int, j: int| 0 <= i < v.len() && 0 <= j < v.len() && i != j implies v[i]
            != v[j] by {
            assert(v[i] == rows[i]@ && v[j] == rows[j]@);
            assert(rows[i].id != rows[j].id);
        }
    }
    v.lemma_multiset_has_no_duplicates();
    all.lemma_multiset_has_no_duplicates_conv();
    assert(v.contains(all[0]) && v.contains(all[1])) by {
        assert(all.contains(all[0]) && all.contains(all[1]));
    }
    let i = v.index_of(all[0]);
    let j = v.index_of(all[1]);
    assert(v[i] == rows[i]@ && v[j] == rows[j]@);
    assert(all[0] != all[1]);
    let back = surplus_rows(v);
    assert(kept(v.len()) == 2);
    assert forall|k: int| 0 <= k < rows.len() && k != i && k != j implies back.contains(
        (#[trigger] rows[k])@,
    ) && is_newer(rows[j], rows[k]) by {
        assert(v[k] == rows[k]@);
        assert(v.contains(v[k]));
        let p = all.index_of(v[k]);
        assert(all[p] == v[k]);
        assert(p != 0) by {
            if p == 0 {
                assert(v[k] == v[i]);
            }
        }
        assert(p != 1) by {
            if p == 1 {
                assert(v[k] == v[j]);
            }
        }
        assert(back[p - 2] == all[p]);
        assert(r(all[1], all[p]));
        assert(rows[j].id != rows[k].id);
        lemma_newer(rows[j], rows[k]);
    }
    assert forall|k: int| 0 <= k < rows.len() && k != i implies is_newer(
        rows[i],
        #[trigger] rows[k],
    ) by {
        assert(v[k] == rows[k]@);
        assert(v.contains(v[k]));
        let p = all.index_of(v[k]);
        assert(all[p] == v[k]);
        assert(p != 0) by {
            if p == 0 {
                assert(v[k] == v[i]);
            }
        }
        assert(r(all[0], all[p]));
        assert(rows[i].id != rows[k].id);
        lemma_newer(rows[i], rows[k]);
    }
    assert forall|p: int| 0 <= p < back.len() implies is_another(rows, i, j, #[trigger] back[p]) by {
        assert(back[p] == all[p + 2]);
        assert(all.contains(all[p + 2]));
        let k = v.index_of(all[p + 2]);
        assert(v[k] == rows[k]@);
        assert(all[p + 2] != all[0] && all[p + 2] != all[1]);
    }
    (i, j)
}

/// What is read of a subdomain are the tokens of its two newest records, the newest first, or of all
/// if it has no more.
pub proof fn law_newest_tokens_are_read(rows: Vec<TxtRow>, res: Vec<String>)
    requires
        call_ensures(DbPool::txt_values, (rows,), res),
        forall|i: int, j: int|
            0 <= i < j < rows@.len() ==> (#[trigger] rows@[i]).id != (#[trigger] rows@[j]).id,
    ensures
        rows@.len() == 0 ==> res@.len() == 0,
        rows@.len() == 1 ==> texts(res@) == seq![rows@[0].value@],
        rows@.len() >= 2 ==> exists|i: int, j: int| #[trigger]
            are_newest(rows@, i, j) && texts(res@) == seq![rows@[i].value@, rows@[j].value@],
{
    broadcast use vstd::seq_lib::group_to_multiset_ensures;

    let v = rows_view(rows@);
    let all = newest_first(v);
    lemma_newest_first(v);
    assert(texts(res@).len() == res@.len());
    assert(all.len() == v.len()) by {
        all.to_multiset_ensures();
        v.to_multiset_ensures();
    }
    if rows@.len() == 1 {
        assert(v[0] == rows@[0]@);
        assert(all.contains(all[0]));
        assert(v.to_multiset().count(all[0]) > 0) by {
            all.to_multiset_ensures();
        }
        assert(v.contains(all[0])) by {
            v.to_multiset_ensures();
        }
        assert(texts(res@) =~= seq![rows@[0].value@]);
    } else if rows@.len() >= 2 {
        let (i, j) = lemma_two_newest(rows@);
        assert(texts(res@) =~= seq![rows@[i].value@, rows@[j].value@]);
        assert(are_newest(rows@, i, j));
    }
}

/// Whether a statement deletes one record of a subdomain.
pub open spec fn deletes_record(s: Statement, pool: DbPool, subdomain: Seq<char>, row: TxtRow) -> bool {
    is_statement(
        s,
        pool,
        "DELETE FROM txt WHERE Subdomain = ? AND rowid = ? AND Value = ?"@,
        "DELETE FROM txt WHERE Subdomain = $1 AND (ctid::text::point)[0]::bigint * 65536 + (ctid::text::point)[1]::bigint = $2 AND Value = $3"@,
        seq![BindView::Text(subdomain), BindView::Int(row.id), BindView::Text(row.value@)],
    )
}

/// Whether one of the statements but the last deletes a record.
pub open spec fn one_deletes(plan: Seq<Statement>, pool: DbPool, subdomain: Seq<char>, row: TxtRow) -> bool {
    exists|s: int|
        0 <= s < plan.len() - 1 && deletes_record(#[trigger] plan[s], pool, subdomain, row)
}

/// Whether a statement deletes one of the records but those at `i` and `j`.
pub open spec fn deletes_one(
    s: Statement,
    pool: DbPool,
    subdomain: Seq<char>,
    rows: Seq<TxtRow>,
    i: int,
    j: int,
) -> bool {
    exists|k: int|
        0 <= k < rows.len() && k != i && k != j && deletes_record(
            s,
            pool,
            subdomain,
            #[trigger] rows[k],
        )
}

/// After a challenge was stored, each record of the subdomain but the two newest is deleted, with no
/// other, and the account is marked as used.
pub proof fn law_old_tokens_are_deleted(
    pool: DbPool,
    subdomain: &str,
    rows: Vec<TxtRow>,
    plan: Vec<Statement>,
)
    requires
        call_ensures(DbPool::prune_txt, (&pool, subdomain, rows), plan),
        forall|i: int, j: int|
            0 <= i < j < rows@.len() ==> (#[trigger] rows@[i]).id != (#[trigger] rows@[j]).id,
    ensures
        plan@.len() == (if rows@.len() < 2 {
            1
        } else {
            rows@.len() - 1
        }),
        is_statement(
            plan@.last(),
            pool,
            "UPDATE records SET HasUpdated = 1 WHERE Subdomain = ?"@,
            "UPDATE records SET HasUpdated = 1 WHERE Subdomain = $1"@,
            seq![BindView::Text(subdomain@)],
        ),
        rows@.len() >= 2 ==> exists|i: int, j: int| #[trigger]
            are_newest(rows@, i, j) && (forall|k: int|
                0 <= k < rows@.len() && k != i && k != j ==> one_deletes(
                    plan@,
                    pool,
                    subdomain@,
                    #[trigger] rows@[k],
                )) && (forall|s: int|
                0 <= s < plan@.len() - 1 ==> deletes_one(
                    #[trigger] plan@[s],
                    pool,
                    subdomain@,
                    rows@,
                    i,
                    j,
                )),
{
    broadcast use vstd::seq_lib::group_to_multiset_ensures;

    let v = rows_view(rows@);
    let all = newest_first(v);
    lemma_newest_first(v);
    assert(all.len() == v.len()) by {
        all.to_multiset_ensures();
        v.to_multiset_ensures();
    }
    let back = surplus_rows(v);
    let changes = prune(subdomain@, v);
    let p = plan_view(plan@);
    assert(p == plan_of(pool, changes));
    assert(p.len() == plan@.len());
    assert(changes.len() == back.len() + 1);
    lemma_text_binds(subdomain@, subdomain@);
    assert(p[p.len() - 1] == plan@.last()@);
    assert(changes[back.len() as int] == Change::MarkUsed(subdomain@));
    lemma_is_statement(
        plan@.last(),
        pool,
        "UPDATE records SET HasUpdated = 1 WHERE Subdomain = ?"@,
        "UPDATE records SET HasUpdated = 1 WHERE Subdomain = $1"@,
        seq![BindView::Text(subdomain@)],
    );
    if rows@.len() >= 2 {
        let (i, j) = lemma_two_newest(rows@);
        assert forall|s: int, k: int|
            0 <= s < back.len() && 0 <= k < rows@.len() && (#[trigger] rows@[k])@
                == #[trigger] back[s] implies deletes_record(
            plan@[s],
            pool,
            subdomain@,
            rows@[k],
        ) by {
            assert(p[s] == plan@[s]@);
            assert(changes[s] == Change::DeleteTxt(subdomain@, back[s]));
            lemma_is_statement(
                plan@[s],
                pool,
                "DELETE FROM txt WHERE Subdomain = ? AND rowid = ? AND Value = ?"@,
                "DELETE FROM txt WHERE Subdomain = $1 AND (ctid::text::point)[0]::bigint * 65536 + (ctid::text::point)[1]::bigint = $2 AND Value = $3"@,
                seq![
                    BindView::Text(subdomain@),
                    BindView::Int(rows@[k].id),
                    BindView::Text(rows@[k].value@),
                ],
            );
        }
        assert forall|k: int| 0 <= k < rows@.len() && k != i && k != j implies one_deletes(
            plan@,
            pool,
            subdomain@,
            #[trigger] rows@[k],
        ) by {
            let s = back.index_of(rows@[k]@);
            assert(back[s] == rows@[k]@);
            assert(deletes_record(plan@[s], pool, subdomain@, rows@[k]));
        }
        assert forall|s: int| 0 <= s < plan@.len() - 1 implies deletes_one(
            #[trigger] plan@[s],
            pool,
            subdomain@,
            rows@,
            i,
            j,
        ) by {
            assert(is_another(rows@, i, j, back[s]));
            let k = choose|k: int|
                0 <= k < rows@.len() && k != i && k != j && (#[trigger] rows@[k])@ == back[s];
            assert(deletes_record(plan@[s], pool, subdomain@, rows@[k]));
        }
        assert(are_newest(rows@, i, j));
    }
}

/// Whether an account was made before the moment of a text, as texts are ordered, and never used.
pub open spec fn is_left_over(row: RecordRow, cutoff: Seq<char>) -> bool {
    &&& row.created_at is Some
    &&& exists|k: int| #[trigger] parts_at(row.created_at->Some_0@, cutoff, k)
    &&& row.has_updated == Some(0i64)
}

/// Whether a statement deletes the account of a row unless it was used.
pub open spec fn deletes_unused(s: Statement, pool: DbPool, row: RecordRow) -> bool {
    is_statement(
        s,
        pool,
        "DELETE FROM records WHERE Username = ? AND HasUpdated = 0"@,
        "DELETE FROM records WHERE Username = $1 AND HasUpdated = 0"@,
        seq![BindView::Text(row.username@)],
    )
}

/// Whether one of the statements deletes the account of a row.
pub open spec fn one_deletes_unused(plan: Seq<Statement>, pool: DbPool, row: RecordRow) -> bool {
    exists|s: int| 0 <= s < plan.len() && deletes_unused(#[trigger] plan[s], pool, row)
}

/// Whether a statement deletes one of the accounts that are left over.
pub open spec fn deletes_left_over(
    s: Statement,
    pool: DbPool,
    rows: Seq<RecordRow>,
    cutoff: Seq<char>,
) -> bool {
    exists|i: int|
        0 <= i < rows.len() && is_left_over(#[trigger] rows[i], cutoff) && deletes_unused(
            s,
            pool,
            rows[i],
        )
}

/// The accounts that were made more than the timeout ago and never used are deleted, and no others;
/// nothing is done where the moment is out of range.
pub proof fn law_orphans_are_deleted(
    pool: DbPool,
    rows: &Vec<RecordRow>,
    timeout_seconds: i64,
    now: i64,
    res: Option<Vec<Statement>>,
    cutoff: Option<Seq<char>>,
)
    requires
        call_ensures(DbPool::cleanup_orphans_at, (&pool, rows, timeout_seconds, now), res),
        cutoff == (if i64::MIN <= now - timeout_seconds <= i64::MAX {
            utc_text((now - timeout_seconds) as i64, "%Y-%m-%d %H:%M:%S"@)
        } else {
            None
        }),
    ensures
        res is Some <==> cutoff is Some,
        res matches Some(plan) ==> {
            &&& forall|i: int|
                0 <= i < rows@.len() && is_left_over(#[trigger] rows@[i], cutoff->Some_0)
                    ==> one_deletes_unused(plan@, pool, rows@[i])
            &&& forall|s: int|
                0 <= s < plan@.len() ==> deletes_left_over(
                    #[trigger] plan@[s],
                    pool,
                    rows@,
                    cutoff->Some_0,
                )
            &&& plan@.len() <= rows@.len()
        },
{
    if let Some(plan) = res {
        let c = cutoff->Some_0;
        let all = row_views(rows@);
        let f = orphans(c);
        let left = all.filter(f);
        let changes = delete_orphans(all, c);
        let p = plan_view(plan@);
        assert(p == plan_of(pool, changes));
        assert(p.len() == plan@.len());
        assert(changes.len() == left.len());
        assert forall|i: int| 0 <= i < rows@.len() implies f(#[trigger] all[i]) == is_left_over(
            rows@[i],
            c,
        ) by {
            assert(all[i] == rows@[i]@);
            if rows@[i].created_at is Some {
                lemma_text_less(rows@[i].created_at->Some_0@, c);
            }
        }
        assert forall|s: int, i: int|
            0 <= s < left.len() && 0 <= i < rows@.len() && #[trigger] left[s]
                == #[trigger] all[i] implies deletes_unused(plan@[s], pool, rows@[i]) by {
            assert(p[s] == plan@[s]@);
            assert(all[i] == rows@[i]@);
            assert(changes[s] == Change::DeleteUnused(left[s].username));
            lemma_text_binds(rows@[i].username@, rows@[i].username@);
            lemma_is_statement(
                plan@[s],
                pool,
                "DELETE FROM records WHERE Username = ? AND HasUpdated = 0"@,
                "DELETE FROM records WHERE Username = $1 AND HasUpdated = 0"@,
                seq![BindView::Text(rows@[i].username@)],
            );
        }
        assert forall|i: int|
            0 <= i < rows@.len() && is_left_over(#[trigger] rows@[i], c) implies one_deletes_unused(
            plan@,
            pool,
            rows@[i],
        ) by {
            assert(f(all[i]));
            lemma_filter_has(all, f, i);
            let s = left.index_of(all[i]);
            assert(left[s] == all[i]);
            assert(deletes_unused(plan@[s], pool, rows@[i]));
        }
        assert forall|s: int| 0 <= s < plan@.len() implies deletes_left_over(
            #[trigger] plan@[s],
            pool,
            rows@,
            c,
        ) by {
            let i = lemma_filter_from(all, f, s);
            assert(left[s] == all[i]);
            assert(is_left_over(rows@[i], c));
            assert(deletes_unused(plan@[s], pool, rows@[i]));
        }
        lemma_filter_len(all, f);
    }
}

/// What passes a filter is let through.
proof fn lemma_filter_has(s: Seq<RowView>, f: spec_fn(RowView) -> bool, i: int)
    requires
        0 <= i < s.len(),
        f(s[i]),
    ensures
        s.filter(f).contains(s[i]),
    decreases s.len(),
{
    reveal(Seq::filter);
    let r = s.drop_last();
    if i < r.len() {
        lemma_filter_has(r, f, i);
        let k = r.filter(f).index_of(s[i]);
        assert(s.filter(f)[k] == s[i]);
    } else {
        assert(s.filter(f)[r.filter(f).len() as int] == s[i]);
    }
}

/// What a filter lets through passes it and was there; it lets no more through than there is.
proof fn lemma_filter_from(s: Seq<RowView>, f: spec_fn(RowView) -> bool, k: int) -> (i: int)
    requires
        0 <= k < s.filter(f).len(),
    ensures
        0 <= i < s.len(),
        s[i] == s.filter(f)[k],
        f(s[i]),
    decreases s.len(),
{
    reveal(Seq::filter);
    let r = s.drop_last();
    if k < r.filter(f).len() {
        let i = lemma_filter_from(r, f, k);
        assert(s[i] == r[i]);
        i
    } else {
        s.len() - 1
    }
}

proof fn lemma_filter_len(s: Seq<RowView>, f: spec_fn(RowView) -> bool)
    ensures
        s.filter(f).len() <= s.len(),
    decreases s.len(),
{
    reveal(Seq::filter);
    if s.len() > 0 {
        lemma_filter_len(s.drop_last(), f);
    }
}

/// A line that starts with two hyphens, after white space or without, counts for nothing in a script.
/// A line without a semicolon is one statement without the white space around it, if anything is
/// left.
pub proof fn law_scripts(line: Seq<char>, rest: Seq<char>)
    requires
        !line.contains('\n'),
    ensures
        "--"@.is_prefix_of(trimmed(line)) ==> script_statements(line + seq!['\n'] + rest)
            == script_statements(rest),
        "--"@.is_prefix_of(trimmed(line)) ==> script_statements(line).len() == 0,
        !"--"@.is_prefix_of(trimmed(line)) && !line.contains(';') ==> script_statements(line) == (
        if trimmed(line).len() > 0 {
            seq![trimmed(line)]
        } else {
            Seq::empty()
        }),
{
    reveal_strlit("--");
    law_lines(line, rest);
    let f = is_code_line();
    let g = is_full();
    let none = Seq::<char>::empty();
    let nothing = Seq::<Seq<char>>::empty();
    reveal(Seq::filter);
    assert(nothing.filter(f) =~= nothing);
    assert(nothing.filter(g) =~= nothing);
    assert(trimmed(none) =~= none);
    assert(seq![none].drop_last() =~= nothing);
    law_pieces(none, ';', none);
    assert(trimmed_pieces(none, ';') =~= seq![none]);
    assert(seq![none].filter(g) =~= nothing);
    assert(joined(nothing, "\n"@) =~= none);
    if "--"@.is_prefix_of(trimmed(line)) {
        let cut = if line.len() > 0 && line.last() == '\r' {
            line.drop_last()
        } else {
            line
        };
        if line.len() > 0 && line.last() == '\r' {
            lemma_still_comment(line);
        }
        assert(seq![cut].drop_last() =~= nothing);
        assert(seq![cut].filter(f) =~= nothing);
        Seq::filter_distributes_over_add(seq![cut], lines_of(rest), f);
        assert(nothing + lines_of(rest).filter(f) =~= lines_of(rest).filter(f));
        if line.len() > 0 {
            assert(seq![line].drop_last() =~= nothing);
            assert(seq![line].filter(f) =~= nothing);
        } else {
            assert(line =~= none);
        }
    } else if !line.contains(';') {
        law_pieces(line, ';', none);
        assert(trimmed_pieces(line, ';') =~= seq![trimmed(line)]);
        assert(seq![trimmed(line)].drop_last() =~= nothing);
        if line.len() > 0 {
            assert(seq![line].drop_last() =~= nothing);
            assert(seq![line].filter(f) =~= seq![line]);
            assert(joined(seq![line], "\n"@) == line);
        } else {
            assert(line =~= none);
        }
    }
}

/// A comment is one without a carriage return at its end too.
proof fn lemma_still_comment(line: Seq<char>)
    requires
        "--"@.is_prefix_of(trimmed(line)),
        line.len() > 0 && line.last() == '\r',
    ensures
        "--"@.is_prefix_of(trimmed(line.drop_last())),
{
    lemma_trimmed_without_last(line);
}

/// Scripts are run one after the other, each statement as it stands in its script.
pub proof fn law_scripts_follow_each_other(
    first: &str,
    of_first: Vec<String>,
    before: Vec<String>,
    of_before: Vec<String>,
    all: Vec<String>,
    of_all: Vec<String>,
)
    requires
        call_ensures(DbPool::execute_sql, (first,), of_first),
        call_ensures(DbPool::run_embedded_migrations, (&before,), of_before),
        call_ensures(DbPool::run_embedded_migrations, (&all,), of_all),
        texts(all@) == texts(before@).push(first@),
    ensures
        texts(of_all@) == texts(of_before@) + texts(of_first@),
        before@.len() == 0 ==> of_before@.len() == 0,
{
    assert(texts(all@).drop_last() =~= texts(before@));
    assert(texts(of_before@).len() == of_before@.len());
    assert(texts(before@).len() == before@.len());
}

/// A failure is passed over only if it says that something exists already or that a column is a
/// duplicate.
pub proof fn law_failures_that_are_passed_over(message: &str, res: bool)
    requires
        call_ensures(DbPool::is_idempotent, (message,), res),
    ensures
        res <==> (exists|a: Seq<char>, b: Seq<char>| #[trigger]
            (a + "already exists"@ + b) == message@) || (exists|a: Seq<char>, b: Seq<char>| #[trigger]
            (a + "duplicate column"@ + b) == message@),
{
    let m = message@;
    lemma_occurs("already exists"@, m);
    lemma_occurs("duplicate column"@, m);
    lemma_occurs("table already exists"@, m);
    if occurs_in("table already exists"@, m) {
        let (a, b) = choose|a: Seq<char>, b: Seq<char>| #[trigger]
            (a + "table already exists"@ + b) == m;
        reveal_strlit("table already exists");
        reveal_strlit("table ");
        reveal_strlit("already exists");
        assert("table already exists"@ =~= "table "@ + "already exists"@);
        assert((a + "table "@) + "already exists"@ + b =~= m);
    }
}

/// A part occurs in what is something, the part, and something.
proof fn lemma_occurs(part: Seq<char>, s: Seq<char>)
    ensures
        occurs_in(part, s) <==> exists|a: Seq<char>, b: Seq<char>| #[trigger] (a + part + b) == s,
{
    if occurs_in(part, s) {
        let i = choose|i: int|
            0 <= i <= s.len() - part.len() && #[trigger] s.subrange(i, i + part.len()) == part;
        assert(s.take(i) + part + s.skip(i + part.len()) =~= s);
    }
    if exists|a: Seq<char>, b: Seq<char>| #[trigger] (a + part + b) == s {
        let (a, b) = choose|a: Seq<char>, b: Seq<char>| #[trigger] (a + part + b) == s;
        assert(s.subrange(a.len() as int, (a.len() + part.len()) as int) =~= part);
    }
}

/// The stored networks of an account are worth a warning only if they are no list.
pub proof fn law_malformed_lists(raw: &str, res: bool)
    requires
        call_ensures(DbPool::is_malformed_list, (raw,), res),
    ensures
        res <==> json_list(raw@) is None,
{
}

/// Five connections are kept, a locked database is waited for ten seconds, and two challenges of an
/// account are kept.
pub proof fn law_numbers_of_the_database()
    ensures
        MAX_CONNECTIONS == 5,
        BUSY_TIMEOUT == 10,
        KEPT_TXT == 2,
{
}

/// An account is stored with all its columns, each at its place.
pub proof fn law_accounts_are_stored(
    pool: DbPool,
    username: &str,
    hash: &str,
    subdomain: &str,
    list: &str,
    created_at: &str,
    res: Statement,
)
    requires
        call_ensures(
            DbPool::store_record,
            (&pool, username, hash, subdomain, list, created_at),
            res,
        ),
    ensures
        stores(res, pool, username@, hash@, subdomain@, list@, created_at@),
{
    lemma_stores(res, pool, username@, hash@, subdomain@, list@, created_at@);
}

/// The orphans that are deleted are those of the present moment.
pub proof fn law_orphans_of_the_moment(
    pool: DbPool,
    rows: &Vec<RecordRow>,
    timeout_seconds: i64,
    res: Option<Vec<Statement>>,
)
    requires
        call_ensures(DbPool::cleanup_orphan_records, (&pool, rows, timeout_seconds), res),
    ensures
        exists|now: i64|
            now >= 0 && #[trigger] is_cleanup(pool, row_views(rows@), timeout_seconds, now, res),
{
}

/// The statements of one text without comments.
proof fn lemma_statements_of_code(a: Seq<char>, b: Seq<char>)
    ensures
        trimmed_pieces(a + seq![';'] + b, ';') == trimmed_pieces(a, ';') + trimmed_pieces(b, ';'),
        trimmed_pieces(seq!['\n'] + b, ';') == trimmed_pieces(b, ';'),
{
    law_pieces_on_both_sides(a, ';', b);
    let f = |p: Seq<char>| trimmed(p);
    assert(trimmed_pieces(a + seq![';'] + b, ';') =~= trimmed_pieces(a, ';') + trimmed_pieces(
        b,
        ';',
    ));
    lemma_cut_with_first('\n', b, is_char(';'));
    lemma_cut_nonempty(b, is_char(';'));
    let p = pieces(b, ';');
    let q = pieces(seq!['\n'] + b, ';');
    assert((seq!['\n'] + p[0]).drop_first() =~= p[0]);
    assert(trimmed(seq!['\n'] + p[0]) == trimmed(p[0]));
    assert forall|k: int| 0 <= k < q.len() implies #[trigger] trimmed(q[k]) == trimmed(p[k]) by {
        if k > 0 {
            assert(q[k] == p[k]);
        }
    }
    assert(trimmed_pieces(seq!['\n'] + b, ';') =~= trimmed_pieces(b, ';'));
}

/// A semicolon ends a statement: the statements of a line with one are those before it and those
/// behind it, and the statements of a script whose first line ends with one are those of the line and
/// those of the other lines. The lines are no comments.
pub proof fn law_semicolons_end_statements(a: Seq<char>, b: Seq<char>, rest: Seq<char>)
    requires
        !a.contains('\n'),
        !b.contains('\n'),
        !"--"@.is_prefix_of(trimmed(a)),
        !"--"@.is_prefix_of(trimmed(b)),
        !"--"@.is_prefix_of(trimmed(a + seq![';'] + b)),
        !"--"@.is_prefix_of(trimmed(a + seq![';'])),
    ensures
        script_statements(a + seq![';'] + b) == script_statements(a) + script_statements(b),
        script_statements(a + seq![';'] + seq!['\n'] + rest) == script_statements(a)
            + script_statements(rest),
{
    let g = is_full();
    let s = a + seq![';'] + b;
    let l = a + seq![';'];
    let none = Seq::<char>::empty();
    lemma_holds_no_line(a, b);
    lemma_holds_no_line(a, none);
    assert(a + seq![';'] + none =~= l);
    lemma_statements_of_line(a);
    lemma_statements_of_line(b);
    lemma_statements_of_line(s);
    lemma_statements_of_code(a, b);
    Seq::filter_distributes_over_add(trimmed_pieces(a, ';'), trimmed_pieces(b, ';'), g);
    let f = is_code_line();
    reveal(Seq::filter);
    law_lines(l, rest);
    assert(l.last() == ';');
    let nothing = Seq::<Seq<char>>::empty();
    assert(nothing.filter(f) =~= nothing);
    assert(seq![l].drop_last() =~= nothing);
    assert(seq![l].filter(f) =~= seq![l]);
    let code = lines_of(rest).filter(f);
    Seq::filter_distributes_over_add(seq![l], lines_of(rest), f);
    reveal_strlit("\n");
    assert("\n"@ =~= seq!['\n']);
    let c = joined(code, "\n"@);
    law_joined(l, code, "\n"@);
    if code.len() > 0 {
        let text = l + seq!['\n'] + c;
        assert(text =~= a + seq![';'] + (seq!['\n'] + c));
        lemma_statements_of_code(a, seq!['\n'] + c);
        lemma_statements_of_code(a, c);
    } else {
        assert(code =~= nothing);
        assert(seq![l] + code =~= seq![l]);
        assert(c =~= none);
        lemma_statements_of_code(a, none);
    }
    Seq::filter_distributes_over_add(trimmed_pieces(a, ';'), trimmed_pieces(c, ';'), g);
}

/// Neither a text nor what is put together with it has line feeds that its parts do not have.
proof fn lemma_holds_no_line(a: Seq<char>, b: Seq<char>)
    requires
        !a.contains('\n'),
        !b.contains('\n'),
    ensures
        !(a + seq![';'] + b).contains('\n'),
{
    let s = a + seq![';'] + b;
    if s.contains('\n') {
        let i = s.index_of('\n');
        if i < a.len() {
            assert(a[i] == '\n');
        } else if i > a.len() {
            assert(b[i - a.len() - 1] == '\n');
        }
    }
}

/// The statements of a line that is no comment are its pieces that hold something.
proof fn lemma_statements_of_line(s: Seq<char>)
    requires
        !s.contains('\n'),
        !"--"@.is_prefix_of(trimmed(s)),
    ensures
        script_statements(s) == trimmed_pieces(s, ';').filter(is_full()),
{
    let f = is_code_line();
    let nothing = Seq::<Seq<char>>::empty();
    reveal(Seq::filter);
    law_lines(s, Seq::empty());
    assert(nothing.filter(f) =~= nothing);
    if s.len() > 0 {
        assert(seq![s].drop_last() =~= nothing);
        assert(seq![s].filter(f) =~= seq![s]);
        assert(joined(seq![s], "\n"@) == s);
    } else {
        assert(s =~= Seq::empty());
        assert(joined(nothing, "\n"@) =~= s);
    }
}

} // verus!
