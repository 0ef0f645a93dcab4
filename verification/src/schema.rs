//! The statements that set up the tables, and what they do to a database that may have some of them
//! already.

use vstd::multiset::Multiset;
use vstd::prelude::*;

use crate::db::{all_statements, is_code_line, script_statements, Query, RowView, TxtView};
use crate::tables::{is_answer, lemma_answer_len, used, Tables};
use crate::text::{
    cut_at, is_char, is_full, is_space, joined, lines_of, pieces, texts, trimmed, trimmed_pieces,
};

verus! {

/// One statement that sets up the tables.
#[derive(Debug, Clone, Copy)]
pub enum SchemaStep {
    /// The table of the administrator's hash is made, if there is none.
    CreateAdmin,
    /// The table of the accounts is made, if there is none.
    CreateRecords,
    /// The table of the challenge records is made, if there is none.
    CreateTxt,
    /// The accounts get a column for the moment of their making. It has no default, since one that
    /// is not constant cannot be added to a table; a column that is there already is an error.
    AddCreatedAt,
    /// Accounts whose making is not known are taken to be made now.
    FillCreatedAt,
    /// The accounts get a column for whether they were ever used; a column that is there already is
    /// an error.
    AddHasUpdated,
    /// Accounts that have a challenge record are marked as used.
    MarkThoseWithTokens,
}

/// The text of a statement.
pub open spec fn step_sql(step: SchemaStep) -> Seq<char> {
    match step {
        SchemaStep::CreateAdmin => "CREATE TABLE IF NOT EXISTS admin (Password TEXT NOT NULL)"@,
        SchemaStep::CreateRecords => "CREATE TABLE IF NOT EXISTS records (Username TEXT UNIQUE NOT NULL PRIMARY KEY, Password TEXT UNIQUE NOT NULL, Subdomain TEXT UNIQUE NOT NULL, AllowFrom TEXT)"@,
        SchemaStep::CreateTxt => "CREATE TABLE IF NOT EXISTS txt (Subdomain TEXT NOT NULL, Value TEXT NOT NULL DEFAULT '', LastUpdate TIMESTAMP DEFAULT CURRENT_TIMESTAMP)"@,
        SchemaStep::AddCreatedAt => "ALTER TABLE records ADD COLUMN CreatedAt TEXT"@,
        SchemaStep::FillCreatedAt => "UPDATE records SET CreatedAt = CAST(CURRENT_TIMESTAMP AS TEXT) WHERE CreatedAt IS NULL"@,
        SchemaStep::AddHasUpdated => "ALTER TABLE records ADD COLUMN HasUpdated BIGINT NOT NULL DEFAULT 0"@,
        SchemaStep::MarkThoseWithTokens => "UPDATE records SET HasUpdated = 1 WHERE HasUpdated = 0 AND Subdomain IN (SELECT Subdomain FROM txt)"@,
    }
}

/// The statements, in the order in which they are run.
pub open spec fn schema_steps() -> Seq<SchemaStep> {
    seq![
        SchemaStep::CreateAdmin,
        SchemaStep::CreateRecords,
        SchemaStep::CreateTxt,
        SchemaStep::AddCreatedAt,
        SchemaStep::FillCreatedAt,
        SchemaStep::AddHasUpdated,
        SchemaStep::MarkThoseWithTokens,
    ]
}

/// The texts of the statements, in that order.
pub open spec fn schema_texts() -> Seq<Seq<char>> {
    schema_steps().map_values(|s: SchemaStep| step_sql(s))
}

/// The scripts that set up the tables, each of one statement. They may be run again.
pub fn scripts() -> (res: Vec<String>)
    ensures
        texts(res@) == schema_texts(),
{
    let mut res: Vec<String> = Vec::new();
    res.push("CREATE TABLE IF NOT EXISTS admin (Password TEXT NOT NULL)".to_owned());
    res.push("CREATE TABLE IF NOT EXISTS records (Username TEXT UNIQUE NOT NULL PRIMARY KEY, Password TEXT UNIQUE NOT NULL, Subdomain TEXT UNIQUE NOT NULL, AllowFrom TEXT)".to_owned());
    res.push("CREATE TABLE IF NOT EXISTS txt (Subdomain TEXT NOT NULL, Value TEXT NOT NULL DEFAULT '', LastUpdate TIMESTAMP DEFAULT CURRENT_TIMESTAMP)".to_owned());
    res.push("ALTER TABLE records ADD COLUMN CreatedAt TEXT".to_owned());
    res.push("UPDATE records SET CreatedAt = CAST(CURRENT_TIMESTAMP AS TEXT) WHERE CreatedAt IS NULL".to_owned());
    res.push("ALTER TABLE records ADD COLUMN HasUpdated BIGINT NOT NULL DEFAULT 0".to_owned());
    res.push("UPDATE records SET HasUpdated = 1 WHERE HasUpdated = 0 AND Subdomain IN (SELECT Subdomain FROM txt)".to_owned());
    assert(texts(res@) =~= schema_texts());
    res
}

/// Whether a text is one statement as it stands: one line without a semicolon or white space at its
/// ends that is no comment.
pub open spec fn is_one_statement(s: Seq<char>) -> bool {
    &&& s.len() > 0
    &&& !is_space(s[0])
    &&& !is_space(s.last())
    &&& !"--"@.is_prefix_of(s)
    &&& forall|i: int| 0 <= i < s.len() ==> #[trigger] s[i] != '\n' && s[i] != ';'
}

/// A text without a character is not cut at it.
proof fn lemma_uncut(s: Seq<char>, c: char)
    requires
        forall|i: int| 0 <= i < s.len() ==> #[trigger] s[i] != c,
    ensures
        pieces(s, c) == seq![s],
    decreases s.len(),
{
    if s.len() > 0 {
        lemma_uncut(s.drop_last(), c);
        assert(s.drop_last().push(s.last()) =~= s);
        let before = cut_at(s.drop_last(), is_char(c));
        assert(before.drop_last().push(before.last().push(s.last())) =~= seq![s]);
    } else {
        assert(s =~= Seq::empty());
    }
}

/// A script that is one statement as it stands is run as that statement.
pub proof fn law_one_statement_is_run_as_written(s: Seq<char>)
    requires
        is_one_statement(s),
    ensures
        script_statements(s) == seq![s],
{
    reveal(Seq::filter);
    lemma_uncut(s, '\n');
    lemma_uncut(s, ';');
    assert(trimmed(s) == s);
    assert(lines_of(s) =~= seq![s]);
    assert(seq![s].drop_last() =~= Seq::<Seq<char>>::empty());
    assert(seq![s].filter(is_code_line()) =~= seq![s]);
    assert(joined(seq![s], "\n"@) == s);
    assert(trimmed_pieces(s, ';') =~= seq![s]);
    assert(seq![s].filter(is_full()) =~= seq![s]);
}

/// Each statement is one as it stands.
proof fn lemma_steps_are_statements(step: SchemaStep)
    ensures
        is_one_statement(step_sql(step)),
{
    reveal_strlit("--");
    let s = step_sql(step);
    match step {
        SchemaStep::CreateAdmin => {
            reveal_strlit("CREATE TABLE IF NOT EXISTS admin (Password TEXT NOT NULL)");
        },
        SchemaStep::CreateRecords => {
            reveal_strlit("CREATE TABLE IF NOT EXISTS records (Username TEXT UNIQUE NOT NULL PRIMARY KEY, Password TEXT UNIQUE NOT NULL, Subdomain TEXT UNIQUE NOT NULL, AllowFrom TEXT)");
        },
        SchemaStep::CreateTxt => {
            reveal_strlit("CREATE TABLE IF NOT EXISTS txt (Subdomain TEXT NOT NULL, Value TEXT NOT NULL DEFAULT '', LastUpdate TIMESTAMP DEFAULT CURRENT_TIMESTAMP)");
        },
        SchemaStep::AddCreatedAt => {
            reveal_strlit("ALTER TABLE records ADD COLUMN CreatedAt TEXT");
        },
        SchemaStep::FillCreatedAt => {
            reveal_strlit("UPDATE records SET CreatedAt = CAST(CURRENT_TIMESTAMP AS TEXT) WHERE CreatedAt IS NULL");
        },
        SchemaStep::AddHasUpdated => {
            reveal_strlit("ALTER TABLE records ADD COLUMN HasUpdated BIGINT NOT NULL DEFAULT 0");
        },
        SchemaStep::MarkThoseWithTokens => {
            reveal_strlit("UPDATE records SET HasUpdated = 1 WHERE HasUpdated = 0 AND Subdomain IN (SELECT Subdomain FROM txt)");
        },
    }
    if "--"@.is_prefix_of(s) {
        assert(s.subrange(0, 2)[0] == s[0]);
    }
}

/// Scripts that are one statement each are run as they are written.
proof fn lemma_statements_of_statements(scripts: Seq<Seq<char>>)
    requires
        forall|i: int| 0 <= i < scripts.len() ==> is_one_statement(#[trigger] scripts[i]),
    ensures
        all_statements(scripts) == scripts,
    decreases scripts.len(),
{
    if scripts.len() > 0 {
        assert(is_one_statement(scripts[scripts.len() - 1]));
        law_one_statement_is_run_as_written(scripts.last());
        lemma_statements_of_statements(scripts.drop_last());
        assert(scripts.drop_last() + seq![scripts.last()] =~= scripts);
    } else {
        assert(all_statements(scripts) =~= scripts);
    }
}

/// What is run to set up the tables is the statements, as they are written and in their order.
pub proof fn law_schema_is_run_as_written()
    ensures
        all_statements(schema_texts()) == schema_texts(),
{
    assert forall|i: int| 0 <= i < schema_texts().len() implies is_one_statement(
        #[trigger] schema_texts()[i],
    ) by {
        lemma_steps_are_statements(schema_steps()[i]);
    }
    lemma_statements_of_statements(schema_texts());
}

/// Which tables and columns a database has.
pub struct Schema {
    /// The table of the administrator's hash.
    pub admin: bool,
    /// The table of the accounts.
    pub records: bool,
    /// The table of the challenge records.
    pub txt: bool,
    /// The accounts' column for the moment of their making.
    pub created_at: bool,
    /// The accounts' column for whether they were ever used.
    pub has_updated: bool,
}

impl Schema {
    /// Whether all is there.
    pub open spec fn is_complete(self) -> bool {
        self.admin && self.records && self.txt && self.created_at && self.has_updated
    }
}

/// A database: what it is made of, and what it holds.
pub struct Held {
    /// Its tables and columns.
    pub schema: Schema,
    /// What they hold.
    pub tables: Tables,
}

/// Whether a subdomain has a challenge record.
pub open spec fn has_tokens(t: Tables, subdomain: Seq<char>) -> bool {
    exists|row: TxtView| #[trigger] t.txt.count((subdomain, row)) > 0
}

/// An account with the moment of its making, which is `now` if it is not known.
pub open spec fn dated(row: RowView, now: Seq<char>) -> RowView {
    match row.created_at {
        Some(_) => row,
        None => RowView { created_at: Some(now), ..row },
    }
}

/// An account, marked as used if it is not and has a challenge record.
pub open spec fn marked(t: Tables, row: RowView) -> RowView {
    if row.has_updated == Some(0i64) && has_tokens(t, row.subdomain) {
        used(row)
    } else {
        row
    }
}

/// What a statement does at a moment. One that fails does nothing.
pub open spec fn set_up(h: Held, step: SchemaStep, now: Seq<char>) -> Held {
    let t = h.tables;
    match step {
        SchemaStep::CreateAdmin => if h.schema.admin {
            h
        } else {
            Held {
                schema: Schema { admin: true, ..h.schema },
                tables: Tables { admin: Multiset::empty(), ..t },
            }
        },
        SchemaStep::CreateRecords => if h.schema.records {
            h
        } else {
            Held {
                schema: Schema {
                    records: true,
                    created_at: false,
                    has_updated: false,
                    ..h.schema
                },
                tables: Tables { records: Map::empty(), ..t },
            }
        },
        SchemaStep::CreateTxt => if h.schema.txt {
            h
        } else {
            Held {
                schema: Schema { txt: true, ..h.schema },
                tables: Tables { txt: Multiset::empty(), ..t },
            }
        },
        SchemaStep::AddCreatedAt => if !h.schema.records || h.schema.created_at {
            h
        } else {
            Held {
                schema: Schema { created_at: true, ..h.schema },
                tables: Tables {
                    records: t.records.map_values(
                        |r: RowView| RowView { created_at: None, ..r },
                    ),
                    ..t
                },
            }
        },
        SchemaStep::FillCreatedAt => if h.schema.records && h.schema.created_at {
            Held {
                tables: Tables { records: t.records.map_values(|r: RowView| dated(r, now)), ..t },
                ..h
            }
        } else {
            h
        },
        SchemaStep::AddHasUpdated => if !h.schema.records || h.schema.has_updated {
            h
        } else {
            Held {
                schema: Schema { has_updated: true, ..h.schema },
                tables: Tables {
                    records: t.records.map_values(
                        |r: RowView| RowView { has_updated: Some(0), ..r },
                    ),
                    ..t
                },
            }
        },
        SchemaStep::MarkThoseWithTokens => if h.schema.records && h.schema.has_updated
            && h.schema.txt {
            Held {
                tables: Tables { records: t.records.map_values(|r: RowView| marked(t, r)), ..t },
                ..h
            }
        } else {
            h
        },
    }
}

/// What statements do, one after the other, each at its own moment.
pub open spec fn set_up_all(h: Held, steps: Seq<SchemaStep>, moments: Seq<Seq<char>>) -> Held
    decreases steps.len(),
{
    if steps.len() == 0 {
        h
    } else {
        set_up(
            set_up_all(h, steps.drop_last(), moments),
            steps.last(),
            moments[steps.len() - 1],
        )
    }
}

/// The database after the tables were set up.
pub open spec fn migrated(h: Held, moments: Seq<Seq<char>>) -> Held {
    set_up_all(h, schema_steps(), moments)
}

/// The statements, one inside the other.
proof fn lemma_migrated(h: Held, m: Seq<Seq<char>>)
    ensures
        migrated(h, m) == set_up(
            set_up(
                set_up(
                    set_up(
                        set_up(
                            set_up(
                                set_up(h, SchemaStep::CreateAdmin, m[0]),
                                SchemaStep::CreateRecords,
                                m[1],
                            ),
                            SchemaStep::CreateTxt,
                            m[2],
                        ),
                        SchemaStep::AddCreatedAt,
                        m[3],
                    ),
                    SchemaStep::FillCreatedAt,
                    m[4],
                ),
                SchemaStep::AddHasUpdated,
                m[5],
            ),
            SchemaStep::MarkThoseWithTokens,
            m[6],
        ),
{
    let s = schema_steps();
    reveal_with_fuel(set_up_all, 8);
    assert(s.drop_last() =~= s.take(6));
    assert(s.take(6).drop_last() =~= s.take(5));
    assert(s.take(5).drop_last() =~= s.take(4));
    assert(s.take(4).drop_last() =~= s.take(3));
    assert(s.take(3).drop_last() =~= s.take(2));
    assert(s.take(2).drop_last() =~= s.take(1));
    assert(s.take(1).drop_last() =~= Seq::<SchemaStep>::empty());
}

/// Whether two accounts are the same but for when they were made and whether they were used.
pub open spec fn same_account(a: RowView, b: RowView) -> bool {
    &&& a.username == b.username
    &&& a.password == b.password
    &&& a.subdomain == b.subdomain
    &&& a.allow_from == b.allow_from
}

/// Setting up the tables gives a database all of them, and takes nothing from a table that was
/// there: the administrator's hashes and the challenge records stay as they are, and so do the
/// accounts, with their user names, hashes, subdomains and networks. Each account then has a moment
/// of making, and is marked as used if it has a challenge record.
pub proof fn law_set_up_is_complete_and_takes_nothing(h: Held, moments: Seq<Seq<char>>)
    ensures
        migrated(h, moments).schema.is_complete(),
        migrated(h, moments).tables.admin == (if h.schema.admin {
            h.tables.admin
        } else {
            Multiset::empty()
        }),
        migrated(h, moments).tables.txt == (if h.schema.txt {
            h.tables.txt
        } else {
            Multiset::empty()
        }),
        migrated(h, moments).tables.records.dom() == (if h.schema.records {
            h.tables.records.dom()
        } else {
            Set::empty()
        }),
        forall|u: Seq<char>| #[trigger]
            migrated(h, moments).tables.records.contains_key(u) ==> same_account(
                migrated(h, moments).tables.records[u],
                h.tables.records[u],
            ),
        is_settled(migrated(h, moments).tables),
{
    lemma_migrated(h, moments);
    let after = migrated(h, moments);
    assert(after.tables.records.dom() =~= (if h.schema.records {
        h.tables.records.dom()
    } else {
        Set::empty()
    }));
}

/// Whether each account has a moment of making, and is marked as used if it has a challenge record.
pub open spec fn is_settled(t: Tables) -> bool {
    forall|u: Seq<char>| #[trigger]
        t.records.contains_key(u) ==> t.records[u].created_at is Some && !(t.records[u].has_updated
            == Some(0i64) && has_tokens(t, t.records[u].subdomain))
}

/// Setting up the tables of a database that has them all changes no table and no column, no hash of
/// the administrator's and no challenge record. The list of accounts keeps each with its user name,
/// hash, subdomain and networks, the moment of its making if that was known, and its mark if it was
/// used, and has no others.
pub proof fn law_set_up_again_keeps_everything(
    h: Held,
    moments: Seq<Seq<char>>,
    before: Seq<RowView>,
    after: Seq<RowView>,
)
    requires
        h.schema.is_complete(),
        h.tables.wf(),
        is_answer(h.tables, Query::All, before),
        is_answer(migrated(h, moments).tables, Query::All, after),
    ensures
        migrated(h, moments).schema == h.schema,
        migrated(h, moments).tables.wf(),
        migrated(h, moments).tables.admin == h.tables.admin,
        migrated(h, moments).tables.txt == h.tables.txt,
        after.len() == before.len(),
        forall|i: int|
            0 <= i < before.len() ==> is_listed(#[trigger] before[i], after),
{
    lemma_migrated(h, moments);
    let last = migrated(h, moments).tables;
    assert(last.records.dom() =~= h.tables.records.dom());
    assert(last.wf());
    lemma_answer_len(h.tables, before);
    lemma_answer_len(last, after);
    assert forall|i: int| 0 <= i < before.len() implies is_listed(#[trigger] before[i], after) by {
        let u = before[i].username;
        assert(last.records.contains_key(u));
        let j = after.index_of(last.records[u]);
        assert(after.contains(last.records[u]));
        assert(is_kept(before[i], after[j]));
    }
}

/// Whether an account is the same, with the moment of its making if that was known, and with its
/// mark if it was used.
pub open spec fn is_kept(before: RowView, after: RowView) -> bool {
    &&& same_account(before, after)
    &&& before.created_at is Some ==> after.created_at == before.created_at
    &&& before.has_updated != Some(0i64) ==> after.has_updated == before.has_updated
}

/// Whether an account is kept in a list.
pub open spec fn is_listed(row: RowView, list: Seq<RowView>) -> bool {
    exists|j: int| 0 <= j < list.len() && is_kept(row, #[trigger] list[j])
}

/// Setting up the tables of a database that has them all, and whose accounts have a moment of making
/// and are marked as used if they have challenge records, changes nothing.
pub proof fn law_set_up_leaves_what_is_settled(h: Held, moments: Seq<Seq<char>>)
    requires
        h.schema.is_complete(),
        is_settled(h.tables),
    ensures
        migrated(h, moments) == h,
{
    lemma_migrated(h, moments);
    assert(migrated(h, moments).tables.records =~= h.tables.records);
}

/// Setting up the tables twice is setting them up once.
pub proof fn law_set_up_twice_is_once(h: Held, first: Seq<Seq<char>>, second: Seq<Seq<char>>)
    ensures
        migrated(migrated(h, first), second) == migrated(h, first),
{
    law_set_up_is_complete_and_takes_nothing(h, first);
    law_set_up_leaves_what_is_settled(migrated(h, first), second);
}

/// The tables that are set up: user names, hashes and subdomains of accounts are there and are
/// different, user names are the key, and the two columns that came later are added and filled.
pub proof fn law_schema_statements(res: Vec<String>)
    requires
        call_ensures(scripts, (), res),
    ensures
        texts(res@) == seq![
            "CREATE TABLE IF NOT EXISTS admin (Password TEXT NOT NULL)"@,
            "CREATE TABLE IF NOT EXISTS records (Username TEXT UNIQUE NOT NULL PRIMARY KEY, Password TEXT UNIQUE NOT NULL, Subdomain TEXT UNIQUE NOT NULL, AllowFrom TEXT)"@,
            "CREATE TABLE IF NOT EXISTS txt (Subdomain TEXT NOT NULL, Value TEXT NOT NULL DEFAULT '', LastUpdate TIMESTAMP DEFAULT CURRENT_TIMESTAMP)"@,
            "ALTER TABLE records ADD COLUMN CreatedAt TEXT"@,
            "UPDATE records SET CreatedAt = CAST(CURRENT_TIMESTAMP AS TEXT) WHERE CreatedAt IS NULL"@,
            "ALTER TABLE records ADD COLUMN HasUpdated BIGINT NOT NULL DEFAULT 0"@,
            "UPDATE records SET HasUpdated = 1 WHERE HasUpdated = 0 AND Subdomain IN (SELECT Subdomain FROM txt)"@,
        ],
{
}

} // verus!
