//! What the database holds, what each change does to it, and what holds of the operations on it.
//!
//! A statement is taken to do what its [`Change`] says, and a question to be answered with the rows
//! that meet it, in any order.

use vstd::multiset::Multiset;
use vstd::prelude::*;

use crate::api::{is_registered, Pending, Reply};
use crate::auth::bcrypt_matches;
use crate::clock::stamp_text;
use crate::db::{
    admin_hash, delete_account, delete_orphans, is_deleted, is_orphan, is_stored_as, kept_rows,
    law_pruning_leaves_the_kept, law_the_newest_two_are_kept, lemma_kept_after_adding,
    lemma_kept_in_order, not_older, numbered, orphans, prune,
    pruned, record_of, replace_admin_hash, stored_record, surplus_rows, tokens, Change, DbPool,
    Query, Registration, RowView, TxtView,
};
use crate::text::texts;

verus! {

/// What the database holds.
pub struct Tables {
    /// The hashes of the administrator's password.
    pub admin: Multiset<Seq<char>>,
    /// The accounts by user name.
    pub records: Map<Seq<char>, RowView>,
    /// The challenge records, each with its subdomain.
    pub txt: Multiset<(Seq<char>, TxtView)>,
}

impl Tables {
    /// User names and subdomains are unique.
    pub open spec fn wf(self) -> bool {
        &&& self.records.dom().finite()
        &&& forall|u: Seq<char>| #[trigger]
            self.records.contains_key(u) ==> self.records[u].username == u
        &&& forall|u: Seq<char>, v: Seq<char>|
            #![trigger self.records[u], self.records[v]]
            self.records.contains_key(u) && self.records.contains_key(v)
                && self.records[u].subdomain == self.records[v].subdomain ==> u == v
    }
}

/// The account that is added, not used yet.
pub open spec fn new_row(
    username: Seq<char>,
    hash: Seq<char>,
    subdomain: Seq<char>,
    allow_from: Seq<char>,
    created_at: Seq<char>,
) -> RowView {
    RowView {
        username,
        password: hash,
        subdomain,
        allow_from,
        created_at: Some(created_at),
        has_updated: Some(0),
    }
}

/// An account, marked as used.
pub open spec fn used(row: RowView) -> RowView {
    RowView { has_updated: Some(1), ..row }
}

/// The accounts with that of a subdomain marked as used.
pub open spec fn mark(records: Map<Seq<char>, RowView>, subdomain: Seq<char>) -> Map<
    Seq<char>,
    RowView,
> {
    records.map_values(
        |r: RowView|
            if r.subdomain == subdomain {
                used(r)
            } else {
                r
            },
    )
}

/// Being a challenge record of another subdomain.
pub open spec fn elsewhere(subdomain: Seq<char>) -> spec_fn((Seq<char>, TxtView)) -> bool {
    |x: (Seq<char>, TxtView)| x.0 != subdomain
}

/// Being a challenge record of another subdomain, or one that none of the records `gone` deletes.
pub open spec fn spared(subdomain: Seq<char>, gone: Seq<TxtView>) -> spec_fn(
    (Seq<char>, TxtView),
) -> bool {
    |x: (Seq<char>, TxtView)| x.0 != subdomain || !is_deleted(gone, x.1)
}

/// What a change does.
pub open spec fn apply(t: Tables, change: Change) -> Tables {
    match change {
        Change::ClearAdmin => Tables { admin: Multiset::empty(), ..t },
        Change::AddAdmin(hash) => Tables { admin: t.admin.insert(hash), ..t },
        Change::AddRecord { username, hash, subdomain, allow_from, created_at } => Tables {
            records: t.records.insert(
                username,
                new_row(username, hash, subdomain, allow_from, created_at),
            ),
            ..t
        },
        Change::DeleteTxtOf(username) => if t.records.contains_key(username) {
            Tables { txt: t.txt.filter(elsewhere(t.records[username].subdomain)), ..t }
        } else {
            t
        },
        Change::DeleteRecord(username) => Tables { records: t.records.remove(username), ..t },
        Change::DeleteUnused(username) => if t.records.contains_key(username)
            && t.records[username].has_updated == Some(0i64) {
            Tables { records: t.records.remove(username), ..t }
        } else {
            t
        },
        Change::AddTxt(subdomain, row) => Tables { txt: t.txt.insert((subdomain, row)), ..t },
        Change::DeleteTxt(subdomain, row) => Tables {
            txt: t.txt.filter(spared(subdomain, seq![row])),
            ..t
        },
        Change::MarkUsed(subdomain) => Tables { records: mark(t.records, subdomain), ..t },
    }
}

/// What changes do, one after the other.
pub open spec fn run(t: Tables, changes: Seq<Change>) -> Tables
    decreases changes.len(),
{
    if changes.len() == 0 {
        t
    } else {
        apply(run(t, changes.drop_last()), changes.last())
    }
}

/// How many accounts changes delete in all.
pub open spec fn deleted(t: Tables, changes: Seq<Change>) -> int
    decreases changes.len(),
{
    if changes.len() == 0 {
        0
    } else {
        let before = run(t, changes.drop_last());
        deleted(t, changes.drop_last()) + (before.records.len() - apply(
            before,
            changes.last(),
        ).records.len())
    }
}

/// Being an account that is asked for.
pub open spec fn meets(query: Query, row: RowView) -> bool {
    match query {
        Query::ByUsername(username) => row.username == username,
        Query::BySubdomain(subdomain) => row.subdomain == subdomain,
        Query::All => true,
        Query::Unused => row.has_updated == Some(0i64),
    }
}

/// Whether the rows are an answer to a question: the accounts that meet it, each once.
pub open spec fn is_answer(t: Tables, query: Query, rows: Seq<RowView>) -> bool {
    &&& forall|i: int|
        0 <= i < rows.len() ==> {
            &&& t.records.contains_key((#[trigger] rows[i]).username)
            &&& t.records[rows[i].username] == rows[i]
            &&& meets(query, rows[i])
        }
    &&& forall|i: int, j: int|
        0 <= i < j < rows.len() ==> (#[trigger] rows[i]).username != (#[trigger] rows[j]).username
    &&& forall|u: Seq<char>| #[trigger]
        t.records.contains_key(u) && meets(query, t.records[u]) ==> rows.contains(t.records[u])
}

/// Whether a row is an answer to the question for the administrator's password: one of the hashes,
/// or none if there is none.
pub open spec fn is_admin_answer(t: Tables, row: Option<Seq<char>>) -> bool {
    match row {
        Some(h) => t.admin.count(h) > 0,
        None => t.admin == Multiset::<Seq<char>>::empty(),
    }
}

/// Whether the rows are the challenge records of a subdomain.
pub open spec fn is_txt_answer(t: Tables, subdomain: Seq<char>, rows: Seq<TxtView>) -> bool {
    forall|x: TxtView| #[trigger] rows.to_multiset().count(x) == t.txt.count((subdomain, x))
}

/// The hash of the administrator's password that is read is the last one that was set, whatever
/// was set before, and an empty one reads as none. Nothing else changes.
pub proof fn law_last_admin_hash_is_read(t: Tables, hash: Seq<char>, row: Option<Seq<char>>)
    requires
        is_admin_answer(run(t, replace_admin_hash(hash)), row),
    ensures
        run(t, replace_admin_hash(hash)).admin == Multiset::singleton(hash),
        admin_hash(row) == (if hash.len() > 0 {
            Some(hash)
        } else {
            None
        }),
        run(t, replace_admin_hash(hash)).records == t.records,
        run(t, replace_admin_hash(hash)).txt == t.txt,
{
    broadcast use vstd::multiset::group_multiset_axioms;

    lemma_run_two(t, Change::ClearAdmin, Change::AddAdmin(hash));
    let after = run(t, replace_admin_hash(hash));
    assert(after.admin =~= Multiset::singleton(hash));
    assert(after.admin.count(hash) == 1);
}

/// Two changes, one after the other.
proof fn lemma_run_two(t: Tables, first: Change, second: Change)
    ensures
        run(t, seq![first, second]) == apply(apply(t, first), second),
        run(t, seq![first]) == apply(t, first),
{
    reveal_with_fuel(run, 3);
    assert(seq![first, second].drop_last() =~= seq![first]);
    assert(seq![first].drop_last() =~= Seq::<Change>::empty());
}

/// A question is answered with as many rows as there are accounts that meet it, so all of them are
/// listed.
pub proof fn lemma_answer_len(t: Tables, rows: Seq<RowView>)
    requires
        t.wf(),
        is_answer(t, Query::All, rows),
    ensures
        rows.len() == t.records.len(),
{
    let names = rows.map_values(|r: RowView| r.username);
    assert(names.no_duplicates());
    names.unique_seq_to_set();
    assert forall|u: Seq<char>| names.to_set().contains(u) <==> t.records.dom().contains(u) by {
        if names.to_set().contains(u) {
            let i = names.index_of(u);
            assert(rows[i].username == u);
        }
        if t.records.contains_key(u) {
            assert(meets(Query::All, t.records[u]));
            let i = rows.index_of(t.records[u]);
            assert(names[i] == u);
        }
    }
    assert(names.to_set() =~= t.records.dom());
}

/// A question for a user name or a subdomain has at most one answer.
proof fn lemma_single_answer(t: Tables, query: Query, rows: Seq<RowView>)
    requires
        t.wf(),
        query is ByUsername || query is BySubdomain,
        is_answer(t, query, rows),
    ensures
        rows.len() <= 1,
{
    if rows.len() > 1 {
        assert(rows[0].username != rows[1].username);
        assert(t.records[rows[0].username].subdomain == rows[0].subdomain);
        assert(t.records[rows[1].username].subdomain == rows[1].subdomain);
    }
}

/// What is found by user name or by subdomain is the account of the list that has it, and nothing
/// is found if the list has none. By its user name and by its subdomain an account is found as the
/// same.
pub proof fn law_lookups_agree_with_the_list(
    t: Tables,
    list: Seq<RowView>,
    query: Query,
    rows: Seq<RowView>,
    i: int,
    other: Seq<RowView>,
)
    requires
        t.wf(),
        query is ByUsername || query is BySubdomain,
        is_answer(t, Query::All, list),
        is_answer(t, query, rows),
        0 <= i < list.len() ==> is_answer(t, Query::ByUsername(list[i].username), other)
            || is_answer(t, Query::BySubdomain(list[i].subdomain), other),
    ensures
        rows.len() <= 1,
        rows.len() == 1 <==> exists|k: int| 0 <= k < list.len() && meets(query, #[trigger] list[k]),
        rows.len() == 1 ==> list.contains(rows[0]),
        0 <= i < list.len() && meets(query, list[i]) ==> rows == seq![list[i]],
        0 <= i < list.len() ==> other == seq![list[i]],
{
    lemma_single_answer(t, query, rows);
    if rows.len() == 1 {
        let u = rows[0].username;
        assert(t.records.contains_key(u) && meets(Query::All, t.records[u]));
        let k = list.index_of(rows[0]);
        assert(meets(query, list[k]));
    }
    if exists|k: int| 0 <= k < list.len() && meets(query, #[trigger] list[k]) {
        let k = choose|k: int| 0 <= k < list.len() && meets(query, #[trigger] list[k]);
        assert(t.records.contains_key(list[k].username));
        assert(rows.contains(list[k]));
    }
    if 0 <= i < list.len() {
        let u = list[i].username;
        assert(t.records.contains_key(u) && t.records[u] == list[i]);
        if meets(query, list[i]) {
            assert(rows.contains(list[i]));
            assert(rows =~= seq![list[i]]);
        }
        let q = if is_answer(t, Query::ByUsername(list[i].username), other) {
            Query::ByUsername(list[i].username)
        } else {
            Query::BySubdomain(list[i].subdomain)
        };
        lemma_single_answer(t, q, other);
        assert(meets(q, list[i]));
        assert(other.contains(list[i]));
        assert(other =~= seq![list[i]]);
    }
}

/// Whether an account can be added: no account has its user name or its subdomain. The database
/// refuses it otherwise.
pub open spec fn can_add(t: Tables, r: Registration) -> bool {
    &&& !t.records.contains_key(r.username@)
    &&& forall|u: Seq<char>| #[trigger]
        t.records.contains_key(u) ==> t.records[u].subdomain != r.subdomain@
}

/// A registration adds one account and leaves the others, the challenges and the administrator's
/// password as they are. The account is found by its user name and by its subdomain, with its
/// names, the networks it was made for, the time, a hash that its password matches, and not used.
pub proof fn law_registration_adds_one_account(
    t: Tables,
    pool: DbPool,
    allow_from: Seq<Seq<char>>,
    r: Registration,
    hash: Seq<char>,
    list: Seq<char>,
    secs: i64,
    rows: Seq<RowView>,
    before: Seq<RowView>,
    after: Seq<RowView>,
)
    requires
        t.wf(),
        is_stored_as(pool, allow_from, r, hash, list, secs),
        can_add(t, r),
        is_answer(apply(t, stored_record(r, hash, list, secs)), Query::ByUsername(r.username@), rows)
            || is_answer(
            apply(t, stored_record(r, hash, list, secs)),
            Query::BySubdomain(r.subdomain@),
            rows,
        ),
        is_answer(t, Query::All, before),
        is_answer(apply(t, stored_record(r, hash, list, secs)), Query::All, after),
    ensures
        apply(t, stored_record(r, hash, list, secs)).wf(),
        rows.len() == 1,
        record_of(rows[0]).username == r.username@,
        record_of(rows[0]).subdomain == r.subdomain@,
        record_of(rows[0]).allow_from == allow_from,
        record_of(rows[0]).created_at == stamp_text(secs)->0,
        !record_of(rows[0]).has_updated,
        bcrypt_matches(r.password@, record_of(rows[0]).password_hash) == Some(true),
        after.len() == before.len() + 1,
        forall|i: int| 0 <= i < before.len() ==> after.contains(#[trigger] before[i]),
        apply(t, stored_record(r, hash, list, secs)).txt == t.txt,
        apply(t, stored_record(r, hash, list, secs)).admin == t.admin,
{
    let t2 = apply(t, stored_record(r, hash, list, secs));
    let u = r.username@;
    let row = new_row(u, hash, r.subdomain@, list, stamp_text(secs)->0);
    assert(t2.records == t.records.insert(u, row));
    assert(t2.wf()) by {
        assert forall|v: Seq<char>, w: Seq<char>|
            #![trigger t2.records[v], t2.records[w]]
            t2.records.contains_key(v) && t2.records.contains_key(w) && t2.records[v].subdomain
                == t2.records[w].subdomain implies v == w by {
            if v != u {
                assert(t.records.contains_key(v));
            }
            if w != u {
                assert(t.records.contains_key(w));
            }
        }
    }
    let q = if is_answer(t2, Query::ByUsername(u), rows) {
        Query::ByUsername(u)
    } else {
        Query::BySubdomain(r.subdomain@)
    };
    lemma_single_answer(t2, q, rows);
    assert(t2.records.contains_key(u) && meets(q, t2.records[u]));
    assert(rows.contains(row));
    assert(rows[0] == row);
    lemma_answer_len(t, before);
    lemma_answer_len(t2, after);
    assert(t2.records.dom() =~= t.records.dom().insert(u));
    assert forall|i: int| 0 <= i < before.len() implies after.contains(#[trigger] before[i]) by {
        let v = before[i].username;
        assert(t.records.contains_key(v));
        assert(v != u);
        assert(t2.records.contains_key(v) && meets(Query::All, t2.records[v]));
    }
}

/// The reply to a registration names what is then read of the account: its names, its networks,
/// the domain below which its challenges are answered, and a password that lets in.
pub proof fn law_reply_names_what_is_read(
    t: Tables,
    pool: DbPool,
    domain: Seq<char>,
    pending: Pending,
    reply: Reply,
    hash: Seq<char>,
    list: Seq<char>,
    secs: i64,
    rows: Seq<RowView>,
)
    requires
        t.wf(),
        is_stored_as(pool, texts(pending.allow_from@), pending.account, hash, list, secs),
        can_add(t, pending.account),
        is_registered(domain, pending, reply),
        is_answer(
            apply(t, stored_record(pending.account, hash, list, secs)),
            Query::ByUsername(pending.account.username@),
            rows,
        ),
    ensures
        rows.len() == 1,
        reply matches Reply::Registered { username, password, fulldomain, subdomain, allowfrom }
            && {
            let rec = record_of(rows[0]);
            &&& username@ == rec.username
            &&& subdomain@ == rec.subdomain
            &&& texts(allowfrom@) == rec.allow_from
            &&& fulldomain@ == rec.subdomain + "."@ + domain
            &&& bcrypt_matches(password@, rec.password_hash) == Some(true)
        },
{
    let r = pending.account;
    let t2 = apply(t, stored_record(r, hash, list, secs));
    let u = r.username@;
    assert(t2.records.contains_key(u) && meets(Query::ByUsername(u), t2.records[u]));
    assert(rows.contains(t2.records[u]));
    if rows.len() > 1 {
        assert(rows[0].username != rows[1].username);
    }
    assert(rows[0] == t2.records[u]);
}

/// To delete a user removes exactly their account. Whether there was one is whether the statement
/// deleted any; a second time there is none, and nothing is found.
pub proof fn law_delete_removes_exactly_the_account(
    t: Tables,
    username: Seq<char>,
    rows: Seq<RowView>,
)
    requires
        t.wf(),
        is_answer(run(t, delete_account(username)), Query::ByUsername(username), rows),
    ensures
        run(t, delete_account(username)).wf(),
        run(t, delete_account(username)).records == t.records.remove(username),
        run(t, delete_account(username)).admin == t.admin,
        deleted(t, delete_account(username)) > 0 <==> t.records.contains_key(username),
        deleted(run(t, delete_account(username)), delete_account(username)) == 0,
        rows.len() == 0,
{
    let first = Change::DeleteTxtOf(username);
    let second = Change::DeleteRecord(username);
    let t2 = run(t, delete_account(username));
    lemma_run_two(t, first, second);
    lemma_run_two(t2, first, second);
    reveal_with_fuel(deleted, 3);
    assert(seq![first, second].drop_last() =~= seq![first]);
    assert(seq![first].drop_last() =~= Seq::<Change>::empty());
    assert(t2.records == t.records.remove(username));
    assert(t2.records.dom() =~= t.records.dom().remove(username));
    assert(t2.records.remove(username) =~= t2.records);
    assert forall|v: Seq<char>| #[trigger] t2.records.contains_key(v) implies t2.records[v].username
        == v by {
        assert(t.records.contains_key(v));
    }
    if rows.len() > 0 {
        assert(rows[0].username == username);
    }
}

/// To delete a user removes the challenge records of their subdomain and no others.
pub proof fn law_delete_removes_exactly_its_tokens(
    t: Tables,
    username: Seq<char>,
    subdomain: Seq<char>,
    rows: Seq<TxtView>,
)
    requires
        is_txt_answer(run(t, delete_account(username)), subdomain, rows),
    ensures
        t.records.contains_key(username) && t.records[username].subdomain == subdomain ==> tokens(
            kept_rows(rows),
        ).len() == 0 && rows.len() == 0,
        !(t.records.contains_key(username) && t.records[username].subdomain == subdomain)
            ==> is_txt_answer(t, subdomain, rows),
{
    broadcast use vstd::multiset::group_multiset_axioms;

    lemma_run_two(t, Change::DeleteTxtOf(username), Change::DeleteRecord(username));
    let t2 = run(t, delete_account(username));
    if t.records.contains_key(username) && t.records[username].subdomain == subdomain {
        if rows.len() > 0 {
            rows.to_multiset_ensures();
            assert(rows.contains(rows[0]));
            assert(rows.to_multiset().count(rows[0]) > 0);
            assert(t2.txt.count((subdomain, rows[0])) == 0);
        }
        law_the_newest_two_are_kept(rows);
    } else {
        assert forall|x: TxtView| #[trigger] rows.to_multiset().count(x) == t.txt.count(
            (subdomain, x),
        ) by {
            assert(t2.txt.count((subdomain, x)) == t.txt.count((subdomain, x)));
        }
    }
}

/// Deleting orphans one after the other deletes each of them and nothing else.
proof fn lemma_delete_orphans(t: Tables, rows: Seq<RowView>)
    requires
        t.wf(),
        forall|i: int|
            0 <= i < rows.len() ==> {
                &&& t.records.contains_key((#[trigger] rows[i]).username)
                &&& t.records[rows[i].username] == rows[i]
                &&& rows[i].has_updated == Some(0i64)
            },
        forall|i: int, j: int|
            0 <= i < j < rows.len() ==> (#[trigger] rows[i]).username != (
            #[trigger] rows[j]).username,
    ensures
        ({
            let changes = rows.map_values(|r: RowView| Change::DeleteUnused(r.username));
            let t2 = run(t, changes);
            &&& t2.admin == t.admin
            &&& t2.txt == t.txt
            &&& t2.records.dom().finite()
            &&& forall|u: Seq<char>| #[trigger]
                t2.records.contains_key(u) <==> t.records.contains_key(u) && !rows.contains(
                    t.records[u],
                )
            &&& forall|u: Seq<char>| #[trigger]
                t2.records.contains_key(u) ==> t2.records[u] == t.records[u]
            &&& deleted(t, changes) == rows.len()
        }),
    decreases rows.len(),
{
    let f = |r: RowView| Change::DeleteUnused(r.username);
    let changes = rows.map_values(f);
    if rows.len() > 0 {
        let front = rows.drop_last();
        let row = rows.last();
        assert(changes.drop_last() =~= front.map_values(f));
        assert forall|i: int| 0 <= i < front.len() implies {
            &&& t.records.contains_key((#[trigger] front[i]).username)
            &&& t.records[front[i].username] == front[i]
            &&& front[i].has_updated == Some(0i64)
        } by {
            assert(front[i] == rows[i]);
        }
        lemma_delete_orphans(t, front);
        let t1 = run(t, front.map_values(f));
        let t2 = run(t, changes);
        let u = row.username;
        assert(rows[rows.len() - 1] == row);
        assert(!front.contains(row)) by {
            if front.contains(row) {
                let k = front.index_of(row);
                assert(rows[k].username != rows[rows.len() - 1].username);
            }
        }
        assert(t1.records.contains_key(u) && t1.records[u] == row);
        assert(t2.records == t1.records.remove(u));
        assert(t2.records.dom() =~= t1.records.dom().remove(u));
        assert(rows =~= front.push(row));
        assert forall|v: Seq<char>| #[trigger]
            t2.records.contains_key(v) <==> t.records.contains_key(v) && !rows.contains(
                t.records[v],
            ) by {
            if v == u {
                assert(rows.contains(rows[rows.len() - 1]));
            } else if t.records.contains_key(v) {
                assert(t.records[v].username == v);
                assert(t.records[v] != row);
                if front.contains(t.records[v]) {
                    let k = front.index_of(t.records[v]);
                    assert(rows[k] == t.records[v]);
                }
                if rows.contains(t.records[v]) {
                    let k = rows.index_of(t.records[v]);
                    assert(front[k] == t.records[v]);
                }
            }
        }
    }
}

/// What a filter lets through, and only once if it was there once.
proof fn lemma_filter_keeps_apart(rows: Seq<RowView>, f: spec_fn(RowView) -> bool)
    requires
        forall|i: int, j: int|
            0 <= i < j < rows.len() ==> (#[trigger] rows[i]).username != (
            #[trigger] rows[j]).username,
    ensures
        forall|x: RowView| rows.filter(f).contains(x) <==> rows.contains(x) && f(x),
        forall|i: int, j: int|
            0 <= i < j < rows.filter(f).len() ==> (#[trigger] rows.filter(f)[i]).username != (
            #[trigger] rows.filter(f)[j]).username,
    decreases rows.len(),
{
    reveal(Seq::filter);
    if rows.len() > 0 {
        let front = rows.drop_last();
        assert forall|i: int, j: int| 0 <= i < j < front.len() implies (
        #[trigger] front[i]).username != (#[trigger] front[j]).username by {
            assert(rows[i].username != rows[j].username);
        }
        lemma_filter_keeps_apart(front, f);
        let some = front.filter(f);
        let all = rows.filter(f);
        let last = rows.last();
        assert forall|x: RowView| all.contains(x) <==> rows.contains(x) && f(x) by {
            if rows.contains(x) {
                let k = rows.index_of(x);
                if k < front.len() {
                    assert(front[k] == x);
                }
            }
            if front.contains(x) {
                let k = front.index_of(x);
                assert(rows[k] == x);
            }
            if some.contains(x) {
                let k = some.index_of(x);
                assert(all[k] == x);
            }
            if x == last {
                assert(rows[rows.len() - 1] == x);
                if f(x) {
                    assert(all[all.len() - 1] == x);
                }
            }
            if all.contains(x) && x != last {
                let k = all.index_of(x);
                assert(some[k] == x);
            }
        }
        assert forall|i: int, j: int| 0 <= i < j < all.len() implies (#[trigger] all[i]).username
            != (#[trigger] all[j]).username by {
            if j == some.len() {
                assert(some.contains(some[i]));
                assert(front.contains(some[i]));
                let k = front.index_of(some[i]);
                assert(rows[k].username != rows[rows.len() - 1].username);
            } else {
                assert(some[i].username != some[j].username);
            }
        }
    }
}

/// Being an account that stays when the orphans go.
pub open spec fn stays(t: Tables, cutoff: Seq<char>) -> spec_fn(Seq<char>) -> bool {
    |u: Seq<char>| t.records.contains_key(u) && !is_orphan(t.records[u], cutoff)
}

/// Cleaning up removes exactly the orphans, and as many accounts as there were of them. The other
/// accounts, the challenges and the administrator's password stay as they are.
pub proof fn law_cleanup_removes_exactly_the_orphans(
    t: Tables,
    rows: Seq<RowView>,
    cutoff: Seq<char>,
)
    requires
        t.wf(),
        is_answer(t, Query::Unused, rows),
    ensures
        run(t, delete_orphans(rows, cutoff)).records == Map::new(
            stays(t, cutoff),
            |u: Seq<char>| t.records[u],
        ),
        run(t, delete_orphans(rows, cutoff)).txt == t.txt,
        run(t, delete_orphans(rows, cutoff)).admin == t.admin,
        deleted(t, delete_orphans(rows, cutoff)) == delete_orphans(rows, cutoff).len(),
        deleted(t, delete_orphans(rows, cutoff)) == rows.filter(orphans(cutoff)).len(),
        forall|x: RowView|
            #![trigger rows.filter(orphans(cutoff)).contains(x)]
            rows.filter(orphans(cutoff)).contains(x) <==> t.records.contains_key(x.username)
                && t.records[x.username] == x && is_orphan(x, cutoff),
{
    let f = orphans(cutoff);
    let gone = rows.filter(f);
    lemma_filter_keeps_apart(rows, f);
    assert forall|x: RowView| gone.contains(x) <==> t.records.contains_key(x.username)
        && t.records[x.username] == x && is_orphan(x, cutoff) by {
        if rows.contains(x) {
            let k = rows.index_of(x);
            assert(rows[k] == x);
        }
        if t.records.contains_key(x.username) && t.records[x.username] == x && is_orphan(
            x,
            cutoff,
        ) {
            assert(t.records.contains_key(x.username) && meets(
                Query::Unused,
                t.records[x.username],
            ));
            assert(rows.contains(x));
        }
    }
    assert forall|i: int| 0 <= i < gone.len() implies {
        &&& t.records.contains_key((#[trigger] gone[i]).username)
        &&& t.records[gone[i].username] == gone[i]
        &&& gone[i].has_updated == Some(0i64)
    } by {
        assert(gone.contains(gone[i]));
    }
    lemma_delete_orphans(t, gone);
    let t2 = run(t, delete_orphans(rows, cutoff));
    assert forall|u: Seq<char>| #[trigger] t2.records.contains_key(u) <==> stays(t, cutoff)(u) by {
        if t.records.contains_key(u) {
            assert(t.records[u].username == u);
            assert(gone.contains(t.records[u]) <==> is_orphan(t.records[u], cutoff));
        }
    }
    assert(t2.records =~= Map::new(stays(t, cutoff), |u: Seq<char>| t.records[u]));
}

/// No change turns an account that was used into one that was not, however often its challenges
/// come and go. An account is added only where there is none of its name.
pub proof fn law_used_stays_used(t: Tables, change: Change, username: Seq<char>)
    requires
        t.records.contains_key(username),
        t.records[username].has_updated == Some(1i64),
        change is AddRecord ==> !t.records.contains_key(change->username),
        apply(t, change).records.contains_key(username),
    ensures
        apply(t, change).records[username].has_updated == Some(1i64),
{
}

/// Deleting challenge records one after the other deletes those that one of them deletes.
proof fn lemma_run_deletes(t: Tables, subdomain: Seq<char>, gone: Seq<TxtView>)
    ensures
        run(t, gone.map_values(|r: TxtView| Change::DeleteTxt(subdomain, r))) == (Tables {
            txt: t.txt.filter(spared(subdomain, gone)),
            ..t
        }),
    decreases gone.len(),
{
    broadcast use vstd::multiset::group_multiset_axioms;

    let f = |r: TxtView| Change::DeleteTxt(subdomain, r);
    let changes = gone.map_values(f);
    if gone.len() == 0 {
        assert(t.txt.filter(spared(subdomain, gone)) =~= t.txt);
    } else {
        let front = gone.drop_last();
        let row = gone.last();
        lemma_run_deletes(t, subdomain, front);
        assert(changes.drop_last() =~= front.map_values(f));
        let one = t.txt.filter(spared(subdomain, front)).filter(spared(subdomain, seq![row]));
        let all = t.txt.filter(spared(subdomain, gone));
        assert forall|x: (Seq<char>, TxtView)| one.count(x) == all.count(x) by {
            assert(is_deleted(gone, x.1) <==> is_deleted(front, x.1) || is_deleted(
                seq![row],
                x.1,
            )) by {
                if is_deleted(gone, x.1) {
                    let k = choose|k: int|
                        0 <= k < gone.len() && (#[trigger] gone[k]).id == x.1.id && gone[k].value
                            == x.1.value;
                    if k < front.len() {
                        assert(front[k] == gone[k]);
                    } else {
                        assert(seq![row][0] == gone[k]);
                    }
                }
                if is_deleted(front, x.1) {
                    let k = choose|k: int|
                        0 <= k < front.len() && (#[trigger] front[k]).id == x.1.id && front[k].value
                            == x.1.value;
                    assert(gone[k] == front[k]);
                }
                if is_deleted(seq![row], x.1) {
                    assert(gone[gone.len() - 1] == row);
                }
            }
        }
        assert(one =~= all);
    }
}

/// Whether `after` is what an update of a subdomain makes of `before`: a challenge record is added,
/// the records of the subdomain are read in some order, no two of which have the same number, and
/// the rest is done.
pub open spec fn is_update(
    before: Tables,
    subdomain: Seq<char>,
    row: TxtView,
    rows: Seq<TxtView>,
    after: Tables,
) -> bool {
    let added = apply(before, Change::AddTxt(subdomain, row));
    &&& is_txt_answer(added, subdomain, rows)
    &&& numbered(rows)
    &&& after == run(added, prune(subdomain, rows))
}

/// An update leaves the challenges of other subdomains, the accounts of other subdomains and the
/// administrator's password as they are. The account of the subdomain is marked as used and is
/// otherwise as before, and of the subdomain exactly the kept records are left.
pub proof fn law_update_leaves_others(
    before: Tables,
    subdomain: Seq<char>,
    row: TxtView,
    rows: Seq<TxtView>,
    after: Tables,
)
    requires
        is_update(before, subdomain, row, rows, after),
    ensures
        forall|s: Seq<char>, x: TxtView|
            s != subdomain ==> #[trigger] after.txt.count((s, x)) == before.txt.count((s, x)),
        forall|x: TxtView| #[trigger]
            after.txt.count((subdomain, x)) == pruned(rows).count(x),
        forall|x: TxtView| #[trigger]
            after.txt.count((subdomain, x)) == kept_rows(rows).to_multiset().count(x),
        after.records == mark(before.records, subdomain),
        after.records.dom() == before.records.dom(),
        forall|u: Seq<char>| #[trigger]
            before.records.contains_key(u) ==> after.records[u] == (if before.records[u].subdomain
                == subdomain {
                used(before.records[u])
            } else {
                before.records[u]
            }),
        after.admin == before.admin,
{
    broadcast use vstd::multiset::group_multiset_axioms;

    let added = apply(before, Change::AddTxt(subdomain, row));
    let gone = surplus_rows(rows);
    let f = |r: TxtView| Change::DeleteTxt(subdomain, r);
    let changes = prune(subdomain, rows);
    assert(changes.drop_last() =~= gone.map_values(f));
    assert(changes.last() == Change::MarkUsed(subdomain));
    lemma_run_deletes(added, subdomain, gone);
    law_pruning_leaves_the_kept(rows);
    assert(after.txt == added.txt.filter(spared(subdomain, gone)));
    assert forall|s: Seq<char>, x: TxtView| s != subdomain implies #[trigger] after.txt.count(
        (s, x),
    ) == before.txt.count((s, x)) by {
        assert((s, x) != (subdomain, row));
        assert(added.txt.count((s, x)) == before.txt.count((s, x)));
    }
    assert forall|x: TxtView| #[trigger] after.txt.count((subdomain, x)) == pruned(rows).count(
        x,
    ) by {
        assert(rows.to_multiset().count(x) == added.txt.count((subdomain, x)));
    }
    assert(after.records.dom() =~= before.records.dom());
}

/// The last of the texts that were written, two at most.
pub open spec fn last_two(written: Seq<TxtView>) -> Seq<TxtView> {
    if written.len() <= 2 {
        written
    } else {
        written.skip(written.len() - 2)
    }
}

/// After any number of updates of a subdomain that had no challenges, one after the other and with
/// a clock that does not go back, the challenges of the last two are stored, or of all if there were
/// fewer, and they are what is read, the last one first. `states` are the states of the database
/// before the first update and after each, and `rows` what each update read.
pub proof fn law_last_two_tokens_are_read(
    states: Seq<Tables>,
    subdomain: Seq<char>,
    written: Seq<TxtView>,
    rows: Seq<Seq<TxtView>>,
    read: Seq<TxtView>,
)
    requires
        states.len() == written.len() + 1,
        rows.len() == written.len(),
        is_txt_answer(states[0], subdomain, Seq::empty()),
        forall|i: int|
            0 <= i < written.len() ==> is_update(
                states[i],
                subdomain,
                #[trigger] written[i],
                rows[i],
                states[i + 1],
            ),
        forall|i: int, j: int|
            0 <= i < j < written.len() ==> not_older(#[trigger] written[j], #[trigger] written[i]),
        is_txt_answer(states[written.len() as int], subdomain, read),
    ensures
        is_txt_answer(states[written.len() as int], subdomain, last_two(written)),
        read.len() == last_two(written).len(),
        read.len() <= 2,
        tokens(kept_rows(read)) == tokens(last_two(written).reverse()),
{
    lemma_stored_tokens(states, subdomain, written, rows);
    lemma_read_in_order(states[written.len() as int], subdomain, written, read);
}

/// After any number of updates the last two challenges are stored.
proof fn lemma_stored_tokens(
    states: Seq<Tables>,
    subdomain: Seq<char>,
    written: Seq<TxtView>,
    rows: Seq<Seq<TxtView>>,
)
    requires
        states.len() == written.len() + 1,
        rows.len() == written.len(),
        is_txt_answer(states[0], subdomain, Seq::empty()),
        forall|i: int|
            0 <= i < written.len() ==> is_update(
                states[i],
                subdomain,
                #[trigger] written[i],
                rows[i],
                states[i + 1],
            ),
        forall|i: int, j: int|
            0 <= i < j < written.len() ==> not_older(#[trigger] written[j], #[trigger] written[i]),
    ensures
        is_txt_answer(states[written.len() as int], subdomain, last_two(written)),
    decreases written.len(),
{
    let n = written.len() as int;
    if n > 0 {
        let front = written.drop_last();
        let row = written.last();
        assert forall|i: int| 0 <= i < front.len() implies is_update(
            states.drop_last()[i],
            subdomain,
            #[trigger] front[i],
            rows.drop_last()[i],
            states.drop_last()[i + 1],
        ) by {
            assert(front[i] == written[i]);
        }
        assert forall|i: int, j: int| 0 <= i < j < front.len() implies not_older(
            #[trigger] front[j],
            #[trigger] front[i],
        ) by {
            assert(not_older(written[j], written[i]));
        }
        lemma_stored_tokens(states.drop_last(), subdomain, front, rows.drop_last());
        assert(states.drop_last()[n - 1] == states[n - 1]);
        assert(written[n - 1] == row);
        assert forall|i: int| 0 <= i < front.len() implies not_older(
            row,
            #[trigger] front[i],
        ) by {
            assert(not_older(written[n - 1], written[i]));
        }
        lemma_one_more_token(
            states[n - 1],
            subdomain,
            front,
            row,
            rows[n - 1],
            states[n],
        );
        assert(front.push(row) =~= written);
    } else {
        assert(written =~= Seq::empty());
    }
}

/// One more update keeps the last two challenges.
proof fn lemma_one_more_token(
    before: Tables,
    subdomain: Seq<char>,
    front: Seq<TxtView>,
    row: TxtView,
    rows: Seq<TxtView>,
    after: Tables,
)
    requires
        is_txt_answer(before, subdomain, last_two(front)),
        is_update(before, subdomain, row, rows, after),
        forall|i: int| 0 <= i < front.len() ==> not_older(row, #[trigger] front[i]),
        forall|i: int, j: int|
            0 <= i < j < front.len() ==> not_older(#[trigger] front[j], #[trigger] front[i]),
    ensures
        is_txt_answer(after, subdomain, last_two(front.push(row))),
{
    broadcast use vstd::multiset::group_multiset_axioms;

    let held = last_two(front);
    let now = held.push(row);
    let added = apply(before, Change::AddTxt(subdomain, row));
    held.to_multiset_ensures();
    assert forall|x: TxtView| rows.to_multiset().count(x) == now.to_multiset().count(x) by {
        assert(rows.to_multiset().count(x) == added.txt.count((subdomain, x)));
        assert(held.to_multiset().count(x) == before.txt.count((subdomain, x)));
    }
    assert(rows.to_multiset() =~= now.to_multiset());
    law_update_leaves_others(before, subdomain, row, rows, after);
    assert forall|i: int| 0 <= i < held.len() implies not_older(row, #[trigger] held[i]) by {
        if front.len() > 2 {
            assert(held[i] == front[i + front.len() - 2]);
        }
    }
    assert forall|i: int, j: int| 0 <= i < j < held.len() implies not_older(
        #[trigger] held[j],
        #[trigger] held[i],
    ) by {
        if front.len() > 2 {
            assert(held[i] == front[i + front.len() - 2]);
            assert(held[j] == front[j + front.len() - 2]);
        }
    }
    lemma_kept_after_adding(held, row, rows);
    let want = last_two(front.push(row));
    assert(want =~= (if held.len() == 0 {
        seq![row]
    } else {
        seq![held.last(), row]
    }));
    assert(kept_rows(rows).to_multiset() =~= want.to_multiset());
}

/// What is stored is read with the last one first.
proof fn lemma_read_in_order(t: Tables, subdomain: Seq<char>, written: Seq<TxtView>, read: Seq<TxtView>)
    requires
        is_txt_answer(t, subdomain, last_two(written)),
        is_txt_answer(t, subdomain, read),
        forall|i: int, j: int|
            0 <= i < j < written.len() ==> not_older(#[trigger] written[j], #[trigger] written[i]),
    ensures
        read.len() == last_two(written).len(),
        tokens(kept_rows(read)) == tokens(last_two(written).reverse()),
{
    broadcast use vstd::multiset::group_multiset_axioms;

    let last = last_two(written);
    assert forall|x: TxtView| read.to_multiset().count(x) == last.to_multiset().count(x) by {
        assert(read.to_multiset().count(x) == t.txt.count((subdomain, x)));
        assert(last.to_multiset().count(x) == t.txt.count((subdomain, x)));
    }
    assert(read.to_multiset() =~= last.to_multiset());
    assert forall|i: int, j: int| 0 <= i < j < last.len() implies not_older(
        #[trigger] last[j],
        #[trigger] last[i],
    ) by {
        if written.len() > 2 {
            assert(last[i] == written[i + written.len() - 2]);
            assert(last[j] == written[j + written.len() - 2]);
        }
    }
    read.to_multiset_ensures();
    last.to_multiset_ensures();
    lemma_kept_in_order(last, read);
}

} // verus!
