use std::str::FromStr;
use std::sync::Arc;

use acme_dns_rust::auth::correct_password;
use acme_dns_rust::config::Database;
use acme_dns_rust::db::{
    Bind, DbPool, Record, RecordRow, Registration, Statement, TxtRow, BUSY_TIMEOUT, MAX_CONNECTIONS,
};
use acme_dns_rust::schema::scripts;
use sqlx_core::error::Error;
use sqlx_core::query::query;
use sqlx_core::row::Row;
use sqlx_sqlite::{
    SqliteConnectOptions, SqliteJournalMode, SqlitePool, SqlitePoolOptions, SqliteRow,
};

/// A SQLite database on which the statements of the library are run.
struct Db {
    pool: SqlitePool,
    plan: DbPool,
}

impl Db {
    async fn open(connection: &str) -> Db {
        let plan = DbPool::new(&Database {
            engine: "sqlite".to_string(),
            connection: connection.to_string(),
        });
        let url = match &plan {
            DbPool::Sqlite(url) => url.clone(),
            DbPool::Postgres(_) => unreachable!(),
        };
        let options = SqliteConnectOptions::from_str(&url)
            .expect("DB init failed")
            .journal_mode(SqliteJournalMode::Wal)
            .busy_timeout(std::time::Duration::from_secs(BUSY_TIMEOUT));
        let pool = SqlitePoolOptions::new()
            .max_connections(MAX_CONNECTIONS)
            .connect_with(options)
            .await
            .expect("DB init failed");
        let db = Db { pool, plan };
        db.migrate().await;
        db
    }

    async fn memory() -> Db {
        Db::open(":memory:").await
    }

    async fn migrate(&self) {
        for sql in DbPool::run_embedded_migrations(&scripts()) {
            if let Err(e) = query(&sql).execute(&self.pool).await {
                assert!(DbPool::is_idempotent(&e.to_string()), "{}: {}", sql, e);
            }
        }
    }

    async fn execute(&self, statement: &Statement) -> Result<u64, Error> {
        let mut q = query(&statement.sql);
        for b in &statement.binds {
            q = match b {
                Bind::Text(s) => q.bind(s.clone()),
                Bind::Int(n) => q.bind(*n),
            };
        }
        Ok(q.execute(&self.pool).await?.rows_affected())
    }

    async fn fetch(&self, statement: &Statement) -> Result<Vec<SqliteRow>, Error> {
        let mut q = query(&statement.sql);
        for b in &statement.binds {
            q = match b {
                Bind::Text(s) => q.bind(s.clone()),
                Bind::Int(n) => q.bind(*n),
            };
        }
        q.fetch_all(&self.pool).await
    }

    async fn records(&self, statement: &Statement) -> Result<Vec<RecordRow>, Error> {
        let rows = self.fetch(statement).await?;
        Ok(rows
            .iter()
            .map(|r| RecordRow {
                username: r.get(0),
                password: r.get(1),
                subdomain: r.get(2),
                allow_from: r.get(3),
                created_at: r.try_get(4).ok(),
                has_updated: r.try_get(5).ok(),
            })
            .collect())
    }

    async fn txt_rows(&self, subdomain: &str) -> Result<Vec<TxtRow>, Error> {
        let rows = self.fetch(&self.plan.get_txt_for_domain(subdomain)).await?;
        Ok(rows
            .iter()
            .map(|r| TxtRow { id: r.get(0), last_update: r.get(1), value: r.get(2) })
            .collect())
    }

    async fn register(&self, allow_from: Vec<String>) -> Result<Registration, Error> {
        let account = self.plan.register(&allow_from).expect("no randomness");
        self.execute(&account.insert).await?;
        Ok(account)
    }

    async fn user(&self, statement: &Statement) -> Result<Option<Record>, Error> {
        Ok(DbPool::records_from(self.records(statement).await?).into_iter().next())
    }

    async fn get_user_by_username(&self, username: &str) -> Result<Option<Record>, Error> {
        self.user(&self.plan.get_user_by_username(username)).await
    }

    async fn get_user_by_subdomain(&self, subdomain: &str) -> Result<Option<Record>, Error> {
        self.user(&self.plan.get_user_by_subdomain(subdomain)).await
    }

    async fn list_users(&self) -> Result<Vec<Record>, Error> {
        Ok(DbPool::records_from(self.records(&self.plan.list_users()).await?))
    }

    async fn update_txt(&self, subdomain: &str, txt: &str) -> Result<(), Error> {
        self.execute(&self.plan.update_txt(subdomain, txt)).await?;
        let rows = self.txt_rows(subdomain).await?;
        for statement in self.plan.prune_txt(subdomain, rows) {
            self.execute(&statement).await?;
        }
        Ok(())
    }

    async fn get_txt_for_domain(&self, subdomain: &str) -> Result<Vec<String>, Error> {
        Ok(DbPool::txt_values(self.txt_rows(subdomain).await?))
    }

    async fn delete_user(&self, username: &str) -> Result<bool, Error> {
        let mut affected = 0;
        for statement in self.plan.delete_user(username) {
            affected = self.execute(&statement).await?;
        }
        Ok(DbPool::was_deleted(affected))
    }

    async fn set_admin_password(&self, hash: &str) -> Result<(), Error> {
        for statement in self.plan.set_admin_password(hash) {
            self.execute(&statement).await?;
        }
        Ok(())
    }

    async fn get_admin_password_hash(&self) -> Result<Option<String>, Error> {
        let rows = self.fetch(&self.plan.get_admin_password_hash()).await?;
        Ok(DbPool::admin_password_hash(rows.first().map(|r| r.get(0))))
    }

    async fn cleanup_orphan_records(&self, timeout_seconds: i64) -> Result<u64, Error> {
        let rows = self.records(&self.plan.list_unused()).await?;
        let mut cleaned = 0;
        for statement in self.plan.cleanup_orphan_records(&rows, timeout_seconds).expect("range") {
            cleaned += self.execute(&statement).await?;
        }
        Ok(cleaned)
    }
}

fn run<F: std::future::Future>(f: F) -> F::Output {
    tokio::runtime::Builder::new_multi_thread().enable_all().build().unwrap().block_on(f)
}

#[test]
fn test_register_and_get_user() {
    run(async {
        let db = Db::memory().await;
        let r = db.register(vec![]).await.expect("register failed");
        let record = db
            .get_user_by_username(&r.username)
            .await
            .expect("query failed")
            .expect("user not found");
        assert_eq!(record.username, r.username);
        assert_eq!(record.subdomain, r.subdomain);
        assert!(!r.password.is_empty());
        assert!(!record.password_hash.is_empty());
        assert_eq!(record.allow_from, Vec::<String>::new());
        assert!(!record.has_updated);
    });
}

#[test]
fn test_register_with_allowfrom() {
    run(async {
        let db = Db::memory().await;
        let cidrs = vec!["192.168.1.0/24".to_string(), "10.0.0.0/8".to_string()];
        let r = db.register(cidrs.clone()).await.expect("register failed");
        let record = db
            .get_user_by_username(&r.username)
            .await
            .expect("query failed")
            .expect("user not found");
        assert_eq!(record.allow_from, cidrs);
    });
}

#[test]
fn test_update_txt_and_get() {
    run(async {
        let db = Db::memory().await;
        let r = db.register(vec![]).await.expect("register failed");
        db.update_txt(&r.subdomain, "AAAAAAAAAAAAAAAAAAAAAAAAAAAAAAAAAAAAAAAAAA1")
            .await
            .expect("update failed");
        let values = db.get_txt_for_domain(&r.subdomain).await.expect("get_txt failed");
        assert_eq!(values.len(), 1);
        assert_eq!(values[0], "AAAAAAAAAAAAAAAAAAAAAAAAAAAAAAAAAAAAAAAAAA1");
    });
}

#[test]
fn test_update_txt_keeps_max_2() {
    run(async {
        let db = Db::memory().await;
        let r = db.register(vec![]).await.expect("register failed");
        let sub = &r.subdomain;
        db.update_txt(sub, "TOKEN_1_AAAAAAAAAAAAAAAAAAAAAAAAAAAAAAAAAAAA").await.unwrap();
        db.update_txt(sub, "TOKEN_2_AAAAAAAAAAAAAAAAAAAAAAAAAAAAAAAAAAAA").await.unwrap();
        db.update_txt(sub, "TOKEN_3_AAAAAAAAAAAAAAAAAAAAAAAAAAAAAAAAAAAA").await.unwrap();
        let values = db.get_txt_for_domain(sub).await.expect("get_txt failed");
        assert_eq!(values.len(), 2, "deve manter no máximo 2 TXT records");
        assert!(values.iter().all(|v| v.starts_with("TOKEN_")));
        assert!(!values.iter().any(|v| v.contains("TOKEN_1")), "TOKEN_1 deve ter sido removido");
        // The surplus record is gone from the database, too, and the newest comes first.
        assert_eq!(db.txt_rows(sub).await.unwrap().len(), 2);
        assert!(values[0].starts_with("TOKEN_3"));
        assert!(values[1].starts_with("TOKEN_2"));
    });
}

#[test]
fn test_delete_user() {
    run(async {
        let db = Db::memory().await;
        let r = db.register(vec![]).await.expect("register failed");
        let deleted = db.delete_user(&r.username).await.expect("delete failed");
        assert!(deleted);
        let record = db.get_user_by_username(&r.username).await.expect("query failed");
        assert!(record.is_none());
    });
}

#[test]
fn test_delete_nonexistent_user() {
    run(async {
        let db = Db::memory().await;
        let deleted = db.delete_user("nonexistent-user").await.expect("delete failed");
        assert!(!deleted);
    });
}

#[test]
fn test_admin_password() {
    run(async {
        let db = Db::memory().await;
        let hash = bcrypt::hash("test_password_123", 4).unwrap();
        db.set_admin_password(&hash).await.expect("set_admin failed");
        let stored = db.get_admin_password_hash().await.expect("get failed").expect("no hash");
        assert_eq!(stored, hash);
    });
}

#[test]
fn test_list_users() {
    run(async {
        let db = Db::memory().await;
        db.register(vec![]).await.unwrap();
        db.register(vec![]).await.unwrap();
        let users = db.list_users().await.expect("list failed");
        assert_eq!(users.len(), 2);
    });
}

#[test]
fn test_get_user_by_subdomain() {
    run(async {
        let db = Db::memory().await;
        let r = db.register(vec![]).await.expect("register failed");
        let record = db
            .get_user_by_subdomain(&r.subdomain)
            .await
            .expect("query failed")
            .expect("not found");
        assert_eq!(record.subdomain, r.subdomain);
    });
}

#[test]
fn test_update_txt_concurrent_keeps_max_2() {
    run(async {
        let db = Arc::new(Db::memory().await);
        let r = db.register(vec![]).await.expect("register failed");
        let mut handles = Vec::new();
        for i in 0..20 {
            let db_clone = Arc::clone(&db);
            let sub_clone = r.subdomain.clone();
            handles.push(tokio::spawn(async move {
                let token = format!("CONCURRENT_TOKEN_{:02}_AAAAAAAAAAAAAAAAAAAAAAAAA", i);
                db_clone.update_txt(&sub_clone, &token).await
            }));
        }
        for h in handles {
            let res = h.await.unwrap();
            assert!(res.is_ok(), "Update concorrente falhou: {:?}", res);
        }
        let values = db.get_txt_for_domain(&r.subdomain).await.expect("get_txt failed");
        assert_eq!(
            values.len(),
            2,
            "Mesmo com 20 updates concorrentes, deve manter estritamente 2 TXTs"
        );
        assert_eq!(db.txt_rows(&r.subdomain).await.unwrap().len(), 2);
    });
}

#[test]
fn test_cleanup_orphan_records() {
    run(async {
        let db = Db::memory().await;
        let r = db.register(vec![]).await.expect("Should register");
        let user = db.get_user_by_username(&r.username).await.unwrap();
        assert!(user.is_some());

        let cleaned = db.cleanup_orphan_records(-1).await.expect("Should clean");
        assert_eq!(cleaned, 1);
        let user = db.get_user_by_username(&r.username).await.unwrap();
        assert!(user.is_none());

        let r2 = db.register(vec![]).await.unwrap();
        db.update_txt(&r2.subdomain, "dGhpcyBpcyBhIHZhbGlkIHRva2VuIHRlc3QAcmeToken_")
            .await
            .unwrap();
        let cleaned = db.cleanup_orphan_records(-1).await.unwrap();
        assert_eq!(cleaned, 0);
        let user2 = db.get_user_by_username(&r2.username).await.unwrap();
        assert!(user2.is_some());
    });
}

#[test]
fn a_young_account_is_no_orphan() {
    run(async {
        let db = Db::memory().await;
        db.register(vec![]).await.unwrap();
        assert_eq!(db.cleanup_orphan_records(1800).await.unwrap(), 0);
        assert_eq!(db.list_users().await.unwrap().len(), 1);
    });
}

#[test]
fn a_registered_password_matches_the_stored_hash() {
    run(async {
        let db = Db::memory().await;
        let r = db.register(vec![]).await.unwrap();
        let record = db.get_user_by_username(&r.username).await.unwrap().unwrap();
        assert!(correct_password(&r.password, &record.password_hash));
        assert!(!correct_password("another", &record.password_hash));
        assert!(record.password_hash.starts_with("$2b$10$"));
        assert_eq!(r.username.len(), 36);
        assert_eq!(r.password.len(), 40);
        assert_ne!(r.username, r.subdomain);
        assert_eq!(record.created_at.len(), "2026-01-01 00:00:00".len());
    });
}

#[test]
fn an_update_marks_the_account_as_used() {
    run(async {
        let db = Db::memory().await;
        let r = db.register(vec![]).await.unwrap();
        db.update_txt(&r.subdomain, "A").await.unwrap();
        assert!(db.get_user_by_username(&r.username).await.unwrap().unwrap().has_updated);
    });
}

#[test]
fn a_deleted_account_leaves_no_challenges_behind() {
    run(async {
        let db = Db::memory().await;
        let gone = db.register(vec![]).await.unwrap();
        let other = db.register(vec![]).await.unwrap();
        db.update_txt(&gone.subdomain, "A").await.unwrap();
        db.update_txt(&other.subdomain, "B").await.unwrap();
        assert!(db.delete_user(&gone.username).await.unwrap());
        assert!(db.get_txt_for_domain(&gone.subdomain).await.unwrap().is_empty());
        assert_eq!(db.get_txt_for_domain(&other.subdomain).await.unwrap(), vec!["B"]);
    });
}

#[test]
fn a_new_admin_password_replaces_the_old_one() {
    run(async {
        let db = Db::memory().await;
        assert_eq!(db.get_admin_password_hash().await.unwrap(), None);
        db.set_admin_password("first").await.unwrap();
        db.set_admin_password("second").await.unwrap();
        assert_eq!(db.get_admin_password_hash().await.unwrap().unwrap(), "second");
        db.set_admin_password("").await.unwrap();
        assert_eq!(db.get_admin_password_hash().await.unwrap(), None);
    });
}

#[test]
fn operations_on_one_account_leave_the_others_as_they_are() {
    run(async {
        let db = Db::memory().await;
        let a = db.register(vec!["10.0.0.0/8".to_string()]).await.unwrap();
        let b = db.register(vec![]).await.unwrap();
        db.update_txt(&b.subdomain, "B1").await.unwrap();
        db.set_admin_password("hash").await.unwrap();
        let before = format!("{:?}", db.get_user_by_username(&b.username).await.unwrap());

        db.update_txt(&a.subdomain, "A1").await.unwrap();
        for i in 0..5 {
            db.update_txt(&a.subdomain, &format!("T{}", i)).await.unwrap();
        }
        assert_eq!(db.get_txt_for_domain(&a.subdomain).await.unwrap(), vec!["T4", "T3"]);
        assert_eq!(db.get_txt_for_domain(&b.subdomain).await.unwrap(), vec!["B1"]);
        let by_name = db.get_user_by_username(&a.username).await.unwrap();
        let by_sub = db.get_user_by_subdomain(&a.subdomain).await.unwrap();
        assert_eq!(format!("{:?}", by_name), format!("{:?}", by_sub));

        let c = db.register(vec![]).await.unwrap();
        assert_eq!(db.cleanup_orphan_records(-10).await.unwrap(), 1);
        assert!(db.get_user_by_username(&c.username).await.unwrap().is_none());
        assert!(db.delete_user(&a.username).await.unwrap());
        assert!(!db.delete_user(&a.username).await.unwrap());
        assert_eq!(db.list_users().await.unwrap().len(), 1);
        let after = format!("{:?}", db.get_user_by_username(&b.username).await.unwrap());
        assert_eq!(before, after);
        assert_eq!(db.get_txt_for_domain(&b.subdomain).await.unwrap(), vec!["B1"]);
        assert_eq!(db.get_admin_password_hash().await.unwrap().unwrap(), "hash");
    });
}

#[test]
fn setting_up_the_schema_twice_changes_nothing() {
    run(async {
        let db = Db::memory().await;
        let used = db.register(vec!["10.0.0.0/8".to_string()]).await.unwrap();
        db.register(vec![]).await.unwrap();
        db.update_txt(&used.subdomain, "token").await.unwrap();
        db.set_admin_password("hash").await.unwrap();
        let before = format!("{:?}", db.records(&db.plan.list_users()).await.unwrap());
        db.migrate().await;
        let after = format!("{:?}", db.records(&db.plan.list_users()).await.unwrap());
        assert_eq!(before, after);
        assert_eq!(db.get_txt_for_domain(&used.subdomain).await.unwrap(), vec!["token"]);
        assert_eq!(db.get_admin_password_hash().await.unwrap().unwrap(), "hash");
    });
}

#[test]
fn accounts_of_an_old_table_are_kept_dated_and_marked() {
    run(async {
        let db = Db::memory().await;
        for sql in [
            "DROP TABLE records",
            scripts()[1].as_str(),
            "INSERT INTO records VALUES ('u', 'h', 'with', '[]')",
            "INSERT INTO records VALUES ('v', 'i', 'without', '[]')",
            "INSERT INTO txt (Subdomain, Value) VALUES ('with', 'token')",
        ] {
            query(sql).execute(&db.pool).await.unwrap();
        }
        db.migrate().await;
        let mut rows = db.records(&db.plan.list_users()).await.unwrap();
        rows.sort_by(|a, b| a.username.cmp(&b.username));
        let told: Vec<(&str, &str, &str, &str, Option<i64>)> = rows
            .iter()
            .map(|r| {
                (
                    r.username.as_str(),
                    r.password.as_str(),
                    r.subdomain.as_str(),
                    r.allow_from.as_str(),
                    r.has_updated,
                )
            })
            .collect();
        assert_eq!(
            told,
            vec![("u", "h", "with", "[]", Some(1)), ("v", "i", "without", "[]", Some(0))]
        );
        assert!(rows.iter().all(|r| r.created_at.is_some()));
        assert_eq!(db.get_txt_for_domain("with").await.unwrap(), vec!["token"]);
    });
}

#[test]
fn the_schema_is_set_up_by_its_statements_as_they_are_written() {
    let statements = scripts();
    assert_eq!(statements.len(), 7);
    assert_eq!(statements[3], "ALTER TABLE records ADD COLUMN CreatedAt TEXT");
    assert_eq!(DbPool::run_embedded_migrations(&statements), statements);
}

fn row(id: i64, last_update: &str, value: &str) -> TxtRow {
    TxtRow { id, last_update: last_update.to_string(), value: value.to_string() }
}

fn account(username: &str, created_at: Option<&str>, has_updated: Option<i64>) -> RecordRow {
    RecordRow {
        username: username.to_string(),
        password: "hash".to_string(),
        subdomain: "sub".to_string(),
        allow_from: "[\"10.0.0.0/8\"]".to_string(),
        created_at: created_at.map(|s| s.to_string()),
        has_updated,
    }
}

fn sqlite() -> DbPool {
    DbPool::Sqlite("sqlite::memory:".to_string())
}

fn postgres() -> DbPool {
    DbPool::Postgres("postgres://localhost/acme".to_string())
}

#[test]
fn the_newest_two_tokens_are_read_newest_first() {
    let rows = vec![
        row(1, "2026-01-01 00:00:02", "c"),
        row(4, "2026-01-01 00:00:01", "b"),
        row(3, "2026-01-01 00:00:01", "a"),
        row(2, "2026-01-01 00:00:02", "d"),
    ];
    assert_eq!(DbPool::txt_values(rows), vec!["d", "c"]);
    assert_eq!(DbPool::txt_values(vec![row(1, "x", "only")]), vec!["only"]);
    assert_eq!(DbPool::txt_values(vec![]), Vec::<String>::new());
}

#[test]
fn pruning_deletes_the_others_and_marks_the_account() {
    let rows = vec![
        row(1, "2026-01-01 00:00:01", "a"),
        row(2, "2026-01-01 00:00:03", "b"),
        row(3, "2026-01-01 00:00:02", "c"),
        row(4, "2026-01-01 00:00:00", "d"),
    ];
    let plan = sqlite().prune_txt("sub", rows.clone());
    let texts: Vec<String> = plan.iter().map(|s| format!("{} {:?}", s.sql, s.binds)).collect();
    assert_eq!(
        texts,
        vec![
            "DELETE FROM txt WHERE Subdomain = ? AND rowid = ? AND Value = ? \
             [Text(\"sub\"), Int(1), Text(\"a\")]",
            "DELETE FROM txt WHERE Subdomain = ? AND rowid = ? AND Value = ? \
             [Text(\"sub\"), Int(4), Text(\"d\")]",
            "UPDATE records SET HasUpdated = 1 WHERE Subdomain = ? [Text(\"sub\")]",
        ]
    );
    let plan = postgres().prune_txt("sub", rows);
    assert_eq!(plan.len(), 3);
    assert_eq!(
        plan[0].sql,
        "DELETE FROM txt WHERE Subdomain = $1 AND (ctid::text::point)[0]::bigint * 65536 + \
         (ctid::text::point)[1]::bigint = $2 AND Value = $3"
    );
    assert_eq!(plan[2].sql, "UPDATE records SET HasUpdated = 1 WHERE Subdomain = $1");
    assert_eq!(sqlite().prune_txt("sub", vec![]).len(), 1);
}

#[test]
fn a_stored_row_reads_as_an_account() {
    let rec = DbPool::record_from(account("u", Some("2026-01-01 00:00:00"), Some(1)));
    assert_eq!(rec.username, "u");
    assert_eq!(rec.password_hash, "hash");
    assert_eq!(rec.subdomain, "sub");
    assert_eq!(rec.allow_from, vec!["10.0.0.0/8"]);
    assert_eq!(rec.created_at, "2026-01-01 00:00:00");
    assert!(rec.has_updated);
    let mut bare = account("u", None, None);
    bare.allow_from = "not json".to_string();
    let rec = DbPool::record_from(bare);
    assert_eq!(rec.allow_from, Vec::<String>::new());
    assert_eq!(rec.created_at, "");
    assert!(!rec.has_updated);
    assert!(DbPool::is_malformed_list("not json"));
    assert!(DbPool::is_malformed_list("[1]"));
    assert!(!DbPool::is_malformed_list("[\"10.0.0.0/8\"]"));
}

#[test]
fn orphans_are_the_unused_accounts_older_than_the_timeout() {
    let rows = vec![
        account("old", Some("2023-11-14 22:13:19"), Some(0)),
        account("edge", Some("2023-11-14 22:13:20"), Some(0)),
        account("used", Some("2023-11-14 22:13:19"), Some(1)),
        account("undated", None, Some(0)),
        account("unknown", Some("2023-11-14 22:13:19"), None),
    ];
    let plan = sqlite().cleanup_orphans_at(&rows, 100, 1_700_000_100).unwrap();
    assert_eq!(plan.len(), 1);
    assert_eq!(plan[0].sql, "DELETE FROM records WHERE Username = ? AND HasUpdated = 0");
    assert_eq!(format!("{:?}", plan[0].binds), "[Text(\"old\")]");
    let plan = postgres().cleanup_orphans_at(&rows, 99, 1_700_000_100).unwrap();
    assert_eq!(plan.len(), 2);
    assert_eq!(plan[0].sql, "DELETE FROM records WHERE Username = $1 AND HasUpdated = 0");
    assert!(sqlite().cleanup_orphans_at(&rows, i64::MIN, 0).is_none());
    assert!(sqlite().cleanup_orphans_at(&rows, 0, i64::MAX).is_none());
}

#[test]
fn a_configuration_names_the_database() {
    let url = |engine: &str, connection: &str| {
        DbPool::new(&Database { engine: engine.to_string(), connection: connection.to_string() })
    };
    assert!(matches!(url("postgres", "x"), DbPool::Postgres(u) if u == "x"));
    assert!(
        matches!(url("sqlite", ":memory:"), DbPool::Sqlite(u) if u == "sqlite::memory:?cache=shared")
    );
    assert!(matches!(url("sqlite", "sqlite:a.db"), DbPool::Sqlite(u) if u == "sqlite:a.db"));
    assert!(matches!(url("other", "/var/a.db"), DbPool::Sqlite(u) if u == "sqlite:///var/a.db"));
}

#[test]
fn a_script_is_cut_into_statements() {
    assert_eq!(
        DbPool::execute_sql("-- a\n  -- b\nCREATE TABLE x (\n-- c\na TEXT);\n;; INSERT y\n;\n"),
        vec!["CREATE TABLE x (\na TEXT)", "INSERT y"]
    );
    assert_eq!(DbPool::execute_sql("-- nothing"), Vec::<String>::new());
    assert_eq!(
        DbPool::run_embedded_migrations(&vec!["a;b".to_string(), "c".to_string()]),
        vec!["a", "b", "c"]
    );
}

#[test]
fn a_failure_that_says_done_before_is_passed_over() {
    assert!(DbPool::is_idempotent("table records already exists"));
    assert!(DbPool::is_idempotent("duplicate column name: CreatedAt"));
    assert!(!DbPool::is_idempotent("syntax error"));
}

#[test]
fn statements_are_written_for_either_database() {
    let (s, p) = (sqlite(), postgres());
    let head = "SELECT Username, Password, Subdomain, AllowFrom, CAST(CreatedAt AS TEXT) as \
                CreatedAt, HasUpdated FROM records";
    assert_eq!(s.list_users().sql, head);
    assert_eq!(p.list_unused().sql, format!("{} WHERE HasUpdated = 0", head));
    assert_eq!(p.get_user_by_username("u").sql, format!("{} WHERE Username = $1", head));
    assert_eq!(s.get_user_by_subdomain("u").sql, format!("{} WHERE Subdomain = ?", head));
    assert_eq!(
        p.store_record("u", "h", "s", "[]", "t").sql,
        "INSERT INTO records (Username, Password, Subdomain, AllowFrom, CreatedAt) VALUES ($1, $2, \
         $3, $4, $5)"
    );
    assert_eq!(
        format!("{:?}", s.store_record("u", "h", "s", "[]", "t").binds),
        "[Text(\"u\"), Text(\"h\"), Text(\"s\"), Text(\"[]\"), Text(\"t\")]"
    );
    assert_eq!(
        p.update_txt("s", "t").sql,
        "INSERT INTO txt (Subdomain, Value, LastUpdate) VALUES ($1, $2, CURRENT_TIMESTAMP)"
    );
    assert_eq!(p.delete_user("u")[1].sql, "DELETE FROM records WHERE Username = $1");
    assert_eq!(p.set_admin_password("h")[1].sql, "INSERT INTO admin (Password) VALUES ($1)");
    assert_eq!(s.get_admin_password_hash().sql, "SELECT Password FROM admin LIMIT 1");
    assert!(p.get_txt_for_domain("s").sql.ends_with("FROM txt WHERE Subdomain = $1"));
    assert_eq!(DbPool::admin_password_hash(Some(String::new())), None);
}

#[test]
fn a_registration_is_made_of_its_parts_or_fails_with_them() {
    let make = |hash: Result<String, String>, list: Result<String, String>| {
        sqlite().make_registration(
            "u".to_string(),
            "s".to_string(),
            "p".to_string(),
            hash,
            list,
            "2026-01-01 00:00:00",
        )
    };
    let ok = |s: &str| Ok::<String, String>(s.to_string());
    let err = |s: &str| Err::<String, String>(s.to_string());
    let r = make(ok("h"), ok("[]")).unwrap();
    assert_eq!((r.username.as_str(), r.subdomain.as_str(), r.password.as_str()), ("u", "s", "p"));
    assert_eq!(
        format!("{:?}", r.insert.binds),
        "[Text(\"u\"), Text(\"h\"), Text(\"s\"), Text(\"[]\"), Text(\"2026-01-01 00:00:00\")]"
    );
    assert_eq!(make(err("a"), err("b")).unwrap_err(), "error with configuration: a");
    assert_eq!(make(ok("h"), err("b")).unwrap_err(), "error with configuration: b");
}
