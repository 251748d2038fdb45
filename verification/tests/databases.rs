//! Tests of the databases of a server: names, statements, budgets, permissions.
use rusqlite::hooks::{AuthAction, AuthContext, Authorization};
use rusqlite::Connection;
use voltpanel::models::Server;
use voltpanel::services::databases::{
    check_statement, checked_db_dir, contains_keyword, datalab_byte_cap, db_dir, denies, exec,
    existing_db_dir, import, integrity_ok, list, migrates, open_server_db,
    open_server_db_no_create, query, size, total_size, total_size_excluding, validate_name,
    DbError, DbSize, DirAction, DirEntry, DirStep, PathState, QueryBudget, SqlAction,
    MAX_CELL_BYTES, MAX_DATABASES_PER_SERVER, MAX_QUERY_BYTES, MAX_QUERY_ROWS, MAX_STMT_BYTES,
};

fn test_server(uuid: &str) -> Server {
    Server {
        id: 1,
        uuid: uuid.into(),
        name: "test".into(),
        blueprint_id: 0,
        startup: String::new(),
        port: None,
        memory_mb: 1024,
        disk_mb: 1024,
        cpu_percent: 100,
    }
}

fn action_of(a: AuthAction<'_>) -> SqlAction {
    match a {
        AuthAction::Attach { .. } => SqlAction::Attach,
        AuthAction::Detach { .. } => SqlAction::Detach,
        AuthAction::Function { function_name } => SqlAction::Function { name: function_name.into() },
        AuthAction::CreateVtable { .. } => SqlAction::CreateVtable,
        AuthAction::DropVtable { .. } => SqlAction::DropVtable,
        AuthAction::Reindex { .. } => SqlAction::Reindex,
        AuthAction::Analyze { .. } => SqlAction::Analyze,
        AuthAction::Pragma { pragma_name, pragma_value } => {
            SqlAction::Pragma { name: pragma_name.into(), has_value: pragma_value.is_some() }
        }
        AuthAction::Insert { .. } => SqlAction::Insert,
        AuthAction::Update { .. } => SqlAction::Update,
        AuthAction::Delete { .. } => SqlAction::Delete,
        AuthAction::CreateTable { .. } => SqlAction::CreateTable,
        AuthAction::DropTable { .. } => SqlAction::DropTable,
        AuthAction::AlterTable { .. } => SqlAction::AlterTable,
        AuthAction::CreateIndex { .. } => SqlAction::CreateIndex,
        AuthAction::DropIndex { .. } => SqlAction::DropIndex,
        AuthAction::CreateView { .. } => SqlAction::CreateView,
        AuthAction::DropView { .. } => SqlAction::DropView,
        AuthAction::CreateTrigger { .. } => SqlAction::CreateTrigger,
        AuthAction::DropTrigger { .. } => SqlAction::DropTrigger,
        AuthAction::CreateTempTable { .. } => SqlAction::CreateTempTable,
        AuthAction::DropTempTable { .. } => SqlAction::DropTempTable,
        AuthAction::CreateTempIndex { .. } => SqlAction::CreateTempIndex,
        AuthAction::DropTempIndex { .. } => SqlAction::DropTempIndex,
        AuthAction::CreateTempView { .. } => SqlAction::CreateTempView,
        AuthAction::DropTempView { .. } => SqlAction::DropTempView,
        AuthAction::CreateTempTrigger { .. } => SqlAction::CreateTempTrigger,
        AuthAction::DropTempTrigger { .. } => SqlAction::DropTempTrigger,
        _ => SqlAction::Other,
    }
}

fn install_authorizer(conn: &Connection, read_only: bool) {
    conn.authorizer(Some(move |ctx: AuthContext<'_>| {
        if denies(&action_of(ctx.action), read_only) {
            Authorization::Deny
        } else {
            Authorization::Allow
        }
    }));
}

#[test]
fn authorizer_denies_attach_and_query_mutation() {
    let conn = Connection::open_in_memory().unwrap();
    conn.execute_batch(
        "CREATE TABLE t(v INTEGER); INSERT INTO t VALUES(1);
         CREATE INDEX ix ON t(v); CREATE VIEW w AS SELECT v FROM t;",
    )
    .unwrap();
    install_authorizer(&conn, false);
    assert!(conn.execute_batch("ATTACH DATABASE '/tmp/escape.db' AS x;").is_err());
    assert!(conn.execute_batch("DETACH DATABASE main;").is_err());
    assert!(conn.execute_batch("SELECT readfile('/etc/passwd');").is_err());
    assert!(conn.execute_batch("SELECT writefile('/tmp/x', 'y');").is_err());
    assert!(conn.execute_batch("SELECT load_extension('lib');").is_err());
    install_authorizer(&conn, true);
    assert!(conn.execute_batch("UPDATE t SET v=2;").is_err());
    assert!(conn.execute_batch("CREATE TABLE x(v);").is_err());
    assert!(conn.execute_batch("CREATE TEMP TABLE tmp(v);").is_err());
    assert!(conn.execute_batch("DROP VIEW w;").is_err());
    assert!(conn.execute_batch("DROP VIEW IF EXISTS w;").is_err());
    assert!(conn.execute_batch("ALTER TABLE t RENAME TO t2;").is_err());
    assert!(conn.execute_batch("ANALYZE;").is_err());
    assert!(conn.execute_batch("REINDEX;").is_err());
    assert!(conn.execute_batch("CREATE VIRTUAL TABLE vt USING fts5(x);").is_err());
    assert!(conn.execute_batch("PRAGMA writable_schema = ON;").is_err());
    assert!(conn.execute_batch("PRAGMA temp_store_directory = '/tmp';").is_err());
    assert!(conn.execute_batch("PRAGMA journal_mode = WAL;").is_err());
    assert_eq!(conn.query_row("SELECT v FROM t", [], |r| r.get::<_, i64>(0)).unwrap(), 1);
}

#[test]
fn authorizer_denies_drops_of_existing_objects() {
    let conn = Connection::open_in_memory().unwrap();
    conn.execute_batch(
        "CREATE TABLE t(v INTEGER);
         INSERT INTO t VALUES(1);
         CREATE VIEW w AS SELECT v FROM t;
         CREATE INDEX ix ON t(v);
         CREATE TRIGGER tr AFTER INSERT ON t BEGIN UPDATE t SET v = new.v; END;",
    )
    .unwrap();
    install_authorizer(&conn, true);
    for sql in [
        "DROP VIEW w;",
        "DROP VIEW IF EXISTS w;",
        "DROP TABLE t;",
        "DROP TABLE IF EXISTS t;",
        "DROP INDEX IF EXISTS ix;",
        "DROP TRIGGER IF EXISTS tr;",
        "REINDEX;",
    ] {
        assert!(conn.execute_batch(sql).is_err(), "should deny {sql}");
    }
    assert!(conn.execute_batch("DROP VIEW IF EXISTS nope;").is_ok());
    assert!(conn.execute_batch("DROP TABLE IF EXISTS nope;").is_ok());
    let bare = Connection::open_in_memory().unwrap();
    install_authorizer(&bare, true);
    assert!(bare.execute_batch("REINDEX;").is_ok());
    assert_eq!(
        conn.query_row("SELECT count(*) FROM sqlite_master", [], |r| r.get::<_, i64>(0)).unwrap(),
        4
    );
}

#[test]
fn contains_keyword_catches_vacuum_only_outside_strings_and_comments() {
    assert!(contains_keyword("VACUUM", "VACUUM"));
    assert!(contains_keyword("  vacuum into '/tmp/out.db'", "VACUUM"));
    assert!(!contains_keyword("-- VACUUM\nSELECT 1;", "VACUUM"));
    assert!(contains_keyword("/* VACUUM */ VACUUM", "VACUUM"));
    assert!(!contains_keyword("SELECT 'VACUUM';", "VACUUM"));
    assert!(!contains_keyword("SELECT \"VACUUM\";", "VACUUM"));
    assert!(!contains_keyword("SELECT [VACUUM];", "VACUUM"));
    assert!(!contains_keyword("SELECT `VACUUM`;", "VACUUM"));
    assert!(!contains_keyword("SELECT vacuum_col FROM t;", "VACUUM"));
    assert!(!contains_keyword("SELECT 1;", "VACUUM"));
}

#[test]
fn validate_name_rejects_paths_and_url_metacharacters() {
    for bad in [
        "",
        "..",
        ".",
        ".hidden",
        "a/b",
        "a\\b",
        "a..b",
        "a:b",
        "a?b",
        "a#b",
        "a&b",
        "a=b",
        "a%2eb",
        "a+b",
        "a@b",
        "a b",
        "a;b",
        "a\u{0}b",
        "h\u{e9}llo",
        &"a".repeat(65),
    ] {
        assert!(validate_name(bad).is_err(), "should reject {bad:?}");
    }
    for good in ["db", "my_db-1", "a.b", "ABC123._-"] {
        assert!(validate_name(good).is_ok(), "should accept {good:?}");
    }
}

#[test]
fn storage_lives_outside_the_workload_owned_server_root() {
    let server = test_server("srv-uuid");
    let dir = db_dir(&server, "/t/datalab");
    assert!(dir.starts_with("/t/datalab"));
    assert!(!dir.starts_with("/t/servers"));
    assert_eq!(open_server_db(&server, "/t/datalab", "lab", 0, 0).unwrap().file, "/t/datalab/srv-uuid/lab.db");
}

#[test]
fn datalab_byte_cap_is_quarter_of_disk_with_a_floor() {
    let mut small = test_server("srv-uuid");
    small.disk_mb = 64;
    assert_eq!(datalab_byte_cap(&small), 256 * 1024 * 1024);
    let mut big = test_server("srv-uuid");
    big.disk_mb = 8192;
    assert_eq!(datalab_byte_cap(&big), 2 * 1024 * 1024 * 1024);
}

#[test]
fn create_enforces_database_count_cap() {
    let server = test_server("srv-uuid");
    for i in 0..MAX_DATABASES_PER_SERVER {
        let name = format!("db{i}");
        open_server_db(&server, "/d", &name, i, 0).unwrap();
    }
    let err = open_server_db(&server, "/d", "overflow", MAX_DATABASES_PER_SERVER, 0).unwrap_err();
    assert!(err.message().contains("limit reached"), "got: {}", err.message());
}

#[test]
fn byte_quota_blocks_create_and_exec() {
    let mut server = test_server("srv-uuid");
    server.disk_mb = 1024;
    let cap = datalab_byte_cap(&server);
    let err = open_server_db(&server, "/d", "b", 1, cap + 1).unwrap_err();
    assert!(err.message().contains("quota"), "got: {}", err.message());
    let err = exec(&server, "/d", "a", "SELECT 1", cap + 1).unwrap_err();
    assert!(err.message().contains("quota"), "got: {}", err.message());
    assert_eq!(exec(&server, "/d", "a", "SELECT 1", cap - 1).unwrap().file, "/d/srv-uuid/a.db");
}

#[test]
fn size_includes_wal_and_shm_sidecars() {
    assert_eq!(size(Some(4096), Some(530_000), Some(32_768)), 4096 + 530_000 + 32_768);
    assert_eq!(size(None, None, None), 0);
    let dbs = vec![DbSize { name: "a".into(), bytes: 5 }, DbSize { name: "b".into(), bytes: 7 }];
    assert_eq!(total_size(&dbs), 12);
    assert_eq!(total_size_excluding(&dbs, "a"), 7);
}

#[test]
fn each_refusal_has_its_input() {
    let server = test_server("u");
    let cap = datalab_byte_cap(&server);
    assert_eq!(validate_name(".."), Err(DbError::InvalidName));
    assert_eq!(query(&server, "/d", "..", "SELECT 1").unwrap_err(), DbError::InvalidName);
    assert_eq!(open_server_db_no_create(&server, "/d", "a/b").unwrap_err(), DbError::InvalidName);
    assert_eq!(open_server_db_no_create(&server, "/d", "a").unwrap().file, "/d/u/a.db");
    assert_eq!(check_statement(&" ".repeat(MAX_STMT_BYTES + 1)), Err(DbError::StatementTooLong));
    assert_eq!(check_statement("vacuum"), Err(DbError::VacuumDenied));
    assert_eq!(check_statement("SELECT 1"), Ok(()));
    assert_eq!(query(&server, "/d", "a", "SELECT 1").unwrap().file, "/d/u/a.db");
    let dbs = vec![DbSize { name: "a".into(), bytes: 5 }, DbSize { name: "b".into(), bytes: 7 }];
    assert_eq!(import(&server, "a", &dbs, cap - 7), Ok(()));
    assert_eq!(import(&server, "a", &dbs, cap - 6), Err(DbError::ImportTooLarge));
    assert_eq!(import(&server, "..", &dbs, 1), Err(DbError::InvalidName));
    assert!(integrity_ok("ok"));
    assert!(!integrity_ok("*** in database main ***"));
}

#[test]
fn statements_never_make_a_database() {
    let server = test_server("u");
    assert!(open_server_db(&server, "/d", "a", 0, 0).unwrap().create);
    assert!(!open_server_db_no_create(&server, "/d", "a").unwrap().create);
    assert!(!exec(&server, "/d", "a", "SELECT 1", 0).unwrap().create);
    assert!(!query(&server, "/d", "a", "SELECT 1").unwrap().create);
}

#[test]
fn a_name_loses_one_ending() {
    let file = DirEntry { name: "a.db.db".into(), regular: true };
    assert_eq!(list(&vec![file]), vec!["a.db"]);
}

#[test]
fn results_are_bounded() {
    assert_eq!(QueryBudget::blob(b"hi").unwrap(), "aGk=");
    assert_eq!(QueryBudget::blob(&vec![0; MAX_CELL_BYTES + 1]), Err(DbError::CellTooLarge));
    assert_eq!(QueryBudget::cell(MAX_CELL_BYTES), Ok(()));
    assert_eq!(QueryBudget::cell(MAX_CELL_BYTES + 1), Err(DbError::CellTooLarge));
    let mut b = QueryBudget::new();
    assert_eq!(b.next_row(), Ok(()));
    assert_eq!(b.add_row(MAX_QUERY_BYTES), Ok(()));
    assert_eq!(b.add_row(1), Err(DbError::ResultTooLarge));
    let full = QueryBudget { rows: MAX_QUERY_ROWS, bytes: 0 };
    assert_eq!(full.next_row(), Err(DbError::TooManyRows));
}

#[test]
fn listings_hold_regular_databases_only() {
    let e = |name: &str, regular| DirEntry { name: name.into(), regular };
    let found = vec![e("b.db", true), e("a.db", true), e("l.db", false), e("a.db-wal", true), e("x.txt", true)];
    let mut names = list(&found);
    names.sort();
    assert_eq!(names, vec!["a", "b"]);
}

#[test]
fn migration_takes_regular_files_only() {
    assert!(migrates("real.db", true));
    assert!(!migrates("stolen.db", false));
    assert!(!migrates("notes.txt", true));
}

#[test]
fn directories_are_checked_without_following_links() {
    assert_eq!(checked_db_dir(DirStep::Root, PathState::Missing), DirAction::Create);
    assert_eq!(checked_db_dir(DirStep::Root, PathState::Directory), DirAction::CheckServer);
    assert_eq!(
        checked_db_dir(DirStep::Root, PathState::Other),
        DirAction::Refuse(DbError::RootNotDirectory)
    );
    assert_eq!(
        checked_db_dir(DirStep::Server, PathState::Other),
        DirAction::Refuse(DbError::ServerPathNotDirectory)
    );
    assert_eq!(existing_db_dir(DirStep::Root, PathState::Missing), DirAction::Absent);
    assert_eq!(existing_db_dir(DirStep::Server, PathState::Directory), DirAction::Use);
}
