use sqlite2dir::codec::Value;
use sqlite2dir::git::{CommitOutcome, Repo};
use sqlite2dir::options::run_exit_code;
use sqlite2dir::SchemaEntry;

fn unique_dir(tag: &str) -> String {
    let nanos = std::time::SystemTime::now()
        .duration_since(std::time::UNIX_EPOCH)
        .unwrap()
        .as_nanos();
    format!("/tmp/sqlite2dir_test_{}_{}", tag, nanos)
}

fn entry(kind: &str, name: &str, tbl_name: &str, sql: Option<&str>) -> SchemaEntry {
    SchemaEntry {
        kind: String::from(kind),
        name: String::from(name),
        tbl_name: String::from(tbl_name),
        column_names: vec![],
        sql: sql.map(String::from),
    }
}

/// One full export of a small fixed database snapshot.
fn export_snapshot<'r>(repo: &'r Repo, user_rows: &[Vec<Value>]) -> CommitOutcome<'r> {
    let mut sink = repo.tree();
    let e = entry("table", "users", "users", Some("CREATE TABLE users (id, name)"));
    sink.write_schema_entry(&e).unwrap();
    sink.write_schema_entry(&entry(
        "index",
        "users_idx",
        "users",
        Some("CREATE INDEX users_idx ON users (id)"),
    ))
    .unwrap();
    let key = e.table_data_key().unwrap().clone();
    let mut table = sink.open_table(&key);
    for row in user_rows {
        table.write_row(row).unwrap();
    }
    sink.close_table(table).unwrap();
    sink.close().unwrap();
    repo.commit("test export", "Tester", "tester@example.com", sink)
        .unwrap()
}

fn sample_rows() -> Vec<Vec<Value>> {
    vec![
        vec![Value::Integer(1), Value::Text(String::from("ada"))],
        vec![Value::Integer(2), Value::Null],
    ]
}

#[test]
fn first_export_commits_with_zero_parents() {
    let dir = unique_dir("unborn");
    let repo = Repo::create(&dir).unwrap();
    let out = export_snapshot(&repo, &sample_rows());
    assert!(out.committed);
    assert_eq!(out.parents, 0);
    assert!(out.prior_tree.is_none());

    let head = repo.raw().head().unwrap().peel_to_commit().unwrap();
    assert_eq!(head.parent_count(), 0);
    assert_eq!(head.tree_id().as_bytes(), out.root.bytes().as_slice());
}

#[test]
fn committed_tree_holds_exactly_the_content() {
    let dir = unique_dir("content");
    let repo = Repo::create(&dir).unwrap();
    let out = export_snapshot(&repo, &sample_rows());
    assert!(out.committed);

    let head = repo.raw().head().unwrap().peel_to_commit().unwrap();
    let tree = head.tree().unwrap();
    let sql = tree
        .get_path(std::path::Path::new("schema/table/users.sql"))
        .unwrap();
    let blob = repo.raw().find_blob(sql.id()).unwrap();
    assert_eq!(blob.content(), b"CREATE TABLE users (id, name)");
    let idx = tree
        .get_path(std::path::Path::new("schema/index/users_idx.sql"))
        .unwrap();
    assert_eq!(
        repo.raw().find_blob(idx.id()).unwrap().content(),
        b"CREATE INDEX users_idx ON users (id)"
    );
    let rows = tree
        .get_path(std::path::Path::new("table/users.json"))
        .unwrap();
    assert_eq!(
        repo.raw().find_blob(rows.id()).unwrap().content(),
        b"[1,\"ada\"]\n[2,null]\n"
    );
}

#[test]
fn second_identical_export_creates_no_commit() {
    let dir = unique_dir("idempotent");
    let repo = Repo::create(&dir).unwrap();
    let first = export_snapshot(&repo, &sample_rows());
    assert!(first.committed);
    let head_after_first = repo.raw().head().unwrap().peel_to_commit().unwrap().id();

    let second = export_snapshot(&repo, &sample_rows());
    assert!(!second.committed);
    assert_eq!(second.root.bytes(), first.root.bytes());
    let head_after_second = repo.raw().head().unwrap().peel_to_commit().unwrap().id();
    assert_eq!(head_after_first, head_after_second);
}

#[test]
fn changed_export_commits_with_one_parent() {
    let dir = unique_dir("changed");
    let repo = Repo::create(&dir).unwrap();
    let first = export_snapshot(&repo, &sample_rows());
    assert!(first.committed);

    let mut more = sample_rows();
    more.push(vec![Value::Integer(3), Value::Text(String::from("eve"))]);
    let second = export_snapshot(&repo, &more);
    assert!(second.committed);
    assert_eq!(second.parents, 1);
    assert!(second.prior_tree.is_some());
    let head = repo.raw().head().unwrap().peel_to_commit().unwrap();
    assert_eq!(head.parent_count(), 1);
}

#[test]
fn exports_of_equal_content_have_identical_tree_ids() {
    let dir_a = unique_dir("det_a");
    let dir_b = unique_dir("det_b");
    let repo_a = Repo::create(&dir_a).unwrap();
    let repo_b = Repo::create(&dir_b).unwrap();
    let out_a = export_snapshot(&repo_a, &sample_rows());
    let out_b = export_snapshot(&repo_b, &sample_rows());
    assert_eq!(out_a.root.bytes(), out_b.root.bytes());
}

#[test]
fn staging_order_does_not_change_the_tree_id() {
    let table_entry = entry("table", "users", "users", Some("CREATE TABLE users (id)"));
    let index_entry = entry(
        "index",
        "users_idx",
        "users",
        Some("CREATE INDEX users_idx ON users (id)"),
    );
    let row_users = vec![Value::Integer(1)];
    let row_logs = vec![Value::Text(String::from("boot"))];

    let dir_a = unique_dir("order_a");
    let repo_a = Repo::create(&dir_a).unwrap();
    let mut sink_a = repo_a.tree();
    sink_a.write_schema_entry(&table_entry).unwrap();
    sink_a.write_schema_entry(&index_entry).unwrap();
    let mut ta = sink_a.open_table("users");
    ta.write_row(&row_users).unwrap();
    sink_a.close_table(ta).unwrap();
    let mut tb = sink_a.open_table("logs");
    tb.write_row(&row_logs).unwrap();
    sink_a.close_table(tb).unwrap();
    sink_a.close().unwrap();
    let out_a = repo_a
        .commit("export", "Tester", "tester@example.com", sink_a)
        .unwrap();

    let dir_b = unique_dir("order_b");
    let repo_b = Repo::create(&dir_b).unwrap();
    let mut sink_b = repo_b.tree();
    sink_b.write_schema_entry(&index_entry).unwrap();
    sink_b.write_schema_entry(&table_entry).unwrap();
    let mut tc = sink_b.open_table("logs");
    tc.write_row(&row_logs).unwrap();
    sink_b.close_table(tc).unwrap();
    let mut td = sink_b.open_table("users");
    td.write_row(&row_users).unwrap();
    sink_b.close_table(td).unwrap();
    sink_b.close().unwrap();
    let out_b = repo_b
        .commit("export", "Tester", "tester@example.com", sink_b)
        .unwrap();

    assert_eq!(out_a.root.bytes(), out_b.root.bytes());
}

#[test]
fn entry_without_sql_succeeds_and_stages_nothing() {
    let dir = unique_dir("nosql");
    let repo = Repo::create(&dir).unwrap();
    let mut sink = repo.tree();
    sink.write_schema_entry(&entry("index", "sqlite_autoindex_t_1", "t", None))
        .unwrap();
    assert!(!sink.has_content_exec());
    sink.close().unwrap();
    let out = repo
        .commit("export", "Tester", "tester@example.com", sink)
        .unwrap();
    assert!(!out.committed);
}

#[test]
fn empty_export_into_fresh_repository_commits_nothing() {
    let dir = unique_dir("empty");
    let repo = Repo::create(&dir).unwrap();
    let mut sink = repo.tree();
    sink.close().unwrap();
    let out = repo
        .commit("empty export", "Tester", "tester@example.com", sink)
        .unwrap();
    assert!(!out.committed);
    assert!(repo.raw().head().is_err());
}

#[test]
fn built_trees_match_what_a_tree_builder_builds() {
    let dir = unique_dir("builder");
    let repo = Repo::create(&dir).unwrap();
    let out = export_snapshot(&repo, &sample_rows());

    let g = repo.raw();
    let sql_blob = g.blob(b"CREATE TABLE users (id, name)").unwrap();
    let mut table_kind = g.treebuilder(None).unwrap();
    table_kind.insert("users.sql", sql_blob, 0o100644).unwrap();
    let table_kind_oid = table_kind.write().unwrap();
    let idx_blob = g.blob(b"CREATE INDEX users_idx ON users (id)").unwrap();
    let mut index_kind = g.treebuilder(None).unwrap();
    index_kind.insert("users_idx.sql", idx_blob, 0o100644).unwrap();
    let index_kind_oid = index_kind.write().unwrap();
    let mut schema_dir = g.treebuilder(None).unwrap();
    schema_dir.insert("table", table_kind_oid, 0o040000).unwrap();
    schema_dir.insert("index", index_kind_oid, 0o040000).unwrap();
    let schema_oid = schema_dir.write().unwrap();
    let rows_blob = g.blob(b"[1,\"ada\"]\n[2,null]\n").unwrap();
    let mut table_dir = g.treebuilder(None).unwrap();
    table_dir.insert("users.json", rows_blob, 0o100644).unwrap();
    let table_oid = table_dir.write().unwrap();
    let mut root = g.treebuilder(None).unwrap();
    root.insert("schema", schema_oid, 0o040000).unwrap();
    root.insert("table", table_oid, 0o040000).unwrap();
    let root_oid = root.write().unwrap();

    assert_eq!(root_oid.as_bytes(), out.root.bytes().as_slice());
}

#[test]
fn later_schema_entry_with_same_key_wins() {
    let dir = unique_dir("upsert");
    let repo = Repo::create(&dir).unwrap();
    let mut sink = repo.tree();
    sink.write_schema_entry(&entry("table", "t", "t", Some("CREATE TABLE t (a)")))
        .unwrap();
    sink.write_schema_entry(&entry("table", "t", "t", Some("CREATE TABLE t (a, b)")))
        .unwrap();
    sink.close().unwrap();
    let out = repo
        .commit("upsert export", "Tester", "tester@example.com", sink)
        .unwrap();
    assert!(out.committed);
    let tree = repo.raw().head().unwrap().peel_to_tree().unwrap();
    let sql = tree.get_path(std::path::Path::new("schema/table/t.sql")).unwrap();
    assert_eq!(
        repo.raw().find_blob(sql.id()).unwrap().content(),
        b"CREATE TABLE t (a, b)"
    );
}

#[test]
fn diff_gated_exit_codes_follow_changes() {
    let dir = unique_dir("exitcode");
    let repo = Repo::create(&dir).unwrap();
    let first = export_snapshot(&repo, &sample_rows());
    assert_eq!(run_exit_code(true, first.committed), 1);
    let second = export_snapshot(&repo, &sample_rows());
    assert_eq!(run_exit_code(true, second.committed), 0);
    assert_eq!(run_exit_code(false, first.committed), 0);
}

#[test]
fn open_of_missing_repository_reports_not_found() {
    let dir = unique_dir("missing");
    match Repo::open(&dir) {
        Err(e) => assert!(matches!(e.kind, sqlite2dir::git::GitErrorKind::NotFound)),
        Ok(_) => panic!("a missing directory must not open"),
    }
}
