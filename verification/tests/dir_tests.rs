use sqlite2dir::dir::DirSink;
use sqlite2dir::codec::Value;
use sqlite2dir::SchemaEntry;

fn entry(kind: &str, name: &str, tbl_name: &str, sql: Option<&str>) -> SchemaEntry {
    SchemaEntry {
        kind: String::from(kind),
        name: String::from(name),
        tbl_name: String::from(tbl_name),
        column_names: vec![],
        sql: sql.map(String::from),
    }
}

#[test]
fn schema_entries_of_one_kind_are_siblings() {
    let mut sink = DirSink::open("out");
    sink.write_schema_entry(&entry(
        "table",
        "users",
        "users",
        Some("CREATE TABLE users (id)"),
    ));
    sink.write_schema_entry(&entry(
        "index",
        "users_idx",
        "users",
        Some("CREATE INDEX users_idx ON users (id)"),
    ));
    sink.write_schema_entry(&entry(
        "index",
        "other_idx",
        "users",
        Some("CREATE INDEX other_idx ON users (id)"),
    ));
    sink.close();
    let writes = sink.writes();
    assert_eq!(writes.len(), 3);
    assert_eq!(writes[0].path, "out/schema/table/users.sql");
    assert_eq!(writes[0].content, "CREATE TABLE users (id)");
    assert_eq!(writes[1].path, "out/schema/index/users_idx.sql");
    assert_eq!(writes[2].path, "out/schema/index/other_idx.sql");
}

#[test]
fn entry_without_sql_is_skipped() {
    let mut sink = DirSink::open("out");
    sink.write_schema_entry(&entry("index", "sqlite_autoindex_t_1", "t", None));
    sink.close();
    assert_eq!(sink.writes().len(), 0);
}

#[test]
fn table_data_is_keyed_by_tbl_name() {
    let e = entry("table", "users_v2", "users", Some("CREATE TABLE users_v2 (id)"));
    let key = e.table_data_key().expect("a table has a data key").clone();
    assert_eq!(key, "users");

    let mut sink = DirSink::open("out");
    sink.write_schema_entry(&e);
    let mut t = sink.open_table(&key);
    t.write_row(&vec![Value::Integer(1), Value::Text(String::from("ada"))])
        .unwrap();
    sink.close_table(t);
    sink.close();
    let writes = sink.writes();
    assert_eq!(writes[1].path, "out/data/table/users.json");
    assert_eq!(writes[1].content, "[1,\"ada\"]\n");
}

#[test]
fn non_table_entries_have_no_data_key() {
    let e = entry("view", "v_users", "v_users", Some("CREATE VIEW v_users AS SELECT 1"));
    assert!(e.table_data_key().is_none());
}

#[test]
fn blob_row_leaves_table_content_untouched() {
    let mut sink = DirSink::open("out");
    let mut t = sink.open_table("users");
    t.write_row(&vec![Value::Integer(1)]).unwrap();
    assert!(t.write_row(&vec![Value::Blob]).is_err());
    t.write_row(&vec![Value::Integer(2)]).unwrap();
    sink.close_table(t);
    sink.close();
    assert_eq!(sink.writes()[0].content, "[1]\n[2]\n");
}

#[test]
fn filesystem_output_is_deterministic() {
    let build = || {
        let mut sink = DirSink::open("out");
        sink.write_schema_entry(&entry("table", "t", "t", Some("CREATE TABLE t (x)")));
        let mut tab = sink.open_table("t");
        tab.write_row(&vec![Value::Null, Value::Real(String::from("0.5"))])
            .unwrap();
        sink.close_table(tab);
        sink.close();
        sink.writes()
            .iter()
            .map(|w| (w.path.clone(), w.content.clone()))
            .collect::<Vec<_>>()
    };
    assert_eq!(build(), build());
}
