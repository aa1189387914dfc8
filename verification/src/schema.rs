//! Schema entries: one row of the database's catalog, and the path rules
//! that place an entry's SQL text and a table's row data in the export.

use vstd::prelude::*;
use vstd::string::StringExecFns;
use vstd::string::StrSliceExecFns;

verus! {

/// One schema object from the database catalog.
///
/// `sql` is absent for implicit, auto-generated objects; those are
/// skipped by every sink. Row data of a table is stored under
/// `tbl_name`, the owning table's name, not under `name`.
pub struct SchemaEntry {
    pub kind: String,
    pub name: String,
    pub tbl_name: String,
    pub column_names: Vec<String>,
    pub sql: Option<String>,
}

/// Character-for-character string comparison.
pub fn str_eq(a: &str, b: &str) -> (r: bool)
    ensures
        r == (a@ == b@),
{
    let na = a.unicode_len();
    let nb = b.unicode_len();
    if na != nb {
        return false;
    }
    let mut i: usize = 0;
    while i < na
        invariant
            i <= na,
            na == a@.len(),
            na == b@.len(),
            forall|j: int| 0 <= j < i ==> a@[j] == b@[j],
        decreases na - i,
    {
        if a.get_char(i) != b.get_char(i) {
            return false;
        }
        i = i + 1;
    }
    proof {
        assert(a@ =~= b@);
    }
    true
}

/// The relative path of a schema object's SQL text, keyed by kind and
/// name: `schema/<kind>/<name>.sql`. Entries of one kind are siblings
/// under their shared kind directory.
pub open spec fn schema_sql_path(kind: Seq<char>, name: Seq<char>) -> Seq<char> {
    "schema/"@ + kind + "/"@ + name + ".sql"@
}

/// The relative path of a table's row data in a directory export:
/// `data/table/<table_name>.json`.
pub open spec fn table_data_path(table_name: Seq<char>) -> Seq<char> {
    "data/table/"@ + table_name + ".json"@
}

/// Builds `schema/<kind>/<name>.sql`.
pub fn schema_sql_path_exec(kind: &str, name: &str) -> (r: String)
    ensures
        r@ == schema_sql_path(kind@, name@),
{
    let mut s = String::from_str("schema/");
    s.append(kind);
    s.append("/");
    s.append(name);
    s.append(".sql");
    s
}

/// Builds `data/table/<table_name>.json`.
pub fn table_data_path_exec(table_name: &str) -> (r: String)
    ensures
        r@ == table_data_path(table_name@),
{
    let mut s = String::from_str("data/table/");
    s.append(table_name);
    s.append(".json");
    s
}

impl SchemaEntry {
    /// Whether this entry is a table, the one kind whose row data is
    /// exported.
    pub fn is_table(&self) -> (r: bool)
        ensures
            r == (self.kind@ == "table"@),
    {
        str_eq(self.kind.as_str(), "table")
    }

    /// The storage key for this entry's row data: `tbl_name` for a
    /// table entry, nothing for any other kind.
    pub fn table_data_key(&self) -> (r: Option<&String>)
        ensures
            match r {
                Some(k) => self.kind@ == "table"@ && k@ == self.tbl_name@,
                None => self.kind@ != "table"@,
            },
    {
        if self.is_table() {
            Some(&self.tbl_name)
        } else {
            None
        }
    }
}

/// Entries sharing a kind but with different names never collide: their
/// SQL paths differ, while both sit under the same kind directory.
pub proof fn lemma_schema_paths_no_collision(kind: Seq<char>, n1: Seq<char>, n2: Seq<char>)
    requires
        n1 != n2,
    ensures
        schema_sql_path(kind, n1) != schema_sql_path(kind, n2),
        schema_sql_path(kind, n1).take(("schema/"@ + kind + "/"@).len() as int) == schema_sql_path(
            kind,
            n2,
        ).take(("schema/"@ + kind + "/"@).len() as int),
{
    let pre = "schema/"@ + kind + "/"@;
    let p1 = schema_sql_path(kind, n1);
    let p2 = schema_sql_path(kind, n2);
    assert(p1 =~= pre + (n1 + ".sql"@));
    assert(p2 =~= pre + (n2 + ".sql"@));
    assert(p1.take(pre.len() as int) =~= pre);
    assert(p2.take(pre.len() as int) =~= pre);
    if p1 == p2 {
        assert(p1.skip(pre.len() as int) =~= n1 + ".sql"@);
        assert(p2.skip(pre.len() as int) =~= n2 + ".sql"@);
        assert(n1 + ".sql"@ == n2 + ".sql"@);
        assert(n1.len() == n2.len());
        assert(n1 =~= (n1 + ".sql"@).take(n1.len() as int));
        assert(n2 =~= (n2 + ".sql"@).take(n2.len() as int));
        assert(false);
    }
}

} // verus!
