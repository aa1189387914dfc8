//! Filesystem sink: materializes an export as a list of pending file
//! writes under a root directory. The sink itself performs no I/O; a
//! caller takes the finished list and writes each file, creating parent
//! directories as needed, with plain overwrite semantics.

use vstd::prelude::*;
use vstd::string::StringExecFns;

use crate::codec::{encode_row, json_row, row_encodable, row_model, UnsupportedInput, Value};
use crate::schema::{schema_sql_path_exec, table_data_path_exec, SchemaEntry};
use crate::schema::{schema_sql_path, table_data_path};

verus! {

/// One pending file: a path (the export root joined with the file's
/// relative path) and the full content to store there.
pub struct FileWrite {
    pub path: String,
    pub content: String,
}

/// Accumulates the row lines of one table of a directory export.
pub struct FileTable {
    path: String,
    content: String,
}

impl FileTable {
    /// The pending path of this table's data file.
    pub closed spec fn path_spec(&self) -> Seq<char> {
        self.path@
    }

    /// The row lines accumulated so far.
    pub closed spec fn content_spec(&self) -> Seq<char> {
        self.content@
    }

    /// Appends one encoded row line. A row holding a blob fails as a
    /// whole and leaves the accumulated content untouched.
    pub fn write_row(&mut self, row: &Vec<Value>) -> (r: Result<(), UnsupportedInput>)
        ensures
            final(self).path_spec() == old(self).path_spec(),
            match r {
                Ok(()) => row_encodable(row_model(row@)) && final(self).content_spec() == old(
                    self
                ).content_spec() + json_row(row_model(row@)),
                Err(e) => !row_encodable(row_model(row@)) && e == UnsupportedInput::Blob && final(
                    self
                ).content_spec() == old(self).content_spec(),
            },
    {
        let line = encode_row(row)?;
        self.content.append(line.as_str());
        Ok(())
    }
}

/// The filesystem materialization of the sink contract.
pub struct DirSink {
    root: String,
    writes: Vec<FileWrite>,
    table_open: bool,
    sealed: bool,
}

impl View for DirSink {
    type V = Seq<(Seq<char>, Seq<char>)>;

    /// The pending files, in write order: (path, content) pairs.
    closed spec fn view(&self) -> Seq<(Seq<char>, Seq<char>)> {
        self.writes@.map_values(|w: FileWrite| (w.path@, w.content@))
    }
}

impl DirSink {
    /// The configured export root.
    pub closed spec fn root_spec(&self) -> Seq<char> {
        self.root@
    }

    /// Whether a table is currently open; only one may be at a time.
    pub closed spec fn has_open_table(&self) -> bool {
        self.table_open
    }

    /// Whether the sink was closed; a closed sink must not be reused.
    pub closed spec fn is_sealed(&self) -> bool {
        self.sealed
    }

    /// Opens a directory sink rooted at `root`, with nothing pending.
    pub fn open(root: &str) -> (s: DirSink)
        ensures
            s@ == Seq::<(Seq<char>, Seq<char>)>::empty(),
            s.root_spec() == root@,
            !s.has_open_table(),
            !s.is_sealed(),
    {
        let s = DirSink {
            root: String::from_str(root),
            writes: Vec::new(),
            table_open: false,
            sealed: false,
        };
        proof {
            assert(s@ =~= Seq::<(Seq<char>, Seq<char>)>::empty());
        }
        s
    }

    fn joined(&self, rel: String) -> (r: String)
        ensures
            r@ == self.root_spec() + "/"@ + rel@,
    {
        let mut p = self.root.clone();
        p.append("/");
        p.append(rel.as_str());
        p
    }

    /// Persists an entry's SQL text at `schema/<kind>/<name>.sql` under
    /// the root; an entry without SQL text is a no-op.
    pub fn write_schema_entry(&mut self, entry: &SchemaEntry)
        requires
            !old(self).is_sealed(),
            !old(self).has_open_table(),
        ensures
            final(self).root_spec() == old(self).root_spec(),
            !final(self).is_sealed(),
            !final(self).has_open_table(),
            match entry.sql {
                Some(sql) => final(self)@ == old(self)@.push(
                    (
                        old(self).root_spec() + "/"@ + schema_sql_path(entry.kind@, entry.name@),
                        sql@,
                    ),
                ),
                None => final(self)@ == old(self)@,
            },
    {
        match &entry.sql {
            Some(sql) => {
                let rel = schema_sql_path_exec(entry.kind.as_str(), entry.name.as_str());
                let path = self.joined(rel);
                self.writes.push(FileWrite { path, content: sql.clone() });
                proof {
                    assert(self@ =~= old(self)@.push(
                        (
                            old(self).root_spec() + "/"@ + schema_sql_path(
                                entry.kind@,
                                entry.name@,
                            ),
                            entry.sql->Some_0@,
                        ),
                    ));
                }
            },
            None => {},
        }
    }

    /// Begins accumulating row lines for the table named `name`, to be
    /// stored at `data/table/<name>.json` under the root.
    pub fn open_table(&mut self, name: &str) -> (t: FileTable)
        requires
            !old(self).is_sealed(),
            !old(self).has_open_table(),
        ensures
            final(self)@ == old(self)@,
            final(self).root_spec() == old(self).root_spec(),
            !final(self).is_sealed(),
            final(self).has_open_table(),
            t.path_spec() == old(self).root_spec() + "/"@ + table_data_path(name@),
            t.content_spec() == Seq::<char>::empty(),
    {
        self.table_open = true;
        let rel = table_data_path_exec(name);
        let path = self.joined(rel);
        FileTable { path, content: String::new() }
    }

    /// Finalizes one table: its accumulated content becomes the pending
    /// file at the table's path.
    pub fn close_table(&mut self, table: FileTable)
        requires
            !old(self).is_sealed(),
            old(self).has_open_table(),
        ensures
            final(self).root_spec() == old(self).root_spec(),
            !final(self).is_sealed(),
            !final(self).has_open_table(),
            final(self)@ == old(self)@.push((table.path_spec(), table.content_spec())),
    {
        let FileTable { path, content } = table;
        self.writes.push(FileWrite { path, content });
        self.table_open = false;
        proof {
            assert(self@ =~= old(self)@.push(
                (self.writes@.last().path@, self.writes@.last().content@),
            ));
        }
    }

    /// Finalizes the export. The directory backend needs no assembly,
    /// so this only seals the sink against further use.
    pub fn close(&mut self)
        requires
            !old(self).is_sealed(),
            !old(self).has_open_table(),
        ensures
            final(self)@ == old(self)@,
            final(self).root_spec() == old(self).root_spec(),
            final(self).is_sealed(),
    {
        self.sealed = true;
    }

    /// Whether the sink was closed already.
    pub fn sealed(&self) -> (r: bool)
        ensures
            r == self.is_sealed(),
    {
        self.sealed
    }

    /// Whether a table is currently open.
    pub fn table_open(&self) -> (r: bool)
        ensures
            r == self.has_open_table(),
    {
        self.table_open
    }

    /// The pending files, for a caller to store.
    pub fn writes(&self) -> (w: &Vec<FileWrite>)
        ensures
            w@.map_values(|fw: FileWrite| (fw.path@, fw.content@)) == self@,
    {
        &self.writes
    }
}

} // verus!
