//! Git sink and repository manager: materializes an export as blob and
//! tree objects in a bare repository's object store, and commits the new
//! root tree only if it differs from the previous export's tree.
//!
//! All calls into git2 go through small trusted wrappers; everything
//! else — grouping, canonical tree assembly, the commit decision — is
//! verified against the wrappers' contracts. An object id is modeled as
//! its 20 raw bytes; blob and tree ids are content hashes, functions of
//! the written bytes alone, named `blob_oid_of` and `tree_oid_of`.

use vstd::prelude::*;
use vstd::string::StringExecFns;
use vstd::string::StringSliceAdditionalSpecFns;
use vstd::string::StrSliceExecFns;
use vstd::utf8::encode_utf8;

use crate::codec::{json_row, row_encodable, row_model, UnsupportedInput, Value};
use crate::schema::SchemaEntry;
use crate::tree::{build_tree_body, clone_bytes, entry_pairs, mode_blob, mode_tree, tree_body,
    TreeEntry};

verus! {

#[verifier::external_type_specification]
#[verifier::external_body]
pub struct ExRepository(git2::Repository);

#[verifier::external_type_specification]
#[verifier::external_body]
pub struct ExGit2Error(git2::Error);

#[verifier::external_type_specification]
#[verifier::external_body]
pub struct ExTree<'a>(git2::Tree<'a>);

#[verifier::external_type_specification]
#[verifier::external_body]
pub struct ExCommit<'a>(git2::Commit<'a>);

#[verifier::external_type_specification]
#[verifier::external_body]
pub struct ExReference<'a>(git2::Reference<'a>);

#[verifier::external_type_specification]
#[verifier::external_body]
pub struct ExDiff<'a>(git2::Diff<'a>);

#[verifier::external_type_specification]
#[verifier::external_body]
pub struct ExOdb<'a>(git2::Odb<'a>);

#[verifier::external_type_specification]
#[verifier::external_body]
pub struct ExSignature<'a>(git2::Signature<'a>);

/// The object id of the blob holding the given bytes: a content hash,
/// the same in every repository.
pub uninterp spec fn blob_oid_of(data: Seq<u8>) -> Seq<u8>;

/// The object id of the tree object with the given serialized body: a
/// content hash, the same in every repository.
pub uninterp spec fn tree_oid_of(body: Seq<u8>) -> Seq<u8>;

/// What went wrong in the repository, by kind, with git's message.
#[derive(Debug, PartialEq, Eq, Structural, Clone, Copy)]
pub enum GitErrorKind {
    /// The path does not hold a repository.
    NotFound,
    /// The branch has no commit yet; a normal state for a first export.
    UnbornBranch,
    /// Any other repository or object-store failure.
    Other,
}

/// A failure reported by the git layer.
#[derive(Debug)]
pub struct GitError {
    pub kind: GitErrorKind,
    pub message: String,
}

/// An object id: the 20 raw bytes git names an object by.
pub struct Oid {
    bytes: Vec<u8>,
}

impl View for Oid {
    type V = Seq<u8>;

    closed spec fn view(&self) -> Seq<u8> {
        self.bytes@
    }
}

impl Oid {
    /// An id always holds exactly 20 bytes.
    pub open spec fn wf(&self) -> bool {
        self@.len() == 20
    }

    /// The raw bytes of the id.
    pub fn bytes(&self) -> (r: &Vec<u8>)
        ensures
            r@ == self@,
    {
        &self.bytes
    }

    /// Byte-for-byte comparison of two ids.
    pub fn eq_oid(&self, other: &Oid) -> (r: bool)
        ensures
            r == (self@ == other@),
    {
        if self.bytes.len() != other.bytes.len() {
            return false;
        }
        let mut i: usize = 0;
        while i < self.bytes.len()
            invariant
                i <= self.bytes@.len(),
                self.bytes@.len() == other.bytes@.len(),
                forall|j: int| 0 <= j < i ==> self.bytes@[j] == other.bytes@[j],
            decreases self.bytes@.len() - i,
        {
            if self.bytes[i] != other.bytes[i] {
                return false;
            }
            i = i + 1;
        }
        proof {
            assert(self.bytes@ =~= other.bytes@);
        }
        true
    }
}

/// Relies on git2::Error::code and git2::Error::message: maps git's
/// error code onto this module's error kinds, keeping the message.
#[verifier::external_body]
fn giterr(e: git2::Error) -> (r: GitError) {
    let kind = match e.code() {
        git2::ErrorCode::NotFound => GitErrorKind::NotFound,
        git2::ErrorCode::UnbornBranch => GitErrorKind::UnbornBranch,
        _ => GitErrorKind::Other,
    };
    GitError { kind, message: e.message().to_string() }
}

/// Relies on git2::Repository::open_bare: opens an existing bare
/// repository at the path; a missing one fails with git's not-found
/// code.
#[verifier::external_body]
fn repo_open_bare(path: &str) -> (r: Result<git2::Repository, git2::Error>) {
    git2::Repository::open_bare(std::path::Path::new(path))
}

/// Relies on git2::Repository::init_bare: creates a bare repository at
/// the path, creating the directory itself if missing.
#[verifier::external_body]
fn repo_init_bare(path: &str) -> (r: Result<git2::Repository, git2::Error>) {
    git2::Repository::init_bare(std::path::Path::new(path))
}

/// Relies on git2::Repository::blob: writes the bytes to the object
/// store as a blob and returns its id — a content hash of the bytes,
/// 20 bytes long.
#[verifier::external_body]
fn blob_create(repo: &git2::Repository, data: &str) -> (r: Result<Oid, git2::Error>)
    ensures
        r matches Ok(o) ==> o@ == blob_oid_of(data.spec_bytes()) && o@.len() == 20,
{
    match repo.blob(data.as_bytes()) {
        Ok(o) => Ok(Oid { bytes: o.as_bytes().to_vec() }),
        Err(e) => Err(e),
    }
}

/// Relies on git2::Repository::odb: a handle to the object database.
#[verifier::external_body]
fn repo_odb<'r>(repo: &'r git2::Repository) -> (r: Result<git2::Odb<'r>, git2::Error>) {
    repo.odb()
}

/// Relies on git2::Odb::write with the tree object type: writes the
/// serialized tree body and returns its id — a content hash of the
/// body, 20 bytes long.
#[verifier::external_body]
fn odb_write_tree(odb: &git2::Odb<'_>, body: &Vec<u8>) -> (r: Result<Oid, git2::Error>)
    ensures
        r matches Ok(o) ==> o@ == tree_oid_of(body@) && o@.len() == 20,
{
    match odb.write(git2::ObjectType::Tree, body.as_slice()) {
        Ok(o) => Ok(Oid { bytes: o.as_bytes().to_vec() }),
        Err(e) => Err(e),
    }
}

/// Relies on git2::Repository::find_tree: a handle to the tree object
/// with the given id.
#[verifier::external_body]
fn find_tree<'r>(repo: &'r git2::Repository, oid: &Oid) -> (r: Result<git2::Tree<'r>, git2::Error>)
    requires
        oid.wf(),
{
    let raw = match git2::Oid::from_bytes(&oid.bytes) {
        Ok(o) => o,
        Err(e) => return Err(e),
    };
    repo.find_tree(raw)
}

/// Relies on git2::Repository::head: the current branch reference; an
/// unborn branch (no commit yet) fails with git's unborn-branch code.
#[verifier::external_body]
fn repo_head<'r>(repo: &'r git2::Repository) -> (r: Result<git2::Reference<'r>, git2::Error>) {
    repo.head()
}

/// Relies on git2::Reference::peel_to_commit: the commit the reference
/// points at.
#[verifier::external_body]
fn peel_commit<'r>(reference: &git2::Reference<'r>) -> (r: Result<git2::Commit<'r>, git2::Error>) {
    reference.peel_to_commit()
}

/// Relies on git2::Commit::tree_id: the id of the commit's tree,
/// 20 bytes long.
#[verifier::external_body]
fn commit_tree_id(commit: &git2::Commit<'_>) -> (o: Oid)
    ensures
        o.wf(),
{
    Oid { bytes: commit.tree_id().as_bytes().to_vec() }
}

/// Relies on git2::Repository::diff_tree_to_tree: the diff between the
/// old tree (none stands for the empty tree) and the new tree, kept
/// only as display material for the caller.
#[verifier::external_body]
fn diff_trees<'r>(
    repo: &'r git2::Repository,
    old_tree: Option<&git2::Tree<'r>>,
    new_tree: &git2::Tree<'r>,
) -> (r: Result<git2::Diff<'r>, git2::Error>) {
    repo.diff_tree_to_tree(old_tree, Some(new_tree), None)
}

/// Relies on git2::Signature::now: an author signature for name and
/// email, stamped with the current time.
#[verifier::external_body]
fn signature_now(name: &str, email: &str) -> (r: Result<git2::Signature<'static>, git2::Error>) {
    git2::Signature::now(name, email)
}

/// Relies on git2::Repository::commit: creates a commit with the given
/// tree, message, author, and the given parent or none, and advances
/// the named reference to it.
#[verifier::external_body]
fn commit_create(
    repo: &git2::Repository,
    update_ref: &str,
    sig: &git2::Signature<'_>,
    message: &str,
    tree: &git2::Tree<'_>,
    parent: Option<&git2::Commit<'_>>,
) -> (r: Result<Oid, git2::Error>)
    ensures
        r matches Ok(o) ==> o.wf(),
{
    let outcome = match parent {
        Some(p) => repo.commit(Some(update_ref), sig, sig, message, tree, &[p]),
        None => repo.commit(Some(update_ref), sig, sig, message, tree, &[]),
    };
    match outcome {
        Ok(o) => Ok(Oid { bytes: o.as_bytes().to_vec() }),
        Err(e) => Err(e),
    }
}

// ---------------------------------------------------------------------
// Staging: blobs recorded by name, schema blobs grouped by kind, with
// last-writer-wins update semantics per key.
// ---------------------------------------------------------------------

/// The staged schema content: per kind, the (name, sql bytes) entries.
pub type SchemaModel = Seq<(Seq<char>, Seq<(Seq<char>, Seq<u8>)>)>;

/// The staged table content: (table name, row-lines bytes) entries.
pub type TablesModel = Seq<(Seq<char>, Seq<u8>)>;

/// Records (name, data) in a keyed sequence: replaces the entry of the
/// same name if one exists, else appends.
pub open spec fn upsert_pairs(
    s: Seq<(Seq<char>, Seq<u8>)>,
    name: Seq<char>,
    data: Seq<u8>,
) -> Seq<(Seq<char>, Seq<u8>)>
    decreases s.len(),
{
    if s.len() == 0 {
        seq![(name, data)]
    } else if s[0].0 == name {
        seq![(name, data)] + s.drop_first()
    } else {
        seq![s[0]] + upsert_pairs(s.drop_first(), name, data)
    }
}

/// Records a schema entry under its kind's one group, creating the
/// group on first use of the kind.
pub open spec fn upsert_schema(
    m: SchemaModel,
    kind: Seq<char>,
    name: Seq<char>,
    data: Seq<u8>,
) -> SchemaModel
    decreases m.len(),
{
    if m.len() == 0 {
        seq![(kind, seq![(name, data)])]
    } else if m[0].0 == kind {
        seq![(kind, upsert_pairs(m[0].1, name, data))] + m.drop_first()
    } else {
        seq![m[0]] + upsert_schema(m.drop_first(), kind, name, data)
    }
}

/// Whether some entry carries the name.
pub open spec fn has_name(s: Seq<(Seq<char>, Seq<u8>)>, name: Seq<char>) -> bool {
    exists|i: int| 0 <= i < s.len() && (#[trigger] s[i]).0 == name
}

/// Entry names are pairwise distinct.
pub open spec fn distinct_names(s: Seq<(Seq<char>, Seq<u8>)>) -> bool {
    forall|i: int, j: int|
        0 <= i < j < s.len() ==> (#[trigger] s[i]).0 != (#[trigger] s[j]).0
}

/// Group kinds are pairwise distinct, and so are the names within each
/// group.
pub open spec fn distinct_keys(m: SchemaModel) -> bool {
    &&& forall|i: int, j: int|
        0 <= i < j < m.len() ==> (#[trigger] m[i]).0 != (#[trigger] m[j]).0
    &&& forall|i: int| 0 <= i < m.len() ==> distinct_names((#[trigger] m[i]).1)
}

proof fn lemma_upsert_has_inserted(s: Seq<(Seq<char>, Seq<u8>)>, name: Seq<char>, data: Seq<u8>)
    ensures
        has_name(upsert_pairs(s, name, data), name),
    decreases s.len(),
{
    let r = upsert_pairs(s, name, data);
    if s.len() == 0 {
        assert(r[0].0 == name);
    } else if s[0].0 == name {
        assert(r[0].0 == name);
    } else {
        lemma_upsert_has_inserted(s.drop_first(), name, data);
        let t = upsert_pairs(s.drop_first(), name, data);
        let j = choose|j: int| 0 <= j < t.len() && (#[trigger] t[j]).0 == name;
        assert(r[j + 1].0 == name);
    }
}

proof fn lemma_upsert_pairs_names(s: Seq<(Seq<char>, Seq<u8>)>, name: Seq<char>, data: Seq<u8>)
    ensures
        forall|n: Seq<char>|
            has_name(upsert_pairs(s, name, data), n) <==> (#[trigger] has_name(s, n) || n
                == name),
    decreases s.len(),
{
    let r = upsert_pairs(s, name, data);
    if s.len() == 0 {
        assert forall|n: Seq<char>| has_name(r, n) <==> (has_name(s, n) || n == name) by {
            if n == name {
                assert(r[0].0 == name);
            }
            if has_name(s, n) {
            }
        }
    } else if s[0].0 == name {
        assert forall|n: Seq<char>| has_name(r, n) <==> (has_name(s, n) || n == name) by {
            if has_name(r, n) {
                let i = choose|i: int| 0 <= i < r.len() && r[i].0 == n;
                if i == 0 {
                } else {
                    assert(s[i] == r[i]);
                }
            }
            if has_name(s, n) {
                let i = choose|i: int| 0 <= i < s.len() && s[i].0 == n;
                if i == 0 {
                    assert(r[0].0 == name);
                } else {
                    assert(r[i] == s[i]);
                }
            }
            if n == name {
                assert(r[0].0 == name);
            }
        }
    } else {
        lemma_upsert_pairs_names(s.drop_first(), name, data);
        let t = upsert_pairs(s.drop_first(), name, data);
        assert(r == seq![s[0]] + t);
        assert forall|n: Seq<char>| has_name(r, n) <==> (has_name(s, n) || n == name) by {
            if has_name(r, n) {
                let i = choose|i: int| 0 <= i < r.len() && r[i].0 == n;
                if i == 0 {
                    assert(s[0].0 == n);
                } else {
                    assert(r[i] == t[i - 1]);
                    assert(has_name(t, n));
                    if has_name(s.drop_first(), n) {
                        let j = choose|j: int|
                            0 <= j < s.drop_first().len() && s.drop_first()[j].0 == n;
                        assert(s[j + 1].0 == n);
                    }
                }
            }
            if has_name(s, n) {
                let i = choose|i: int| 0 <= i < s.len() && (#[trigger] s[i]).0 == n;
                if i == 0 {
                    assert(r[0].0 == n);
                } else {
                    assert(s.drop_first()[i - 1] == s[i]);
                    assert(has_name(s.drop_first(), n));
                    assert(has_name(t, n));
                    let j = choose|j: int| 0 <= j < t.len() && (#[trigger] t[j]).0 == n;
                    assert(r[j + 1].0 == n);
                }
            }
            if n == name {
                lemma_upsert_has_inserted(s.drop_first(), name, data);
                assert(has_name(t, name));
                let j = choose|j: int| 0 <= j < t.len() && (#[trigger] t[j]).0 == name;
                assert(r[j + 1].0 == name);
            }
        }
    }
}

/// Updating a keyed sequence never introduces a duplicate name: what
/// each built tree needs to be a well-formed listing.
pub proof fn lemma_upsert_pairs_distinct(
    s: Seq<(Seq<char>, Seq<u8>)>,
    name: Seq<char>,
    data: Seq<u8>,
)
    requires
        distinct_names(s),
    ensures
        distinct_names(upsert_pairs(s, name, data)),
    decreases s.len(),
{
    let r = upsert_pairs(s, name, data);
    if s.len() == 0 {
    } else if s[0].0 == name {
        assert(r == seq![(name, data)] + s.drop_first());
        assert forall|i: int, j: int| 0 <= i < j < r.len() implies r[i].0 != r[j].0 by {
            if i == 0 {
                assert(r[j] == s[j]);
                assert(s[0].0 != s[j].0);
            } else {
                assert(r[i] == s[i] && r[j] == s[j]);
            }
        }
    } else {
        assert(distinct_names(s.drop_first()));
        lemma_upsert_pairs_distinct(s.drop_first(), name, data);
        lemma_upsert_pairs_names(s.drop_first(), name, data);
        let t = upsert_pairs(s.drop_first(), name, data);
        assert(r == seq![s[0]] + t);
        assert forall|i: int, j: int| 0 <= i < j < r.len() implies r[i].0 != r[j].0 by {
            if i == 0 {
                assert(r[j] == t[j - 1]);
                if s[0].0 == t[j - 1].0 {
                    assert(has_name(t, s[0].0));
                    assert(has_name(s.drop_first(), s[0].0) || s[0].0 == name);
                    if has_name(s.drop_first(), s[0].0) {
                        let k = choose|k: int|
                            0 <= k < s.drop_first().len() && s.drop_first()[k].0 == s[0].0;
                        assert(s[k + 1].0 == s[0].0);
                        assert(false);
                    }
                }
            } else {
                assert(r[i] == t[i - 1] && r[j] == t[j - 1]);
            }
        }
    }
}

/// Recording a schema entry keeps kinds distinct and each group's names
/// distinct, so every kind subtree and the schema tree itself stay
/// well-formed listings.
pub proof fn lemma_upsert_schema_distinct(
    m: SchemaModel,
    kind: Seq<char>,
    name: Seq<char>,
    data: Seq<u8>,
)
    requires
        distinct_keys(m),
    ensures
        distinct_keys(upsert_schema(m, kind, name, data)),
    decreases m.len(),
{
    let r = upsert_schema(m, kind, name, data);
    if m.len() == 0 {
        assert(distinct_names(Seq::<(Seq<char>, Seq<u8>)>::empty()));
        assert(r[0].1 =~= seq![(name, data)]);
    } else if m[0].0 == kind {
        lemma_upsert_pairs_distinct(m[0].1, name, data);
        assert(r == seq![(kind, upsert_pairs(m[0].1, name, data))] + m.drop_first());
        assert forall|i: int, j: int| 0 <= i < j < r.len() implies r[i].0 != r[j].0 by {
            if i == 0 {
                assert(r[j] == m[j]);
                assert(m[0].0 != m[j].0);
            } else {
                assert(r[i] == m[i] && r[j] == m[j]);
            }
        }
        assert forall|i: int| 0 <= i < r.len() implies distinct_names(r[i].1) by {
            if i > 0 {
                assert(r[i] == m[i]);
            }
        }
    } else {
        assert(distinct_keys(m.drop_first()));
        lemma_upsert_schema_distinct(m.drop_first(), kind, name, data);
        let t = upsert_schema(m.drop_first(), kind, name, data);
        assert(r == seq![m[0]] + t);
        assert forall|i: int, j: int| 0 <= i < j < r.len() implies r[i].0 != r[j].0 by {
            if i == 0 {
                assert(r[j] == t[j - 1]);
                if m[0].0 == t[j - 1].0 {
                    assert(exists|x: int|
                        0 <= x < t.len() && (#[trigger] t[x]).0 == m[0].0);
                    lemma_upsert_schema_kinds(m.drop_first(), kind, name, data, m[0].0);
                    if m[0].0 != kind {
                        let k = choose|k: int|
                            0 <= k < m.drop_first().len() && (#[trigger] m.drop_first()[k]).0
                                == m[0].0;
                        assert(m[k + 1].0 == m[0].0);
                        assert(false);
                    }
                }
            } else {
                assert(r[i] == t[i - 1] && r[j] == t[j - 1]);
            }
        }
        assert forall|i: int| 0 <= i < r.len() implies distinct_names(r[i].1) by {
            if i > 0 {
                assert(r[i] == t[i - 1]);
            }
        }
    }
}

proof fn lemma_upsert_schema_kinds(
    m: SchemaModel,
    kind: Seq<char>,
    name: Seq<char>,
    data: Seq<u8>,
    n: Seq<char>,
)
    requires
        exists|i: int|
            0 <= i < upsert_schema(m, kind, name, data).len() && (#[trigger] upsert_schema(
                m,
                kind,
                name,
                data,
            )[i]).0 == n,
    ensures
        n == kind || exists|i: int| 0 <= i < m.len() && (#[trigger] m[i]).0 == n,
    decreases m.len(),
{
    let r = upsert_schema(m, kind, name, data);
    let i = choose|i: int| 0 <= i < r.len() && r[i].0 == n;
    if m.len() == 0 {
        assert(r[0].0 == kind);
    } else if m[0].0 == kind {
        if i == 0 {
        } else {
            assert(r[i] == m[i]);
        }
    } else {
        if i == 0 {
            assert(r[0] == m[0]);
        } else {
            let t = upsert_schema(m.drop_first(), kind, name, data);
            assert(r[i] == t[i - 1]);
            lemma_upsert_schema_kinds(m.drop_first(), kind, name, data, n);
            if !(n == kind) {
                let k = choose|k: int|
                    0 <= k < m.drop_first().len() && m.drop_first()[k].0 == n;
                assert(m[k + 1].0 == n);
            }
        }
    }
}

/// One staged blob: its entry name, the blob's object id, and (as
/// reasoning material only) the bytes behind that id.
struct NamedBlob {
    name: String,
    oid: Oid,
    content: Ghost<Seq<u8>>,
}

spec fn blob_wf(b: NamedBlob) -> bool {
    b.oid.wf() && b.oid@ == blob_oid_of(b.content@)
}

spec fn blobs_wf(s: Seq<NamedBlob>) -> bool {
    forall|i: int| 0 <= i < s.len() ==> blob_wf(#[trigger] s[i])
}

spec fn pairs_of(s: Seq<NamedBlob>) -> Seq<(Seq<char>, Seq<u8>)> {
    s.map_values(|b: NamedBlob| (b.name@, b.content@))
}

/// One kind's group of staged schema blobs; never empty.
struct SchemaGroup {
    kind: String,
    entries: Vec<NamedBlob>,
}

spec fn group_wf(g: SchemaGroup) -> bool {
    blobs_wf(g.entries@) && g.entries@.len() > 0
}

spec fn groups_wf(s: Seq<SchemaGroup>) -> bool {
    forall|i: int| 0 <= i < s.len() ==> group_wf(#[trigger] s[i])
}

spec fn groups_model(s: Seq<SchemaGroup>) -> SchemaModel {
    s.map_values(|g: SchemaGroup| (g.kind@, pairs_of(g.entries@)))
}

proof fn lemma_upsert_pairs_at(
    s: Seq<(Seq<char>, Seq<u8>)>,
    name: Seq<char>,
    data: Seq<u8>,
    j: int,
)
    requires
        0 <= j < s.len(),
        forall|k: int| 0 <= k < j ==> (#[trigger] s[k]).0 != name,
        s[j].0 == name,
    ensures
        upsert_pairs(s, name, data) == s.update(j, (name, data)),
    decreases j,
{
    if j == 0 {
        assert(upsert_pairs(s, name, data) =~= s.update(0, (name, data)));
    } else {
        assert(s[0].0 != name);
        lemma_upsert_pairs_at(s.drop_first(), name, data, j - 1);
        assert(s.drop_first().update(j - 1, (name, data)) =~= s.update(j, (name, data)).drop_first());
        assert(upsert_pairs(s, name, data) =~= s.update(j, (name, data)));
    }
}

proof fn lemma_upsert_pairs_none(s: Seq<(Seq<char>, Seq<u8>)>, name: Seq<char>, data: Seq<u8>)
    requires
        forall|k: int| 0 <= k < s.len() ==> (#[trigger] s[k]).0 != name,
    ensures
        upsert_pairs(s, name, data) == s.push((name, data)),
    decreases s.len(),
{
    if s.len() == 0 {
        assert(upsert_pairs(s, name, data) =~= s.push((name, data)));
    } else {
        lemma_upsert_pairs_none(s.drop_first(), name, data);
        assert(s.drop_first().push((name, data)) =~= s.push((name, data)).drop_first());
        assert(upsert_pairs(s, name, data) =~= s.push((name, data)));
    }
}

proof fn lemma_upsert_schema_at(m: SchemaModel, kind: Seq<char>, name: Seq<char>, data: Seq<u8>, j: int)
    requires
        0 <= j < m.len(),
        forall|k: int| 0 <= k < j ==> (#[trigger] m[k]).0 != kind,
        m[j].0 == kind,
    ensures
        upsert_schema(m, kind, name, data) == m.update(j, (kind, upsert_pairs(m[j].1, name, data))),
    decreases j,
{
    if j == 0 {
        assert(upsert_schema(m, kind, name, data) =~= m.update(
            0,
            (kind, upsert_pairs(m[0].1, name, data)),
        ));
    } else {
        assert(m[0].0 != kind);
        lemma_upsert_schema_at(m.drop_first(), kind, name, data, j - 1);
        assert(m.drop_first()[j - 1] == m[j]);
        assert(m.drop_first().update(j - 1, (kind, upsert_pairs(m[j].1, name, data)))
            =~= m.update(j, (kind, upsert_pairs(m[j].1, name, data))).drop_first());
        assert(upsert_schema(m, kind, name, data) =~= m.update(
            j,
            (kind, upsert_pairs(m[j].1, name, data)),
        ));
    }
}

proof fn lemma_upsert_schema_none(m: SchemaModel, kind: Seq<char>, name: Seq<char>, data: Seq<u8>)
    requires
        forall|k: int| 0 <= k < m.len() ==> (#[trigger] m[k]).0 != kind,
    ensures
        upsert_schema(m, kind, name, data) == m.push((kind, seq![(name, data)])),
    decreases m.len(),
{
    if m.len() == 0 {
        assert(upsert_schema(m, kind, name, data) =~= m.push((kind, seq![(name, data)])));
    } else {
        lemma_upsert_schema_none(m.drop_first(), kind, name, data);
        assert(m.drop_first().push((kind, seq![(name, data)])) =~= m.push(
            (kind, seq![(name, data)]),
        ).drop_first());
        assert(upsert_schema(m, kind, name, data) =~= m.push((kind, seq![(name, data)])));
    }
}

fn upsert_blob(v: &mut Vec<NamedBlob>, b: NamedBlob)
    requires
        blobs_wf(old(v)@),
        blob_wf(b),
    ensures
        blobs_wf(final(v)@),
        final(v)@.len() >= 1,
        pairs_of(final(v)@) == upsert_pairs(pairs_of(old(v)@), b.name@, b.content@),
{
    let ghost pairs = pairs_of(v@);
    let mut j: usize = 0;
    loop
        invariant
            j <= v@.len(),
            blobs_wf(v@),
            blob_wf(b),
            pairs == pairs_of(v@),
            forall|k: int| 0 <= k < j ==> (#[trigger] pairs[k]).0 != b.name@,
        ensures
            j <= v@.len(),
            pairs == pairs_of(v@),
            forall|k: int| 0 <= k < j ==> (#[trigger] pairs[k]).0 != b.name@,
            j < v@.len() ==> pairs[j as int].0 == b.name@,
        decreases v@.len() - j,
    {
        if j == v.len() {
            break;
        }
        if crate::schema::str_eq(v[j].name.as_str(), b.name.as_str()) {
            assert(pairs[j as int].0 == b.name@);
            break;
        }
        assert(pairs[j as int].0 == v@[j as int].name@);
        j = j + 1;
    }
    if j < v.len() {
        proof {
            lemma_upsert_pairs_at(pairs, b.name@, b.content@, j as int);
        }
        let ghost bname = b.name@;
        let ghost bcontent = b.content@;
        v.remove(j);
        v.insert(j, b);
        proof {
            assert(pairs_of(v@) =~= pairs.update(j as int, (bname, bcontent)));
            assert(blobs_wf(v@));
        }
    } else {
        proof {
            lemma_upsert_pairs_none(pairs, b.name@, b.content@);
        }
        let ghost bname = b.name@;
        let ghost bcontent = b.content@;
        v.push(b);
        proof {
            assert(pairs_of(v@) =~= pairs.push((bname, bcontent)));
            assert(blobs_wf(v@));
        }
    }
}

fn add_schema_blob(groups: &mut Vec<SchemaGroup>, kind: &str, b: NamedBlob)
    requires
        groups_wf(old(groups)@),
        blob_wf(b),
    ensures
        groups_wf(final(groups)@),
        groups_model(final(groups)@) == upsert_schema(
            groups_model(old(groups)@),
            kind@,
            b.name@,
            b.content@,
        ),
{
    let ghost model = groups_model(groups@);
    let mut j: usize = 0;
    loop
        invariant
            j <= groups@.len(),
            groups_wf(groups@),
            blob_wf(b),
            model == groups_model(groups@),
            forall|k: int| 0 <= k < j ==> (#[trigger] model[k]).0 != kind@,
        ensures
            j <= groups@.len(),
            model == groups_model(groups@),
            forall|k: int| 0 <= k < j ==> (#[trigger] model[k]).0 != kind@,
            j < groups@.len() ==> model[j as int].0 == kind@,
        decreases groups@.len() - j,
    {
        if j == groups.len() {
            break;
        }
        if crate::schema::str_eq(groups[j].kind.as_str(), kind) {
            assert(model[j as int].0 == kind@);
            break;
        }
        assert(model[j as int].0 == groups@[j as int].kind@);
        j = j + 1;
    }
    let ghost bname = b.name@;
    let ghost bcontent = b.content@;
    if j < groups.len() {
        proof {
            lemma_upsert_schema_at(model, kind@, bname, bcontent, j as int);
        }
        let mut g = groups.remove(j);
        let ghost gpairs = pairs_of(g.entries@);
        assert(gpairs == model[j as int].1);
        upsert_blob(&mut g.entries, b);
        let ghost newpairs = pairs_of(g.entries@);
        assert(newpairs == upsert_pairs(gpairs, bname, bcontent));
        assert(g.kind@ == kind@);
        groups.insert(j, g);
        proof {
            assert(groups_model(groups@) =~= model.update(
                j as int,
                (kind@, upsert_pairs(model[j as int].1, bname, bcontent)),
            ));
            assert(groups_wf(groups@));
        }
    } else {
        proof {
            lemma_upsert_schema_none(model, kind@, bname, bcontent);
        }
        let mut entries: Vec<NamedBlob> = Vec::new();
        entries.push(b);
        let g = SchemaGroup { kind: String::from_str(kind), entries };
        proof {
            assert(pairs_of(g.entries@) =~= seq![(bname, bcontent)]);
            assert(group_wf(g));
        }
        groups.push(g);
        proof {
            assert(groups_model(groups@) =~= model.push((kind@, seq![(bname, bcontent)])));
            assert(groups_wf(groups@));
        }
    }
}

// ---------------------------------------------------------------------
// The shape of the finished export tree, as a function of the staged
// content alone. This is what makes the export deterministic: the root
// id depends on nothing but the (kind, name, sql) and (table, rows)
// content.
// ---------------------------------------------------------------------

/// The leaf entries of one kind's subtree: `<name>.sql` pointing at the
/// blob of the entry's SQL bytes.
pub open spec fn sql_leaf_pairs(entries: Seq<(Seq<char>, Seq<u8>)>) -> Seq<(Seq<u8>, Seq<u8>)> {
    entries.map_values(|p: (Seq<char>, Seq<u8>)| (encode_utf8(p.0 + ".sql"@), blob_oid_of(p.1)))
}

/// The id of one kind's subtree.
pub open spec fn kind_tree_oid(entries: Seq<(Seq<char>, Seq<u8>)>) -> Seq<u8> {
    tree_oid_of(tree_body(mode_blob(), sql_leaf_pairs(entries)))
}

/// The entries of the `schema/` tree: one subtree per kind.
pub open spec fn schema_dir_pairs(m: SchemaModel) -> Seq<(Seq<u8>, Seq<u8>)> {
    m.map_values(|g: (Seq<char>, Seq<(Seq<char>, Seq<u8>)>)| (encode_utf8(g.0), kind_tree_oid(g.1)))
}

/// The id of the `schema/` tree.
pub open spec fn schema_dir_oid(m: SchemaModel) -> Seq<u8> {
    tree_oid_of(tree_body(mode_tree(), schema_dir_pairs(m)))
}

/// The leaf entries of the `table/` tree: `<table_name>.json` pointing
/// at the blob of the table's row lines.
pub open spec fn json_leaf_pairs(t: TablesModel) -> Seq<(Seq<u8>, Seq<u8>)> {
    t.map_values(|p: (Seq<char>, Seq<u8>)| (encode_utf8(p.0 + ".json"@), blob_oid_of(p.1)))
}

/// The id of the `table/` tree.
pub open spec fn table_dir_oid(t: TablesModel) -> Seq<u8> {
    tree_oid_of(tree_body(mode_blob(), json_leaf_pairs(t)))
}

/// The id of the export's root tree, holding `schema/` and `table/`.
pub open spec fn export_root_oid(m: SchemaModel, t: TablesModel) -> Seq<u8> {
    tree_oid_of(
        tree_body(
            mode_tree(),
            seq![
                (encode_utf8("schema"@), schema_dir_oid(m)),
                (encode_utf8("table"@), table_dir_oid(t)),
            ],
        ),
    )
}

/// Accumulates the row lines of one table of a git export.
pub struct GitTable {
    name: String,
    content: String,
}

impl GitTable {
    /// The table's storage name.
    pub closed spec fn name_spec(&self) -> Seq<char> {
        self.name@
    }

    /// The row lines accumulated so far.
    pub closed spec fn content_spec(&self) -> Seq<char> {
        self.content@
    }

    /// Appends one encoded row line. A row holding a blob fails as a
    /// whole and leaves the accumulated content untouched.
    pub fn write_row(&mut self, row: &Vec<Value>) -> (r: Result<(), UnsupportedInput>)
        ensures
            final(self).name_spec() == old(self).name_spec(),
            match r {
                Ok(()) => row_encodable(row_model(row@)) && final(self).content_spec() == old(
                    self
                ).content_spec() + json_row(row_model(row@)),
                Err(e) => !row_encodable(row_model(row@)) && e == UnsupportedInput::Blob && final(
                    self
                ).content_spec() == old(self).content_spec(),
            },
    {
        let line = crate::codec::encode_row(row)?;
        self.content.append(line.as_str());
        Ok(())
    }
}

/// The git materialization of the sink contract: an in-memory staging
/// of blobs, assembled into canonical trees on close.
pub struct TreeSink<'repo> {
    repo: &'repo git2::Repository,
    schema_groups: Vec<SchemaGroup>,
    tables: Vec<NamedBlob>,
    root: Option<Oid>,
}

impl<'repo> TreeSink<'repo> {
    /// Every staged blob id matches its content; groups are never
    /// empty; a root id, once set, is well formed.
    pub closed spec fn wf(&self) -> bool {
        groups_wf(self.schema_groups@) && blobs_wf(self.tables@) && match self.root {
            Some(o) => o.wf(),
            None => true,
        }
    }

    /// The staged schema content, grouped by kind.
    pub closed spec fn schema_model(&self) -> SchemaModel {
        groups_model(self.schema_groups@)
    }

    /// The staged table content.
    pub closed spec fn tables_model(&self) -> TablesModel {
        pairs_of(self.tables@)
    }

    /// The root tree id, present once the sink was closed.
    pub closed spec fn root_spec(&self) -> Option<Seq<u8>> {
        match self.root {
            Some(o) => Some(o@),
            None => None,
        }
    }

    /// Whether anything was staged; an export of an empty database
    /// stages nothing.
    pub open spec fn has_content(&self) -> bool {
        self.schema_model().len() > 0 || self.tables_model().len() > 0
    }

    fn new(repo: &'repo git2::Repository) -> (s: TreeSink<'repo>)
        ensures
            s.wf(),
            s.root_spec() is None,
            s.schema_model() == Seq::<(Seq<char>, Seq<(Seq<char>, Seq<u8>)>)>::empty(),
            s.tables_model() == Seq::<(Seq<char>, Seq<u8>)>::empty(),
    {
        let s = TreeSink { repo, schema_groups: Vec::new(), tables: Vec::new(), root: None };
        proof {
            assert(s.schema_model() =~= Seq::<(Seq<char>, Seq<(Seq<char>, Seq<u8>)>)>::empty());
            assert(s.tables_model() =~= Seq::<(Seq<char>, Seq<u8>)>::empty());
        }
        s
    }

    /// Writes an entry's SQL text as a blob and records it under its
    /// kind's group, keyed by name; an entry without SQL is a no-op.
    pub fn write_schema_entry(&mut self, entry: &SchemaEntry) -> (r: Result<(), GitError>)
        requires
            old(self).wf(),
            old(self).root_spec() is None,
        ensures
            final(self).wf(),
            final(self).root_spec() is None,
            final(self).tables_model() == old(self).tables_model(),
            entry.sql is None ==> r is Ok,
            match r {
                Ok(()) => match entry.sql {
                    Some(sql) => final(self).schema_model() == upsert_schema(
                        old(self).schema_model(),
                        entry.kind@,
                        entry.name@,
                        encode_utf8(sql@),
                    ),
                    None => final(self).schema_model() == old(self).schema_model(),
                },
                Err(_) => final(self).schema_model() == old(self).schema_model(),
            },
    {
        match &entry.sql {
            None => Ok(()),
            Some(sql) => {
                let oid = match blob_create(self.repo, sql.as_str()) {
                    Ok(o) => o,
                    Err(e) => return Err(giterr(e)),
                };
                let b = NamedBlob {
                    name: entry.name.clone(),
                    oid,
                    content: Ghost(encode_utf8(sql@)),
                };
                assert(blob_wf(b));
                add_schema_blob(&mut self.schema_groups, entry.kind.as_str(), b);
                Ok(())
            },
        }
    }

    /// Begins accumulating row lines for the table named `name`.
    pub fn open_table(&mut self, name: &str) -> (t: GitTable)
        requires
            old(self).wf(),
            old(self).root_spec() is None,
        ensures
            *final(self) == *old(self),
            t.name_spec() == name@,
            t.content_spec() == Seq::<char>::empty(),
    {
        GitTable { name: String::from_str(name), content: String::new() }
    }

    /// Finalizes one table: its accumulated lines become a blob,
    /// recorded under the table's name.
    pub fn close_table(&mut self, table: GitTable) -> (r: Result<(), GitError>)
        requires
            old(self).wf(),
            old(self).root_spec() is None,
        ensures
            final(self).wf(),
            final(self).root_spec() is None,
            final(self).schema_model() == old(self).schema_model(),
            match r {
                Ok(()) => final(self).tables_model() == upsert_pairs(
                    old(self).tables_model(),
                    table.name_spec(),
                    encode_utf8(table.content_spec()),
                ),
                Err(_) => final(self).tables_model() == old(self).tables_model(),
            },
    {
        let oid = match blob_create(self.repo, table.content.as_str()) {
            Ok(o) => o,
            Err(e) => return Err(giterr(e)),
        };
        let b = NamedBlob { name: table.name, oid, content: Ghost(encode_utf8(table.content@)) };
        assert(blob_wf(b));
        upsert_blob(&mut self.tables, b);
        Ok(())
    }

    /// Assembles the staged content into canonical kind subtrees, the
    /// `schema/` and `table/` trees and the root tree, writes each to
    /// the object store, and records the root id — a function of the
    /// staged content alone.
    #[verifier::loop_isolation(false)]
    pub fn close(&mut self) -> (r: Result<(), GitError>)
        requires
            old(self).wf(),
            old(self).root_spec() is None,
        ensures
            final(self).wf(),
            final(self).schema_model() == old(self).schema_model(),
            final(self).tables_model() == old(self).tables_model(),
            match r {
                Ok(()) => final(self).root_spec() == Some(
                    export_root_oid(old(self).schema_model(), old(self).tables_model()),
                ),
                Err(_) => final(self).root_spec() is None,
            },
    {
        let odb = match repo_odb(self.repo) {
            Ok(o) => o,
            Err(e) => return Err(giterr(e)),
        };
        let ghost m = groups_model(self.schema_groups@);
        let mut schema_entries: Vec<TreeEntry> = Vec::new();
        let mut gi: usize = 0;
        proof {
            assert(entry_pairs(schema_entries@) =~= schema_dir_pairs(m.take(0)));
        }
        while gi < self.schema_groups.len()
            invariant
                gi <= self.schema_groups@.len(),
                entry_pairs(schema_entries@) == schema_dir_pairs(m.take(gi as int)),
            decreases self.schema_groups@.len() - gi,
        {
            let g = &self.schema_groups[gi];
            let ghost gpairs = pairs_of(g.entries@);
            proof {
                assert(m[gi as int] == (g.kind@, gpairs));
            }
            let mut kind_entries: Vec<TreeEntry> = Vec::new();
            let mut k: usize = 0;
            proof {
                assert(entry_pairs(kind_entries@) =~= sql_leaf_pairs(gpairs.take(0)));
            }
            while k < g.entries.len()
                invariant
                    k <= g.entries@.len(),
                    gi < self.schema_groups@.len(),
                    g == self.schema_groups@[gi as int],
                    gpairs == pairs_of(g.entries@),
                    entry_pairs(kind_entries@) == sql_leaf_pairs(gpairs.take(k as int)),
                decreases g.entries@.len() - k,
            {
                let e = &g.entries[k];
                proof {
                    assert(blob_wf(g.entries@[k as int]));
                }
                let full = e.name.clone().concat(".sql");
                let name_bytes = full.as_str().as_bytes_vec();
                let oid_bytes = clone_bytes(e.oid.bytes());
                let ghost nb = name_bytes@;
                let ghost ob = oid_bytes@;
                let ghost ke_pre = kind_entries@;
                kind_entries.push(TreeEntry { name: name_bytes, oid: oid_bytes });
                proof {
                    assert(gpairs[k as int] == (e.name@, e.content@));
                    assert(entry_pairs(kind_entries@) =~= entry_pairs(ke_pre).push((nb, ob)));
                    assert((nb, ob) == (
                        encode_utf8(gpairs[k as int].0 + ".sql"@),
                        blob_oid_of(gpairs[k as int].1),
                    ));
                    assert(gpairs.take(k + 1) =~= gpairs.take(k as int).push(gpairs[k as int]));
                    assert(sql_leaf_pairs(gpairs.take(k + 1)) =~= sql_leaf_pairs(
                        gpairs.take(k as int),
                    ).push(
                        (encode_utf8(gpairs[k as int].0 + ".sql"@), blob_oid_of(gpairs[k as int].1)),
                    ));
                    assert(entry_pairs(kind_entries@) =~= sql_leaf_pairs(gpairs.take(k + 1)));
                }
                k = k + 1;
            }
            proof {
                assert(gpairs.take(g.entries@.len() as int) =~= gpairs);
            }
            let kind_body = build_tree_body(kind_entries, false);
            let kind_oid = match odb_write_tree(&odb, &kind_body) {
                Ok(o) => o,
                Err(e) => return Err(giterr(e)),
            };
            proof {
                assert(kind_oid@ == kind_tree_oid(gpairs));
            }
            let kind_bytes = g.kind.as_str().as_bytes_vec();
            let kind_oid_bytes = clone_bytes(kind_oid.bytes());
            let ghost kb = kind_bytes@;
            let ghost ko = kind_oid_bytes@;
            let ghost se_pre = schema_entries@;
            schema_entries.push(TreeEntry { name: kind_bytes, oid: kind_oid_bytes });
            proof {
                assert(entry_pairs(schema_entries@) =~= entry_pairs(se_pre).push((kb, ko)));
                assert((kb, ko) == (encode_utf8(m[gi as int].0), kind_tree_oid(m[gi as int].1)));
                assert(m.take(gi + 1) =~= m.take(gi as int).push(m[gi as int]));
                assert(schema_dir_pairs(m.take(gi + 1)) =~= schema_dir_pairs(
                    m.take(gi as int),
                ).push((encode_utf8(m[gi as int].0), kind_tree_oid(m[gi as int].1))));
                assert(entry_pairs(schema_entries@) =~= schema_dir_pairs(m.take(gi + 1)));
            }
            gi = gi + 1;
        }
        proof {
            assert(m.take(self.schema_groups@.len() as int) =~= m);
        }
        let schema_body = build_tree_body(schema_entries, true);
        let schema_oid = match odb_write_tree(&odb, &schema_body) {
            Ok(o) => o,
            Err(e) => return Err(giterr(e)),
        };
        proof {
            assert(schema_oid@ == schema_dir_oid(m));
        }

        let ghost tm = pairs_of(self.tables@);
        let mut table_entries: Vec<TreeEntry> = Vec::new();
        let mut ti: usize = 0;
        proof {
            assert(entry_pairs(table_entries@) =~= json_leaf_pairs(tm.take(0)));
        }
        while ti < self.tables.len()
            invariant
                ti <= self.tables@.len(),
                entry_pairs(table_entries@) == json_leaf_pairs(tm.take(ti as int)),
            decreases self.tables@.len() - ti,
        {
            let e = &self.tables[ti];
            proof {
                assert(blob_wf(self.tables@[ti as int]));
                assert(tm[ti as int] == (e.name@, e.content@));
            }
            let full = e.name.clone().concat(".json");
            let name_bytes = full.as_str().as_bytes_vec();
            let oid_bytes = clone_bytes(e.oid.bytes());
            let ghost nb = name_bytes@;
            let ghost ob = oid_bytes@;
            let ghost te_pre = table_entries@;
            table_entries.push(TreeEntry { name: name_bytes, oid: oid_bytes });
            proof {
                assert(entry_pairs(table_entries@) =~= entry_pairs(te_pre).push((nb, ob)));
                assert((nb, ob) == (
                    encode_utf8(tm[ti as int].0 + ".json"@),
                    blob_oid_of(tm[ti as int].1),
                ));
                assert(tm.take(ti + 1) =~= tm.take(ti as int).push(tm[ti as int]));
                assert(json_leaf_pairs(tm.take(ti + 1)) =~= json_leaf_pairs(tm.take(ti as int)).push(
                    (encode_utf8(tm[ti as int].0 + ".json"@), blob_oid_of(tm[ti as int].1)),
                ));
                assert(entry_pairs(table_entries@) =~= json_leaf_pairs(tm.take(ti + 1)));
            }
            ti = ti + 1;
        }
        proof {
            assert(tm.take(self.tables@.len() as int) =~= tm);
        }
        let table_body = build_tree_body(table_entries, false);
        let table_oid = match odb_write_tree(&odb, &table_body) {
            Ok(o) => o,
            Err(e) => return Err(giterr(e)),
        };
        proof {
            assert(table_oid@ == table_dir_oid(tm));
        }

        let mut root_entries: Vec<TreeEntry> = Vec::new();
        let schema_name = ("schema").as_bytes_vec();
        let schema_oid_bytes = clone_bytes(schema_oid.bytes());
        root_entries.push(TreeEntry { name: schema_name, oid: schema_oid_bytes });
        let table_name = ("table").as_bytes_vec();
        let table_oid_bytes = clone_bytes(table_oid.bytes());
        root_entries.push(TreeEntry { name: table_name, oid: table_oid_bytes });
        proof {
            assert(entry_pairs(root_entries@) =~= seq![
                (encode_utf8("schema"@), schema_dir_oid(m)),
                (encode_utf8("table"@), table_dir_oid(tm)),
            ]);
        }
        let root_body = build_tree_body(root_entries, true);
        let root_oid = match odb_write_tree(&odb, &root_body) {
            Ok(o) => o,
            Err(e) => return Err(giterr(e)),
        };
        proof {
            assert(root_oid@ == export_root_oid(m, tm));
        }
        self.root = Some(root_oid);
        Ok(())
    }
}

impl<'repo> TreeSink<'repo> {
    /// Whether anything was staged.
    pub fn has_content_exec(&self) -> (r: bool)
        ensures
            r == self.has_content(),
    {
        self.schema_groups.len() > 0 || self.tables.len() > 0
    }

    /// Whether the sink was closed: its root tree was assembled.
    pub fn is_closed(&self) -> (r: bool)
        ensures
            r == (self.root_spec() is Some),
    {
        self.root.is_some()
    }
}

/// The view of an optional id.
pub open spec fn oid_opt_view(o: Option<Oid>) -> Option<Seq<u8>> {
    match o {
        Some(p) => Some(p@),
        None => None,
    }
}

/// The commit decision. Tree identity is the authoritative test: with a
/// previous commit, a new commit is made exactly when the new root tree
/// id differs from the previous commit's tree id; on an unborn branch,
/// exactly when the export staged any content at all.
pub open spec fn should_commit(prior: Option<Seq<u8>>, root: Seq<u8>, has_content: bool) -> bool {
    match prior {
        None => has_content,
        Some(p) => p != root,
    }
}

/// What one conditional commit did: whether a commit was created, how
/// many parents it was given, the previous commit's tree id (absent on
/// an unborn branch), the new root tree id, and the computed diff as
/// display material.
pub struct CommitOutcome<'repo> {
    pub committed: bool,
    pub parents: usize,
    pub prior_tree: Option<Oid>,
    pub root: Oid,
    pub diff: git2::Diff<'repo>,
}

/// A bare repository, opened or created at a destination path.
pub struct Repo {
    repo: git2::Repository,
}

impl Repo {
    /// Opens an existing bare repository; a missing one reports the
    /// NotFound kind, the caller's signal to fall back or create.
    pub fn open(path: &str) -> (r: Result<Repo, GitError>) {
        match repo_open_bare(path) {
            Ok(repo) => Ok(Repo { repo }),
            Err(e) => Err(giterr(e)),
        }
    }

    /// Creates a bare repository at the path.
    pub fn create(path: &str) -> (r: Result<Repo, GitError>) {
        match repo_init_bare(path) {
            Ok(repo) => Ok(Repo { repo }),
            Err(e) => Err(giterr(e)),
        }
    }

    /// The underlying git2 repository, for configuration reads.
    pub fn raw(&self) -> &git2::Repository {
        &self.repo
    }

    /// A fresh, empty tree sink for one export into this repository.
    pub fn tree(&self) -> (t: TreeSink<'_>)
        ensures
            t.wf(),
            t.root_spec() is None,
            t.schema_model() == Seq::<(Seq<char>, Seq<(Seq<char>, Seq<u8>)>)>::empty(),
            t.tables_model() == Seq::<(Seq<char>, Seq<u8>)>::empty(),
    {
        TreeSink::new(&self.repo)
    }

    /// Commits the closed sink's root tree if and only if it changes
    /// anything: on an unborn branch, when the export staged content;
    /// otherwise, when the root tree id differs from the previous
    /// commit's tree id. The previous commit, if any, becomes the sole
    /// parent; the branch head is advanced only when a commit is made.
    pub fn commit<'r>(
        &'r self,
        message: &str,
        author_name: &str,
        author_email: &str,
        sink: TreeSink<'r>,
    ) -> (r: Result<CommitOutcome<'r>, GitError>)
        requires
            sink.wf(),
            sink.root_spec() is Some,
        ensures
            r matches Ok(out) ==> {
                &&& out.root@ == sink.root_spec()->0
                &&& out.root.wf()
                &&& out.committed == should_commit(
                    oid_opt_view(out.prior_tree),
                    out.root@,
                    sink.has_content(),
                )
                &&& out.parents == (if out.prior_tree is Some {
                    1usize
                } else {
                    0usize
                })
                &&& (out.prior_tree matches Some(p) ==> p.wf())
            },
    {
        let has = sink.has_content_exec();
        let TreeSink { repo: _, schema_groups: _, tables: _, root } = sink;
        let root = match root {
            Some(o) => o,
            None => vstd::pervasive::unreached(),
        };
        let prior_commit: Option<git2::Commit<'r>> = match repo_head(&self.repo) {
            Ok(head) => match peel_commit(&head) {
                Ok(c) => Some(c),
                Err(e) => return Err(giterr(e)),
            },
            Err(e) => {
                let e = giterr(e);
                if e.kind == GitErrorKind::UnbornBranch {
                    None
                } else {
                    return Err(e);
                }
            },
        };
        let prior_tree: Option<Oid> = match &prior_commit {
            Some(c) => Some(commit_tree_id(c)),
            None => None,
        };
        let changed: bool = match &prior_tree {
            Some(p) => !p.eq_oid(&root),
            None => has,
        };
        let new_tree = match find_tree(&self.repo, &root) {
            Ok(t) => t,
            Err(e) => return Err(giterr(e)),
        };
        let old_tree: Option<git2::Tree<'r>> = match &prior_tree {
            Some(p) => match find_tree(&self.repo, p) {
                Ok(t) => Some(t),
                Err(e) => return Err(giterr(e)),
            },
            None => None,
        };
        let diff = match &old_tree {
            Some(t) => match diff_trees(&self.repo, Some(t), &new_tree) {
                Ok(d) => d,
                Err(e) => return Err(giterr(e)),
            },
            None => match diff_trees(&self.repo, None, &new_tree) {
                Ok(d) => d,
                Err(e) => return Err(giterr(e)),
            },
        };
        let mut parents: usize = 0;
        if prior_commit.is_some() {
            parents = 1;
        }
        if changed {
            let sig = match signature_now(author_name, author_email) {
                Ok(s) => s,
                Err(e) => return Err(giterr(e)),
            };
            let created = match &prior_commit {
                Some(p) => commit_create(&self.repo, "HEAD", &sig, message, &new_tree, Some(p)),
                None => commit_create(&self.repo, "HEAD", &sig, message, &new_tree, None),
            };
            match created {
                Ok(_) => {},
                Err(e) => return Err(giterr(e)),
            }
        }
        Ok(CommitOutcome { committed: changed, parents, prior_tree, root, diff })
    }
}

// ---------------------------------------------------------------------
// Laws of the export.
// ---------------------------------------------------------------------

/// Idempotence of a no-op export: when the previous commit's tree id
/// equals the new root tree id, no commit is made, whatever was staged.
pub proof fn lemma_noop_export_no_commit(root: Seq<u8>, has_content: bool)
    ensures
        !should_commit(Some(root), root, has_content),
{
}

/// A first export (unborn branch) commits exactly when it staged any
/// content; such a commit is given zero parents.
pub proof fn lemma_first_export_commits(root: Seq<u8>, has_content: bool)
    ensures
        should_commit(None, root, has_content) == has_content,
{
}

/// Determinism: the root tree id of an export is a function of the
/// staged schema and table content alone — equal content gives a
/// byte-identical tree id, whatever else differs between two runs.
pub proof fn lemma_export_root_deterministic(
    m1: SchemaModel,
    t1: TablesModel,
    m2: SchemaModel,
    t2: TablesModel,
)
    requires
        m1 == m2,
        t1 == t2,
    ensures
        export_root_oid(m1, t1) == export_root_oid(m2, t2),
{
}

proof fn lemma_map_values_multiset<A, B>(s1: Seq<A>, s2: Seq<A>, f: spec_fn(A) -> B)
    requires
        s1.to_multiset() == s2.to_multiset(),
    ensures
        s1.map_values(f).to_multiset() == s2.map_values(f).to_multiset(),
    decreases s1.len(),
{
    broadcast use vstd::seq_lib::group_to_multiset_ensures;
    broadcast use vstd::multiset::group_multiset_axioms;

    if s1.len() == 0 {
        assert(s1.len() == s1.to_multiset().len());
        assert(s2.len() == s2.to_multiset().len());
        assert(s1.map_values(f) =~= s2.map_values(f));
    } else {
        assert(s1.contains(s1[0]));
        assert(s1.to_multiset().count(s1[0]) > 0);
        assert(s2.to_multiset().count(s1[0]) > 0);
        assert(s2.contains(s1[0]));
        let j = choose|j: int| 0 <= j < s2.len() && s2[j] == s1[0];
        assert(s1.drop_first() =~= s1.remove(0));
        assert(s1.remove(0).to_multiset() =~= s1.to_multiset().remove(s1[0]));
        assert(s2.remove(j).to_multiset() =~= s2.to_multiset().remove(s2[j]));
        assert(s1.drop_first().to_multiset() == s2.remove(j).to_multiset());
        lemma_map_values_multiset(s1.drop_first(), s2.remove(j), f);
        let v = f(s1[0]);
        assert(s1.map_values(f).remove(0) =~= s1.drop_first().map_values(f));
        assert(s2.map_values(f).remove(j) =~= s2.remove(j).map_values(f)) by {
            assert forall|k: int| 0 <= k < s2.map_values(f).remove(j).len() implies
                s2.map_values(f).remove(j)[k] == s2.remove(j).map_values(f)[k] by {
                if k < j {
                    assert(s2.remove(j)[k] == s2[k]);
                } else {
                    assert(s2.remove(j)[k] == s2[k + 1]);
                }
            }
        }
        assert(s1.map_values(f).remove(0).to_multiset() =~= s1.map_values(f).to_multiset().remove(
            s1.map_values(f)[0],
        ));
        assert(s2.map_values(f).remove(j).to_multiset() =~= s2.map_values(f).to_multiset().remove(
            s2.map_values(f)[j],
        ));
        assert(s1.map_values(f)[0] == v);
        assert(s2.map_values(f)[j] == v);
        assert(s1.map_values(f).to_multiset().remove(v) == s2.map_values(f).to_multiset().remove(
            v,
        ));
        assert(s1.map_values(f).to_multiset().count(v) > 0);
        assert(s2.map_values(f).to_multiset().count(v) > 0);
        assert forall|x: B|
            s1.map_values(f).to_multiset().count(x) == s2.map_values(f).to_multiset().count(
                x,
            ) by {
            assert(s1.map_values(f).to_multiset().remove(v).count(x) == s2.map_values(
                f,
            ).to_multiset().remove(v).count(x));
        }
        assert(s1.map_values(f).to_multiset() =~= s2.map_values(f).to_multiset());
    }
}

proof fn lemma_appended_names_injective(a: Seq<char>, b: Seq<char>, suffix: Seq<char>)
    requires
        encode_utf8(a + suffix) == encode_utf8(b + suffix),
    ensures
        a == b,
{
    broadcast use vstd::utf8::encode_utf8_decode_utf8;

    assert(vstd::utf8::decode_utf8(encode_utf8(a + suffix)) == a + suffix);
    assert(vstd::utf8::decode_utf8(encode_utf8(b + suffix)) == b + suffix);
    assert(a + suffix == b + suffix);
    assert(a.len() == b.len());
    assert(a =~= (a + suffix).take(a.len() as int));
    assert(b =~= (b + suffix).take(b.len() as int));
}

proof fn lemma_json_leaf_distinct(t: TablesModel)
    requires
        distinct_names(t),
    ensures
        crate::tree::distinct_entry_names(json_leaf_pairs(t)),
{
    let p = json_leaf_pairs(t);
    assert forall|i: int, j: int| 0 <= i < j < p.len() implies p[i].0 != p[j].0 by {
        assert(p[i].0 == encode_utf8(t[i].0 + ".json"@));
        assert(p[j].0 == encode_utf8(t[j].0 + ".json"@));
        if p[i].0 == p[j].0 {
            lemma_appended_names_injective(t[i].0, t[j].0, ".json"@);
            assert(false);
        }
    }
}

proof fn lemma_sql_leaf_distinct(entries: Seq<(Seq<char>, Seq<u8>)>)
    requires
        distinct_names(entries),
    ensures
        crate::tree::distinct_entry_names(sql_leaf_pairs(entries)),
{
    let p = sql_leaf_pairs(entries);
    assert forall|i: int, j: int| 0 <= i < j < p.len() implies p[i].0 != p[j].0 by {
        assert(p[i].0 == encode_utf8(entries[i].0 + ".sql"@));
        assert(p[j].0 == encode_utf8(entries[j].0 + ".sql"@));
        if p[i].0 == p[j].0 {
            lemma_appended_names_injective(entries[i].0, entries[j].0, ".sql"@);
            assert(false);
        }
    }
}

/// Order independence of the `table/` tree: its id depends only on
/// which (table name, content) entries were staged, never on the order
/// they arrived in.
pub proof fn lemma_table_dir_order_free(t1: TablesModel, t2: TablesModel)
    requires
        t1.to_multiset() == t2.to_multiset(),
        distinct_names(t1),
        distinct_names(t2),
    ensures
        table_dir_oid(t1) == table_dir_oid(t2),
{
    lemma_map_values_multiset(
        t1,
        t2,
        |p: (Seq<char>, Seq<u8>)| (encode_utf8(p.0 + ".json"@), blob_oid_of(p.1)),
    );
    lemma_json_leaf_distinct(t1);
    lemma_json_leaf_distinct(t2);
    crate::tree::lemma_tree_body_order_free(
        mode_blob(),
        json_leaf_pairs(t1),
        json_leaf_pairs(t2),
    );
}

/// Order independence of one kind's subtree: its id depends only on
/// which (name, sql) entries the kind holds, never on their order.
pub proof fn lemma_kind_tree_order_free(
    e1: Seq<(Seq<char>, Seq<u8>)>,
    e2: Seq<(Seq<char>, Seq<u8>)>,
)
    requires
        e1.to_multiset() == e2.to_multiset(),
        distinct_names(e1),
        distinct_names(e2),
    ensures
        kind_tree_oid(e1) == kind_tree_oid(e2),
{
    lemma_map_values_multiset(
        e1,
        e2,
        |p: (Seq<char>, Seq<u8>)| (encode_utf8(p.0 + ".sql"@), blob_oid_of(p.1)),
    );
    lemma_sql_leaf_distinct(e1);
    lemma_sql_leaf_distinct(e2);
    crate::tree::lemma_tree_body_order_free(mode_blob(), sql_leaf_pairs(e1), sql_leaf_pairs(e2));
}

/// Order independence of the whole export: two stagings that hold the
/// same table entries as a set, and whose `schema/` trees list the same
/// (kind, kind-subtree id) entries as a set — which, kind for kind,
/// `lemma_kind_tree_order_free` reduces to holding the same schema
/// entries as a set — produce byte-identical root tree ids, whatever
/// order anything was staged in.
pub proof fn lemma_export_root_order_free(
    m1: SchemaModel,
    t1: TablesModel,
    m2: SchemaModel,
    t2: TablesModel,
)
    requires
        t1.to_multiset() == t2.to_multiset(),
        distinct_names(t1),
        distinct_names(t2),
        schema_dir_pairs(m1).to_multiset() == schema_dir_pairs(m2).to_multiset(),
        crate::tree::distinct_entry_names(schema_dir_pairs(m1)),
        crate::tree::distinct_entry_names(schema_dir_pairs(m2)),
    ensures
        export_root_oid(m1, t1) == export_root_oid(m2, t2),
{
    lemma_table_dir_order_free(t1, t2);
    crate::tree::lemma_tree_body_order_free(
        mode_tree(),
        schema_dir_pairs(m1),
        schema_dir_pairs(m2),
    );
    assert(schema_dir_oid(m1) == schema_dir_oid(m2));
}

/// Schema grouping: two entries sharing a kind but with different names
/// are recorded as two entries of that kind's one shared group, never
/// colliding.
pub proof fn lemma_schema_grouping(
    kind: Seq<char>,
    n1: Seq<char>,
    d1: Seq<u8>,
    n2: Seq<char>,
    d2: Seq<u8>,
)
    requires
        n1 != n2,
    ensures
        ({
            let m = upsert_schema(
                upsert_schema(Seq::<(Seq<char>, Seq<(Seq<char>, Seq<u8>)>)>::empty(), kind, n1, d1),
                kind,
                n2,
                d2,
            );
            m.len() == 1 && m[0].0 == kind && m[0].1 == seq![(n1, d1), (n2, d2)]
        }),
{
    let empty = Seq::<(Seq<char>, Seq<(Seq<char>, Seq<u8>)>)>::empty();
    let m1 = upsert_schema(empty, kind, n1, d1);
    assert(m1 =~= seq![(kind, seq![(n1, d1)])]);
    let m = upsert_schema(m1, kind, n2, d2);
    assert(m1[0].0 == kind);
    let inner = upsert_pairs(seq![(n1, d1)], n2, d2);
    assert(seq![(n1, d1)][0].0 == n1);
    assert(seq![(n1, d1)].drop_first() =~= Seq::<(Seq<char>, Seq<u8>)>::empty());
    assert(upsert_pairs(Seq::<(Seq<char>, Seq<u8>)>::empty(), n2, d2) =~= seq![(n2, d2)]);
    assert(inner =~= seq![(n1, d1), (n2, d2)]);
    assert(m =~= seq![(kind, inner)]);
}

} // verus!
