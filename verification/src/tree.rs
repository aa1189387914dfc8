//! Canonical git tree serialization.
//!
//! A git tree object lists its entries sorted by name; object-store
//! equality of trees depends on that canonical form, so the export
//! sorts every tree it builds. Each entry is laid out as the octal file
//! mode in ASCII, a space, the entry name's bytes, a NUL byte, and the
//! 20 raw bytes of the object id. Every tree this export builds is
//! homogeneous (all blobs or all subtrees), so plain byte order of the
//! names is the canonical order.

use vstd::prelude::*;

verus! {

/// One entry of a tree under construction: the entry name's bytes and
/// the 20 raw bytes of the object id it points to.
pub struct TreeEntry {
    pub name: Vec<u8>,
    pub oid: Vec<u8>,
}

/// The (name, oid) pairs of a sequence of entries.
pub open spec fn entry_pairs(s: Seq<TreeEntry>) -> Seq<(Seq<u8>, Seq<u8>)> {
    s.map_values(|e: TreeEntry| (e.name@, e.oid@))
}

/// Strict byte-lexicographic order.
pub open spec fn lex_lt(a: Seq<u8>, b: Seq<u8>) -> bool
    decreases a.len(),
{
    if b.len() == 0 {
        false
    } else if a.len() == 0 {
        true
    } else if a[0] < b[0] {
        true
    } else if a[0] > b[0] {
        false
    } else {
        lex_lt(a.drop_first(), b.drop_first())
    }
}

/// Inserts a pair in front of the first name it is strictly below.
pub open spec fn insert_sorted(
    e: (Seq<u8>, Seq<u8>),
    s: Seq<(Seq<u8>, Seq<u8>)>,
) -> Seq<(Seq<u8>, Seq<u8>)>
    decreases s.len(),
{
    if s.len() == 0 {
        seq![e]
    } else if lex_lt(e.0, s[0].0) {
        seq![e] + s
    } else {
        seq![s[0]] + insert_sorted(e, s.drop_first())
    }
}

/// Insertion sort of (name, oid) pairs by name.
pub open spec fn sort_pairs(s: Seq<(Seq<u8>, Seq<u8>)>) -> Seq<(Seq<u8>, Seq<u8>)>
    decreases s.len(),
{
    if s.len() == 0 {
        Seq::empty()
    } else {
        insert_sorted(s.last(), sort_pairs(s.drop_last()))
    }
}

/// ASCII `100644`, the regular-file mode of a blob entry.
pub open spec fn mode_blob() -> Seq<u8> {
    seq![49u8, 48u8, 48u8, 54u8, 52u8, 52u8]
}

/// ASCII `40000`, the mode of a subtree entry.
pub open spec fn mode_tree() -> Seq<u8> {
    seq![52u8, 48u8, 48u8, 48u8, 48u8]
}

/// The serialized form of one tree entry.
pub open spec fn ser_entry(mode: Seq<u8>, e: (Seq<u8>, Seq<u8>)) -> Seq<u8> {
    mode + seq![32u8] + e.0 + seq![0u8] + e.1
}

/// The serialized form of a sequence of tree entries.
pub open spec fn ser_entries(mode: Seq<u8>, s: Seq<(Seq<u8>, Seq<u8>)>) -> Seq<u8>
    decreases s.len(),
{
    if s.len() == 0 {
        Seq::empty()
    } else {
        ser_entry(mode, s[0]) + ser_entries(mode, s.drop_first())
    }
}

/// The canonical body of a tree holding the given (name, oid) pairs,
/// all with the same mode: the pairs sorted by name, serialized.
pub open spec fn tree_body(mode: Seq<u8>, pairs: Seq<(Seq<u8>, Seq<u8>)>) -> Seq<u8> {
    ser_entries(mode, sort_pairs(pairs))
}

/// Entries stand in (weak) ascending byte order of their names.
pub open spec fn sorted_by_name(s: Seq<(Seq<u8>, Seq<u8>)>) -> bool {
    forall|i: int, j: int| 0 <= i < j < s.len() ==> !lex_lt(#[trigger] s[j].0, #[trigger] s[i].0)
}

proof fn lemma_lex_lt_asym(a: Seq<u8>, b: Seq<u8>)
    requires
        lex_lt(a, b),
    ensures
        !lex_lt(b, a),
    decreases a.len(),
{
    if a.len() > 0 && b.len() > 0 && a[0] == b[0] {
        lemma_lex_lt_asym(a.drop_first(), b.drop_first());
    }
}

proof fn lemma_lex_lt_trans(a: Seq<u8>, b: Seq<u8>, c: Seq<u8>)
    requires
        lex_lt(a, b),
        lex_lt(b, c),
    ensures
        lex_lt(a, c),
    decreases a.len(),
{
    if a.len() == 0 {
    } else {
        // a, b, c are all non-empty here
        if a[0] == b[0] && b[0] == c[0] {
            lemma_lex_lt_trans(a.drop_first(), b.drop_first(), c.drop_first());
        }
    }
}

spec fn name_below_all(x: Seq<u8>, s: Seq<(Seq<u8>, Seq<u8>)>) -> bool {
    forall|i: int| 0 <= i < s.len() ==> !lex_lt((#[trigger] s[i]).0, x)
}

proof fn lemma_insert_keeps_bound(
    x: Seq<u8>,
    e: (Seq<u8>, Seq<u8>),
    s: Seq<(Seq<u8>, Seq<u8>)>,
)
    requires
        name_below_all(x, s),
        !lex_lt(e.0, x),
    ensures
        name_below_all(x, insert_sorted(e, s)),
    decreases s.len(),
{
    if s.len() == 0 {
    } else if lex_lt(e.0, s[0].0) {
    } else {
        assert(name_below_all(x, s.drop_first()));
        lemma_insert_keeps_bound(x, e, s.drop_first());
    }
}

proof fn lemma_insert_sorted_sorted(e: (Seq<u8>, Seq<u8>), s: Seq<(Seq<u8>, Seq<u8>)>)
    requires
        sorted_by_name(s),
    ensures
        sorted_by_name(insert_sorted(e, s)),
    decreases s.len(),
{
    if s.len() == 0 {
    } else if lex_lt(e.0, s[0].0) {
        let r = seq![e] + s;
        assert forall|i: int, j: int| 0 <= i < j < r.len() implies !lex_lt(r[j].0, r[i].0) by {
            if i == 0 {
                if j == 1 {
                    lemma_lex_lt_asym(e.0, s[0].0);
                } else {
                    if lex_lt(r[j].0, e.0) {
                        lemma_lex_lt_trans(s[j - 1].0, e.0, s[0].0);
                        assert(!lex_lt(s[j - 1].0, s[0].0));
                        assert(false);
                    }
                }
            } else {
                assert(r[i] == s[i - 1] && r[j] == s[j - 1]);
            }
        }
    } else {
        assert(sorted_by_name(s.drop_first()));
        lemma_insert_sorted_sorted(e, s.drop_first());
        assert(name_below_all(s[0].0, s.drop_first()));
        lemma_insert_keeps_bound(s[0].0, e, s.drop_first());
        let t = insert_sorted(e, s.drop_first());
        let r = seq![s[0]] + t;
        assert(insert_sorted(e, s) == r);
        assert forall|i: int, j: int| 0 <= i < j < r.len() implies !lex_lt(r[j].0, r[i].0) by {
            if i == 0 {
                assert(r[j] == t[j - 1]);
                assert(!lex_lt(t[j - 1].0, s[0].0));
            } else {
                assert(r[i] == t[i - 1] && r[j] == t[j - 1]);
            }
        }
    }
}

/// Canonical representation: a built tree lists its entries in byte
/// order of their names, whatever order they were staged in — the
/// property git's object-store equality rests on.
pub proof fn lemma_tree_entries_canonical(pairs: Seq<(Seq<u8>, Seq<u8>)>)
    ensures
        sorted_by_name(sort_pairs(pairs)),
    decreases pairs.len(),
{
    if pairs.len() == 0 {
    } else {
        lemma_tree_entries_canonical(pairs.drop_last());
        lemma_insert_sorted_sorted(pairs.last(), sort_pairs(pairs.drop_last()));
    }
}

/// Entry names are pairwise distinct.
pub open spec fn distinct_entry_names(s: Seq<(Seq<u8>, Seq<u8>)>) -> bool {
    forall|i: int, j: int|
        0 <= i < j < s.len() ==> (#[trigger] s[i]).0 != (#[trigger] s[j]).0
}

/// Whether some entry carries the name.
pub open spec fn entries_have_name(s: Seq<(Seq<u8>, Seq<u8>)>, n: Seq<u8>) -> bool {
    exists|i: int| 0 <= i < s.len() && (#[trigger] s[i]).0 == n
}

proof fn lemma_lex_trichotomy(a: Seq<u8>, b: Seq<u8>)
    ensures
        lex_lt(a, b) || lex_lt(b, a) || a == b,
    decreases a.len(),
{
    if a.len() == 0 && b.len() == 0 {
        assert(a =~= b);
    } else if a.len() > 0 && b.len() > 0 && a[0] == b[0] {
        lemma_lex_trichotomy(a.drop_first(), b.drop_first());
        if a.drop_first() == b.drop_first() {
            assert(a.drop_first().len() == a.len() - 1);
            assert(b.drop_first().len() == b.len() - 1);
            assert(a.len() == b.len());
            assert forall|i: int| 0 <= i < a.len() implies a[i] == b[i] by {
                if i > 0 {
                    assert(a[i] == a.drop_first()[i - 1]);
                    assert(b[i] == b.drop_first()[i - 1]);
                }
            }
            assert(a =~= b);
        }
    }
}

proof fn lemma_insert_sorted_multiset(e: (Seq<u8>, Seq<u8>), s: Seq<(Seq<u8>, Seq<u8>)>)
    ensures
        insert_sorted(e, s).to_multiset() == s.to_multiset().insert(e),
    decreases s.len(),
{
    broadcast use vstd::seq_lib::group_to_multiset_ensures;
    broadcast use vstd::seq_lib::to_multiset_insert;
    broadcast use vstd::multiset::group_multiset_axioms;

    if s.len() == 0 {
        assert(insert_sorted(e, s) =~= s.push(e));
    } else if lex_lt(e.0, s[0].0) {
        assert(insert_sorted(e, s) =~= s.insert(0, e));
    } else {
        let t = insert_sorted(e, s.drop_first());
        lemma_insert_sorted_multiset(e, s.drop_first());
        assert(insert_sorted(e, s) =~= t.insert(0, s[0]));
        assert(s =~= s.drop_first().insert(0, s[0]));
        assert(s.drop_first().to_multiset().insert(e).insert(s[0])
            =~= s.drop_first().to_multiset().insert(s[0]).insert(e));
        assert(insert_sorted(e, s).to_multiset() =~= s.to_multiset().insert(e));
    }
}

proof fn lemma_sort_pairs_multiset(s: Seq<(Seq<u8>, Seq<u8>)>)
    ensures
        sort_pairs(s).to_multiset() == s.to_multiset(),
    decreases s.len(),
{
    broadcast use vstd::seq_lib::group_to_multiset_ensures;

    if s.len() == 0 {
    } else {
        lemma_sort_pairs_multiset(s.drop_last());
        lemma_insert_sorted_multiset(s.last(), sort_pairs(s.drop_last()));
        assert(s =~= s.drop_last().push(s.last()));
    }
}

proof fn lemma_insert_sorted_names(e: (Seq<u8>, Seq<u8>), s: Seq<(Seq<u8>, Seq<u8>)>, n: Seq<u8>)
    ensures
        entries_have_name(insert_sorted(e, s), n) <==> (entries_have_name(s, n) || n == e.0),
    decreases s.len(),
{
    let r = insert_sorted(e, s);
    if s.len() == 0 {
        if entries_have_name(r, n) {
            let i = choose|i: int| 0 <= i < r.len() && (#[trigger] r[i]).0 == n;
            assert(r[i] == e);
        }
        if n == e.0 {
            assert(r[0].0 == n);
        }
    } else if lex_lt(e.0, s[0].0) {
        assert(r == seq![e] + s);
        if entries_have_name(r, n) {
            let i = choose|i: int| 0 <= i < r.len() && (#[trigger] r[i]).0 == n;
            if i > 0 {
                assert(s[i - 1].0 == n);
            }
        }
        if entries_have_name(s, n) {
            let i = choose|i: int| 0 <= i < s.len() && (#[trigger] s[i]).0 == n;
            assert(r[i + 1].0 == n);
        }
        if n == e.0 {
            assert(r[0].0 == n);
        }
    } else {
        let t = insert_sorted(e, s.drop_first());
        lemma_insert_sorted_names(e, s.drop_first(), n);
        assert(r == seq![s[0]] + t);
        if entries_have_name(r, n) {
            let i = choose|i: int| 0 <= i < r.len() && (#[trigger] r[i]).0 == n;
            if i == 0 {
                assert(s[0].0 == n);
            } else {
                assert(t[i - 1].0 == n);
                assert(entries_have_name(t, n));
                if entries_have_name(s.drop_first(), n) {
                    let j = choose|j: int|
                        0 <= j < s.drop_first().len() && (#[trigger] s.drop_first()[j]).0 == n;
                    assert(s[j + 1].0 == n);
                }
            }
        }
        if entries_have_name(s, n) {
            let i = choose|i: int| 0 <= i < s.len() && (#[trigger] s[i]).0 == n;
            if i == 0 {
                assert(r[0].0 == n);
            } else {
                assert(s.drop_first()[i - 1] == s[i]);
                assert(entries_have_name(s.drop_first(), n));
                assert(entries_have_name(t, n));
                let j = choose|j: int| 0 <= j < t.len() && (#[trigger] t[j]).0 == n;
                assert(r[j + 1].0 == n);
            }
        }
        if n == e.0 {
            assert(entries_have_name(t, n));
            let j = choose|j: int| 0 <= j < t.len() && (#[trigger] t[j]).0 == n;
            assert(r[j + 1].0 == n);
        }
    }
}

proof fn lemma_insert_sorted_distinct(e: (Seq<u8>, Seq<u8>), s: Seq<(Seq<u8>, Seq<u8>)>)
    requires
        distinct_entry_names(s),
        !entries_have_name(s, e.0),
    ensures
        distinct_entry_names(insert_sorted(e, s)),
    decreases s.len(),
{
    let r = insert_sorted(e, s);
    if s.len() == 0 {
    } else if lex_lt(e.0, s[0].0) {
        assert(r == seq![e] + s);
        assert forall|i: int, j: int| 0 <= i < j < r.len() implies r[i].0 != r[j].0 by {
            if i == 0 {
                assert(r[j] == s[j - 1]);
                if e.0 == s[j - 1].0 {
                    assert(entries_have_name(s, e.0));
                }
            } else {
                assert(r[i] == s[i - 1] && r[j] == s[j - 1]);
            }
        }
    } else {
        assert(distinct_entry_names(s.drop_first()));
        assert(!entries_have_name(s.drop_first(), e.0)) by {
            if entries_have_name(s.drop_first(), e.0) {
                let k = choose|k: int|
                    0 <= k < s.drop_first().len() && (#[trigger] s.drop_first()[k]).0 == e.0;
                assert(s[k + 1].0 == e.0);
                assert(entries_have_name(s, e.0));
            }
        }
        lemma_insert_sorted_distinct(e, s.drop_first());
        let t = insert_sorted(e, s.drop_first());
        assert(r == seq![s[0]] + t);
        assert forall|i: int, j: int| 0 <= i < j < r.len() implies r[i].0 != r[j].0 by {
            if i == 0 {
                assert(r[j] == t[j - 1]);
                if s[0].0 == t[j - 1].0 {
                    assert(entries_have_name(t, s[0].0));
                    lemma_insert_sorted_names(e, s.drop_first(), s[0].0);
                    if s[0].0 == e.0 {
                        assert(s[0].0 == e.0 && !entries_have_name(s, e.0));
                        assert(false);
                    } else {
                        let k = choose|k: int|
                            0 <= k < s.drop_first().len() && (#[trigger] s.drop_first()[k]).0
                                == s[0].0;
                        assert(s[k + 1].0 == s[0].0);
                        assert(false);
                    }
                }
            } else {
                assert(r[i] == t[i - 1] && r[j] == t[j - 1]);
            }
        }
    }
}

proof fn lemma_sort_pairs_names(s: Seq<(Seq<u8>, Seq<u8>)>, n: Seq<u8>)
    ensures
        entries_have_name(sort_pairs(s), n) <==> entries_have_name(s, n),
    decreases s.len(),
{
    if s.len() == 0 {
    } else {
        lemma_sort_pairs_names(s.drop_last(), n);
        lemma_insert_sorted_names(s.last(), sort_pairs(s.drop_last()), n);
        if entries_have_name(s, n) {
            let i = choose|i: int| 0 <= i < s.len() && (#[trigger] s[i]).0 == n;
            if i == s.len() - 1 {
                assert(n == s.last().0);
            } else {
                assert(s.drop_last()[i] == s[i]);
                assert(entries_have_name(s.drop_last(), n));
            }
        }
        if entries_have_name(s.drop_last(), n) {
            let i = choose|i: int|
                0 <= i < s.drop_last().len() && (#[trigger] s.drop_last()[i]).0 == n;
            assert(s[i].0 == n);
            assert(entries_have_name(s, n));
        }
        if n == s.last().0 {
            assert(entries_have_name(s, n));
        }
    }
}

proof fn lemma_sort_pairs_distinct(s: Seq<(Seq<u8>, Seq<u8>)>)
    requires
        distinct_entry_names(s),
    ensures
        distinct_entry_names(sort_pairs(s)),
    decreases s.len(),
{
    if s.len() == 0 {
    } else {
        assert(distinct_entry_names(s.drop_last())) by {
            assert(forall|i: int|
                0 <= i < s.drop_last().len() ==> s.drop_last()[i] == s[i]);
        }
        lemma_sort_pairs_distinct(s.drop_last());
        assert(!entries_have_name(s.drop_last(), s.last().0)) by {
            if entries_have_name(s.drop_last(), s.last().0) {
                let k = choose|k: int|
                    0 <= k < s.drop_last().len() && (#[trigger] s.drop_last()[k]).0
                        == s.last().0;
                assert(s[k].0 == s[s.len() - 1].0);
                assert(false);
            }
        }
        assert(!entries_have_name(sort_pairs(s.drop_last()), s.last().0)) by {
            lemma_sort_pairs_names(s.drop_last(), s.last().0);
        }
        lemma_insert_sorted_distinct(s.last(), sort_pairs(s.drop_last()));
    }
}

proof fn lemma_sorted_distinct_unique(x: Seq<(Seq<u8>, Seq<u8>)>, y: Seq<(Seq<u8>, Seq<u8>)>)
    requires
        sorted_by_name(x),
        sorted_by_name(y),
        distinct_entry_names(x),
        distinct_entry_names(y),
        x.to_multiset() == y.to_multiset(),
    ensures
        x == y,
    decreases x.len(),
{
    broadcast use vstd::seq_lib::group_to_multiset_ensures;

    if x.len() == 0 {
        assert(x.len() == x.to_multiset().len());
        assert(y.len() == y.to_multiset().len());
        assert(y.len() == 0);
        assert(x =~= y);
    } else {
        assert(x.len() == x.to_multiset().len());
        assert(y.len() == y.to_multiset().len());
        assert(y.len() == x.len());
        assert(y.contains(y[0]));
        assert(y.to_multiset().count(y[0]) > 0);
        assert(x.to_multiset().count(y[0]) > 0);
        assert(x.contains(y[0]));
        let i = choose|i: int| 0 <= i < x.len() && x[i] == y[0];
        assert(x.contains(x[0]));
        assert(x.to_multiset().count(x[0]) > 0);
        assert(y.to_multiset().count(x[0]) > 0);
        assert(y.contains(x[0]));
        let j = choose|j: int| 0 <= j < y.len() && y[j] == x[0];
        if i > 0 && j > 0 {
            assert(x[0].0 != x[i].0);
            assert(!lex_lt(x[i].0, x[0].0));
            lemma_lex_trichotomy(x[0].0, x[i].0);
            assert(lex_lt(x[0].0, y[0].0));
            assert(y[0].0 != y[j].0);
            assert(!lex_lt(y[j].0, y[0].0));
            lemma_lex_trichotomy(y[0].0, y[j].0);
            assert(lex_lt(y[0].0, x[0].0));
            lemma_lex_lt_asym(x[0].0, y[0].0);
            assert(false);
        }
        assert(x[0] == y[0]);
        assert(x.drop_first() =~= x.remove(0));
        assert(y.drop_first() =~= y.remove(0));
        assert(x.remove(0).to_multiset() =~= x.to_multiset().remove(x[0]));
        assert(y.remove(0).to_multiset() =~= y.to_multiset().remove(y[0]));
        assert(x.drop_first().to_multiset() =~= x.to_multiset().remove(x[0]));
        assert(y.drop_first().to_multiset() =~= y.to_multiset().remove(y[0]));
        assert(sorted_by_name(x.drop_first())) by {
            assert(forall|k: int|
                0 <= k < x.drop_first().len() ==> x.drop_first()[k] == x[k + 1]);
        }
        assert(sorted_by_name(y.drop_first())) by {
            assert(forall|k: int|
                0 <= k < y.drop_first().len() ==> y.drop_first()[k] == y[k + 1]);
        }
        assert(distinct_entry_names(x.drop_first()));
        assert(distinct_entry_names(y.drop_first()));
        lemma_sorted_distinct_unique(x.drop_first(), y.drop_first());
        assert forall|k: int| 0 <= k < x.len() implies x[k] == y[k] by {
            if k > 0 {
                assert(x[k] == x.drop_first()[k - 1]);
                assert(y[k] == y.drop_first()[k - 1]);
            }
        }
        assert(x =~= y);
    }
}

/// Order independence: a tree's canonical body — and so its object
/// id — depends only on which (name, oid) entries it holds, never on
/// the order they were staged in.
pub proof fn lemma_tree_body_order_free(
    mode: Seq<u8>,
    p1: Seq<(Seq<u8>, Seq<u8>)>,
    p2: Seq<(Seq<u8>, Seq<u8>)>,
)
    requires
        p1.to_multiset() == p2.to_multiset(),
        distinct_entry_names(p1),
        distinct_entry_names(p2),
    ensures
        tree_body(mode, p1) == tree_body(mode, p2),
{
    lemma_sort_pairs_multiset(p1);
    lemma_sort_pairs_multiset(p2);
    lemma_tree_entries_canonical(p1);
    lemma_tree_entries_canonical(p2);
    lemma_sort_pairs_distinct(p1);
    lemma_sort_pairs_distinct(p2);
    lemma_sorted_distinct_unique(sort_pairs(p1), sort_pairs(p2));
}

fn lex_lt_exec(a: &Vec<u8>, b: &Vec<u8>) -> (r: bool)
    ensures
        r == lex_lt(a@, b@),
{
    let mut i: usize = 0;
    proof {
        assert(a@.skip(0) =~= a@);
        assert(b@.skip(0) =~= b@);
    }
    loop
        invariant
            i <= a@.len(),
            i <= b@.len(),
            lex_lt(a@, b@) == lex_lt(a@.skip(i as int), b@.skip(i as int)),
        decreases a@.len() - i,
    {
        if i == b.len() {
            return false;
        }
        if i == a.len() {
            return true;
        }
        let x = a[i];
        let y = b[i];
        if x < y {
            return true;
        }
        if x > y {
            return false;
        }
        proof {
            assert(a@.skip(i as int)[0] == b@.skip(i as int)[0]);
            assert(a@.skip(i as int).drop_first() =~= a@.skip(i + 1));
            assert(b@.skip(i as int).drop_first() =~= b@.skip(i + 1));
        }
        i = i + 1;
    }
}

proof fn lemma_insert_at(e: (Seq<u8>, Seq<u8>), s: Seq<(Seq<u8>, Seq<u8>)>, j: int)
    requires
        0 <= j <= s.len(),
        forall|k: int| 0 <= k < j ==> !lex_lt(e.0, #[trigger] s[k].0),
        j < s.len() ==> lex_lt(e.0, s[j].0),
    ensures
        insert_sorted(e, s) == s.take(j) + seq![e] + s.skip(j),
    decreases j,
{
    if s.len() == 0 {
        assert(insert_sorted(e, s) =~= s.take(j) + seq![e] + s.skip(j));
    } else if j == 0 {
        assert(insert_sorted(e, s) =~= s.take(0) + seq![e] + s.skip(0));
    } else {
        assert(!lex_lt(e.0, s[0].0));
        lemma_insert_at(e, s.drop_first(), j - 1);
        assert(s.drop_first().take(j - 1) =~= s.take(j).drop_first());
        assert(s.drop_first().skip(j - 1) =~= s.skip(j));
        assert(seq![s[0]] + (s.drop_first().take(j - 1) + seq![e] + s.drop_first().skip(j - 1))
            =~= s.take(j) + seq![e] + s.skip(j));
    }
}

fn insert_entry(entries: &mut Vec<TreeEntry>, e: TreeEntry)
    ensures
        entry_pairs(final(entries)@) == insert_sorted((e.name@, e.oid@), entry_pairs(old(entries)@)),
{
    let ghost pairs = entry_pairs(entries@);
    let mut j: usize = 0;
    loop
        invariant
            j <= entries@.len(),
            pairs == entry_pairs(entries@),
            forall|k: int| 0 <= k < j ==> !lex_lt(e.name@, #[trigger] pairs[k].0),
        ensures
            j <= entries@.len(),
            forall|k: int| 0 <= k < j ==> !lex_lt(e.name@, #[trigger] pairs[k].0),
            j < entries@.len() ==> lex_lt(e.name@, pairs[j as int].0),
        decreases entries@.len() - j,
    {
        if j == entries.len() {
            break;
        }
        if lex_lt_exec(&e.name, &entries[j].name) {
            break;
        }
        assert(pairs[j as int].0 == entries@[j as int].name@);
        j = j + 1;
    }
    proof {
        lemma_insert_at((e.name@, e.oid@), pairs, j as int);
    }
    let ghost ename = e.name@;
    let ghost eoid = e.oid@;
    entries.insert(j, e);
    proof {
        assert(entry_pairs(entries@) =~= pairs.take(j as int) + seq![(ename, eoid)] + pairs.skip(
            j as int,
        ));
    }
}

/// Sorts entries into canonical name order.
pub fn sort_entries(entries: Vec<TreeEntry>) -> (r: Vec<TreeEntry>)
    ensures
        entry_pairs(r@) == sort_pairs(entry_pairs(entries@)),
{
    let ghost pairs = entry_pairs(entries@);
    let mut out: Vec<TreeEntry> = Vec::new();
    let mut rest = entries;
    let mut i: usize = 0;
    proof {
        assert(entry_pairs(out@) =~= sort_pairs(pairs.take(0)));
    }
    while i < rest.len()
        invariant
            i <= rest@.len(),
            pairs == entry_pairs(rest@),
            entry_pairs(out@) == sort_pairs(pairs.take(i as int)),
        decreases rest@.len() - i,
    {
        let name = clone_bytes(&rest[i].name);
        let oid = clone_bytes(&rest[i].oid);
        let e = TreeEntry { name, oid };
        insert_entry(&mut out, e);
        proof {
            assert(pairs.take(i + 1).drop_last() =~= pairs.take(i as int));
            assert(pairs.take(i + 1).last() == (rest@[i as int].name@, rest@[i as int].oid@));
            assert(sort_pairs(pairs.take(i + 1)) == insert_sorted(
                (rest@[i as int].name@, rest@[i as int].oid@),
                sort_pairs(pairs.take(i as int)),
            ));
        }
        i = i + 1;
    }
    proof {
        assert(pairs.take(rest@.len() as int) =~= pairs);
    }
    out
}

/// Copies a byte vector.
pub fn clone_bytes(v: &Vec<u8>) -> (r: Vec<u8>)
    ensures
        r@ == v@,
{
    let mut out: Vec<u8> = Vec::new();
    let mut i: usize = 0;
    while i < v.len()
        invariant
            i <= v@.len(),
            out@ == v@.take(i as int),
        decreases v@.len() - i,
    {
        out.push(v[i]);
        assert(v@.take(i + 1) =~= v@.take(i as int).push(v@[i as int]));
        i = i + 1;
    }
    assert(v@.take(v@.len() as int) =~= v@);
    out
}

proof fn lemma_ser_entries_push(mode: Seq<u8>, s: Seq<(Seq<u8>, Seq<u8>)>, e: (Seq<u8>, Seq<u8>))
    ensures
        ser_entries(mode, s.push(e)) == ser_entries(mode, s) + ser_entry(mode, e),
    decreases s.len(),
{
    if s.len() == 0 {
        assert(s.push(e) =~= seq![e]);
        assert(seq![e].drop_first() =~= Seq::<(Seq<u8>, Seq<u8>)>::empty());
        assert(ser_entries(mode, seq![e]) == ser_entry(mode, seq![e][0]) + ser_entries(
            mode,
            seq![e].drop_first(),
        ));
        assert(ser_entries(mode, Seq::<(Seq<u8>, Seq<u8>)>::empty()) == Seq::<u8>::empty());
        assert(ser_entries(mode, s.push(e)) =~= ser_entry(mode, e));
        assert(ser_entries(mode, s) + ser_entry(mode, e) =~= ser_entry(mode, e));
    } else {
        assert(s.push(e).drop_first() =~= s.drop_first().push(e));
        lemma_ser_entries_push(mode, s.drop_first(), e);
        assert(ser_entries(mode, s.push(e)) =~= ser_entries(mode, s) + ser_entry(mode, e));
    }
}

fn push_mode(tree_mode: bool, out: &mut Vec<u8>)
    ensures
        tree_mode ==> final(out)@ == old(out)@ + mode_tree(),
        !tree_mode ==> final(out)@ == old(out)@ + mode_blob(),
{
    if tree_mode {
        out.push(52u8);
        out.push(48u8);
        out.push(48u8);
        out.push(48u8);
        out.push(48u8);
        assert(out@ =~= old(out)@ + mode_tree());
    } else {
        out.push(49u8);
        out.push(48u8);
        out.push(48u8);
        out.push(54u8);
        out.push(52u8);
        out.push(52u8);
        assert(out@ =~= old(out)@ + mode_blob());
    }
}

/// Serializes already-staged entries into a canonical tree body: the
/// entries sorted by name, each as mode, space, name, NUL, oid bytes.
#[verifier::loop_isolation(false)]
pub fn build_tree_body(entries: Vec<TreeEntry>, tree_mode: bool) -> (body: Vec<u8>)
    ensures
        body@ == tree_body(
            if tree_mode {
                mode_tree()
            } else {
                mode_blob()
            },
            entry_pairs(entries@),
        ),
{
    let ghost mode = if tree_mode { mode_tree() } else { mode_blob() };
    let sorted = sort_entries(entries);
    let ghost spairs = entry_pairs(sorted@);
    let mut out: Vec<u8> = Vec::new();
    let mut i: usize = 0;
    proof {
        assert(out@ =~= ser_entries(mode, spairs.take(0)));
    }
    while i < sorted.len()
        invariant
            i <= sorted@.len(),
            spairs == entry_pairs(sorted@),
            out@ == ser_entries(mode, spairs.take(i as int)),
        decreases sorted@.len() - i,
    {
        let ghost out_pre = out@;
        push_mode(tree_mode, &mut out);
        proof {
            assert(out@ == out_pre + mode);
        }
        out.push(32u8);
        let e = &sorted[i];
        let mut k: usize = 0;
        proof {
            assert(out@ == (out_pre + mode).push(32u8));
            assert(out@ =~= out_pre + mode + seq![32u8]);
            assert(e.name@.take(0) =~= Seq::<u8>::empty());
            assert(out@ =~= ser_entries(mode, spairs.take(i as int)) + mode + seq![32u8]
                + e.name@.take(0));
        }
        while k < e.name.len()
            invariant
                k <= e.name@.len(),
                out@ == ser_entries(mode, spairs.take(i as int)) + mode + seq![32u8]
                    + e.name@.take(k as int),
                i < sorted@.len(),
                e == sorted@[i as int],
                spairs == entry_pairs(sorted@),
            decreases e.name@.len() - k,
        {
            out.push(e.name[k]);
            assert(e.name@.take(k + 1) =~= e.name@.take(k as int).push(e.name@[k as int]));
            k = k + 1;
        }
        assert(e.name@.take(e.name@.len() as int) =~= e.name@);
        out.push(0u8);
        let mut k2: usize = 0;
        proof {
            assert(e.oid@.take(0) =~= Seq::<u8>::empty());
            assert(out@ =~= ser_entries(mode, spairs.take(i as int)) + mode + seq![32u8] + e.name@
                + seq![0u8] + e.oid@.take(0));
        }
        while k2 < e.oid.len()
            invariant
                k2 <= e.oid@.len(),
                out@ == ser_entries(mode, spairs.take(i as int)) + mode + seq![32u8] + e.name@
                    + seq![0u8] + e.oid@.take(k2 as int),
                i < sorted@.len(),
                e == sorted@[i as int],
                spairs == entry_pairs(sorted@),
            decreases e.oid@.len() - k2,
        {
            out.push(e.oid[k2]);
            assert(e.oid@.take(k2 + 1) =~= e.oid@.take(k2 as int).push(e.oid@[k2 as int]));
            k2 = k2 + 1;
        }
        assert(e.oid@.take(e.oid@.len() as int) =~= e.oid@);
        proof {
            assert(spairs[i as int] == (e.name@, e.oid@));
            lemma_ser_entries_push(mode, spairs.take(i as int), spairs[i as int]);
            assert(spairs.take(i + 1) =~= spairs.take(i as int).push(spairs[i as int]));
            assert(out@ =~= ser_entries(mode, spairs.take(i as int)) + ser_entry(
                mode,
                spairs[i as int],
            ));
        }
        i = i + 1;
    }
    proof {
        assert(spairs.take(sorted@.len() as int) =~= spairs);
    }
    out
}

} // verus!
