//! The mathematical model of a parsed document tree and of a populated store.
//!
//! A `Node` is the specification-level form of a tree value: tables and arrays
//! carry sequences, strings are character sequences, and a float is carried as
//! the bits of its machine representation together with its decimal text. A
//! populated store is modelled two ways: as the ordered sequence of its
//! entries, and as the map obtained by applying those entries in order.

use vstd::prelude::*;
use vstd::map::*;

verus! {

/// Specification-level form of one tree value.
#[verifier::ext_equal]
pub enum Node {
    Str(Seq<char>),
    Int(i64),
    /// The bits of the machine float, and its decimal text.
    Float(u64, Seq<char>),
    Bool(bool),
    Datetime(Seq<char>),
    Array(Seq<Node>),
    Table(Seq<(Seq<char>, Node)>),
}

impl Node {
    /// A scalar is anything that is neither a table nor an array.
    pub open spec fn is_scalar(self) -> bool {
        !(self is Table) && !(self is Array)
    }
}

/// No two entries share a key.
pub open spec fn unique_keys(es: Seq<(Seq<char>, Node)>) -> bool {
    forall|i: int, j: int| 0 <= i < j < es.len() ==> es[i].0 != es[j].0
}

/// Some entry carries the key `k`.
pub open spec fn has_entry_key(es: Seq<(Seq<char>, Node)>, k: Seq<char>) -> bool {
    exists|i: int| 0 <= i < es.len() && es[i].0 == k
}

/// Apply the entries to a map, in order: a later entry overwrites an earlier
/// one with the same key.
pub open spec fn apply_entries(
    m: Map<Seq<char>, Node>,
    es: Seq<(Seq<char>, Node)>,
) -> Map<Seq<char>, Node>
    decreases es.len(),
{
    if es.len() == 0 {
        m
    } else {
        apply_entries(m.insert(es[0].0, es[0].1), es.drop_first())
    }
}

/// The map that an entry sequence denotes.
pub open spec fn entries_map(es: Seq<(Seq<char>, Node)>) -> Map<Seq<char>, Node> {
    apply_entries(Map::empty(), es)
}

/// Applying a concatenation applies the two parts in order.
pub proof fn lemma_apply_entries_app(
    m: Map<Seq<char>, Node>,
    a: Seq<(Seq<char>, Node)>,
    b: Seq<(Seq<char>, Node)>,
)
    ensures
        apply_entries(m, a + b) == apply_entries(apply_entries(m, a), b),
    decreases a.len(),
{
    if a.len() == 0 {
        assert(a + b =~= b);
    } else {
        assert((a + b)[0] == a[0]);
        assert((a + b).drop_first() =~= a.drop_first() + b);
        lemma_apply_entries_app(m.insert(a[0].0, a[0].1), a.drop_first(), b);
    }
}

/// What applying entries does to one key: the key is present afterwards iff it
/// was present before or some entry carries it, a key no entry carries keeps
/// its old value, and under unique keys the entry that carries it decides its
/// value.
pub proof fn lemma_apply_entries_lookup(
    m: Map<Seq<char>, Node>,
    es: Seq<(Seq<char>, Node)>,
    k: Seq<char>,
)
    ensures
        apply_entries(m, es).contains_key(k) <==> (m.contains_key(k) || has_entry_key(es, k)),
        !has_entry_key(es, k) && m.contains_key(k) ==> apply_entries(m, es)[k] == m[k],
        forall|i: int|
            0 <= i < es.len() && es[i].0 == k && unique_keys(es) ==> apply_entries(m, es)[k]
                == es[i].1,
    decreases es.len(),
{
    if es.len() > 0 {
        let m1 = m.insert(es[0].0, es[0].1);
        let rest = es.drop_first();
        lemma_apply_entries_lookup(m1, rest, k);
        assert(has_entry_key(es, k) <==> (es[0].0 == k || has_entry_key(rest, k))) by {
            if has_entry_key(es, k) {
                let i = choose|i: int| 0 <= i < es.len() && es[i].0 == k;
                if i > 0 {
                    assert(rest[i - 1].0 == k);
                }
            }
            if has_entry_key(rest, k) {
                let i = choose|i: int| 0 <= i < rest.len() && rest[i].0 == k;
                assert(es[i + 1].0 == k);
            }
        }
        assert forall|i: int|
            0 <= i < es.len() && es[i].0 == k && unique_keys(es) implies apply_entries(m, es)[k]
            == es[i].1 by {
            assert(unique_keys(rest)) by {
                assert(forall|p: int, q: int|
                    0 <= p < q < rest.len() ==> rest[p] == es[p + 1] && rest[q] == es[q + 1]);
            }
            if i == 0 {
                if has_entry_key(rest, k) {
                    let j = choose|j: int| 0 <= j < rest.len() && rest[j].0 == k;
                    assert(es[j + 1].0 == es[0].0);
                    assert(false);
                }
                assert(m1.contains_key(k) && m1[k] == es[0].1);
            } else {
                assert(rest[i - 1].0 == k && rest[i - 1].1 == es[i].1);
            }
        }
    }
}

/// Entry sequences with unique keys that carry the same key-value pairs denote
/// the same map; stated here through the characterization of membership and
/// value that the two preceding properties give.
pub proof fn lemma_entries_map_char(es: Seq<(Seq<char>, Node)>, k: Seq<char>)
    ensures
        entries_map(es).contains_key(k) <==> has_entry_key(es, k),
        forall|i: int|
            0 <= i < es.len() && es[i].0 == k && unique_keys(es) ==> entries_map(es)[k]
                == es[i].1,
{
    lemma_apply_entries_lookup(Map::empty(), es, k);
}

/// Replacing the entry that carries `k` in place denotes the map insertion.
pub proof fn lemma_entries_map_update(es: Seq<(Seq<char>, Node)>, i: int, k: Seq<char>, v: Node)
    requires
        unique_keys(es),
        0 <= i < es.len(),
        es[i].0 == k,
    ensures
        unique_keys(es.update(i, (k, v))),
        entries_map(es.update(i, (k, v))) == entries_map(es).insert(k, v),
{
    let es2 = es.update(i, (k, v));
    assert(unique_keys(es2)) by {
        assert(forall|p: int| 0 <= p < es.len() && p != i ==> es2[p] == es[p]);
    }
    let m1 = entries_map(es2);
    let m2 = entries_map(es).insert(k, v);
    assert forall|k2: Seq<char>| #[trigger] m1.contains_key(k2) <==> m2.contains_key(k2) by {
        lemma_entries_map_char(es, k2);
        lemma_entries_map_char(es2, k2);
        assert(has_entry_key(es, k2) <==> has_entry_key(es2, k2)) by {
            if has_entry_key(es, k2) {
                let p = choose|p: int| 0 <= p < es.len() && es[p].0 == k2;
                if p == i {
                    assert(es2[i].0 == k2);
                } else {
                    assert(es2[p].0 == k2);
                }
            }
            if has_entry_key(es2, k2) {
                let p = choose|p: int| 0 <= p < es2.len() && es2[p].0 == k2;
                if p == i {
                    assert(es[i].0 == k2);
                } else {
                    assert(es[p].0 == k2);
                }
            }
        }
    }
    assert forall|k2: Seq<char>| m1.contains_key(k2) implies m1[k2] == m2[k2] by {
        lemma_entries_map_char(es, k2);
        lemma_entries_map_char(es2, k2);
        if k2 == k {
            assert(es2[i].0 == k2);
        } else {
            let p = choose|p: int| 0 <= p < es2.len() && es2[p].0 == k2;
            assert(p != i);
            assert(es[p].0 == k2 && es[p].1 == es2[p].1);
        }
    }
    assert(m1 =~= m2);
}

/// Appending an entry denotes inserting it into the map, whatever the keys.
pub proof fn lemma_entries_map_snoc(es: Seq<(Seq<char>, Node)>, k: Seq<char>, v: Node)
    ensures
        entries_map(es.push((k, v))) == entries_map(es).insert(k, v),
{
    let s1 = seq![(k, v)];
    assert(es.push((k, v)) =~= es + s1);
    lemma_apply_entries_app(Map::empty(), es, s1);
    assert(s1.len() == 1 && s1[0] == (k, v));
    assert(s1.drop_first() =~= Seq::<(Seq<char>, Node)>::empty());
    assert(apply_entries(entries_map(es), s1) == apply_entries(
        entries_map(es).insert(k, v),
        s1.drop_first(),
    ));
}

/// Appending an entry with a fresh key denotes the map insertion.
pub proof fn lemma_entries_map_push(es: Seq<(Seq<char>, Node)>, k: Seq<char>, v: Node)
    requires
        unique_keys(es),
        !has_entry_key(es, k),
    ensures
        unique_keys(es.push((k, v))),
        entries_map(es.push((k, v))) == entries_map(es).insert(k, v),
{
    let es2 = es.push((k, v));
    assert(unique_keys(es2)) by {
        assert(forall|p: int| 0 <= p < es.len() ==> es2[p] == es[p]);
        assert(forall|p: int| 0 <= p < es.len() ==> es[p].0 != k);
    }
    let s1 = seq![(k, v)];
    assert(es2 =~= es + s1);
    lemma_apply_entries_app(Map::empty(), es, s1);
    assert(apply_entries(entries_map(es), s1) == entries_map(es).insert(k, v)) by {
        assert(s1.len() == 1 && s1[0] == (k, v));
        assert(s1.drop_first() =~= Seq::<(Seq<char>, Node)>::empty());
        assert(apply_entries(entries_map(es), s1) == apply_entries(
            entries_map(es).insert(k, v),
            s1.drop_first(),
        ));
    }
}

/// Inserting an entry with a fresh key at any position denotes the map
/// insertion.
pub proof fn lemma_entries_map_insert_at(es: Seq<(Seq<char>, Node)>, i: int, k: Seq<char>, v: Node)
    requires
        unique_keys(es),
        !has_entry_key(es, k),
        0 <= i <= es.len(),
    ensures
        unique_keys(es.insert(i, (k, v))),
        entries_map(es.insert(i, (k, v))) == entries_map(es).insert(k, v),
{
    let es2 = es.insert(i, (k, v));
    assert(forall|p: int| 0 <= p < i ==> es2[p] == es[p]);
    assert(es2[i] == (k, v));
    assert(forall|p: int| i < p < es2.len() ==> es2[p] == es[p - 1]);
    assert(forall|p: int| 0 <= p < es.len() ==> es[p].0 != k);
    assert(unique_keys(es2)) by {
        assert forall|p: int, q: int| 0 <= p < q < es2.len() implies es2[p].0 != es2[q].0 by {
            if p != i && q != i {
                let p0: int = if p < i { p } else { p - 1 };
                let q0: int = if q < i { q } else { q - 1 };
                assert(es2[p] == es[p0] && es2[q] == es[q0]);
            }
        }
    }
    let m1 = entries_map(es2);
    let m2 = entries_map(es).insert(k, v);
    assert forall|k2: Seq<char>| #[trigger] m1.contains_key(k2) <==> m2.contains_key(k2) by {
        lemma_entries_map_char(es, k2);
        lemma_entries_map_char(es2, k2);
        if has_entry_key(es, k2) {
            let p = choose|p: int| 0 <= p < es.len() && es[p].0 == k2;
            if p < i {
                assert(es2[p].0 == k2);
            } else {
                assert(es2[p + 1].0 == k2);
            }
        }
        if has_entry_key(es2, k2) && k2 != k {
            let p = choose|p: int| 0 <= p < es2.len() && es2[p].0 == k2;
            assert(p != i);
            let p0: int = if p < i { p } else { p - 1 };
            assert(es[p0].0 == k2);
        }
    }
    assert forall|k2: Seq<char>| m1.contains_key(k2) implies m1[k2] == m2[k2] by {
        lemma_entries_map_char(es, k2);
        lemma_entries_map_char(es2, k2);
        if k2 == k {
            assert(es2[i].0 == k2);
        } else {
            let p = choose|p: int| 0 <= p < es2.len() && es2[p].0 == k2;
            assert(p != i);
            let p0: int = if p < i { p } else { p - 1 };
            assert(es[p0].0 == k2 && es[p0].1 == es2[p].1);
        }
    }
    assert(m1 =~= m2);
}

} // verus!
