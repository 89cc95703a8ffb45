//! Laws of the flattener, stated and proved over the specification model:
//! what an array of tables contributes and under which keys, what a
//! primitive array contributes, and how table-and-scalar trees correspond
//! to dot-joined leaf paths.

use vstd::prelude::*;

use crate::flatten::{
    array_child_key, doc_map, flat_array, flat_of, flat_table, table_child_key,
};
use crate::node::{entries_map, has_entry_key, lemma_entries_map_char, unique_keys, Node};

verus! {

/// Only tables and scalars at or below this node.
pub open spec fn no_arrays(n: Node) -> bool
    decreases n, 0int,
{
    match n {
        Node::Table(es) => no_arrays_from(es, 0),
        Node::Array(_) => false,
        _ => true,
    }
}

/// Only tables and scalars below the table entries from position `i` on.
pub open spec fn no_arrays_from(es: Seq<(Seq<char>, Node)>, i: int) -> bool
    decreases es, es.len() - i,
    via no_arrays_from_dec
{
    if 0 <= i < es.len() {
        no_arrays(es[i].1) && no_arrays_from(es, i + 1)
    } else {
        true
    }
}

#[via_fn]
proof fn no_arrays_from_dec(es: Seq<(Seq<char>, Node)>, i: int) {
    if 0 <= i < es.len() {
        assert(decreases_to!(es => es[i]));
        assert(decreases_to!(es[i] => es[i].1));
    }
}

/// Every table at or below this node has unique, non-empty field names.
pub open spec fn wf_table_names(n: Node) -> bool
    decreases n, 0int,
{
    match n {
        Node::Table(es) => unique_keys(es) && wf_names_from(es, 0),
        _ => true,
    }
}

/// Well-named entries from position `i` on.
pub open spec fn wf_names_from(es: Seq<(Seq<char>, Node)>, i: int) -> bool
    decreases es, es.len() - i,
    via wf_names_from_dec
{
    if 0 <= i < es.len() {
        es[i].0.len() > 0 && wf_table_names(es[i].1) && wf_names_from(es, i + 1)
    } else {
        true
    }
}

#[via_fn]
proof fn wf_names_from_dec(es: Seq<(Seq<char>, Node)>, i: int) {
    if 0 <= i < es.len() {
        assert(decreases_to!(es => es[i]));
        assert(decreases_to!(es[i] => es[i].1));
    }
}

/// The value reached from `n` by descending through field names.
pub open spec fn tree_at(n: Node, path: Seq<Seq<char>>) -> Option<Node>
    decreases path.len(),
{
    if path.len() == 0 {
        Some(n)
    } else {
        match n {
            Node::Table(es) => {
                if entries_map(es).contains_key(path[0]) {
                    tree_at(entries_map(es)[path[0]], path.drop_first())
                } else {
                    None
                }
            },
            _ => None,
        }
    }
}

/// The flattened key a path of field names denotes under a prefix: the
/// dot-joined names, with no leading separator when the prefix is empty.
pub open spec fn key_join(prefix: Seq<char>, path: Seq<Seq<char>>) -> Seq<char>
    decreases path.len(),
{
    if path.len() == 0 {
        prefix
    } else {
        key_join(table_child_key(prefix, path[0]), path.drop_first())
    }
}

/// `k` starts with `p`.
pub open spec fn begins_with(k: Seq<char>, p: Seq<char>) -> bool {
    k.len() >= p.len() && k.subrange(0, p.len() as int) == p
}

/// Starting-with is transitive.
pub proof fn lemma_begins_with_trans(a: Seq<char>, b: Seq<char>, c: Seq<char>)
    requires
        begins_with(a, b),
        begins_with(b, c),
    ensures
        begins_with(a, c),
{
    assert(a.subrange(0, c.len() as int) =~= a.subrange(0, b.len() as int).subrange(
        0,
        c.len() as int,
    ));
}

/// Every key the flattener produces under a prefix starts with that prefix.
pub proof fn lemma_flat_keys_prefixed(prefix: Seq<char>, n: Node)
    ensures
        forall|j: int|
            0 <= j < flat_of(prefix, n).len() ==> begins_with(
                #[trigger] flat_of(prefix, n)[j].0,
                prefix,
            ),
    decreases n, 0int,
{
    let fl = flat_of(prefix, n);
    assert(prefix.subrange(0, prefix.len() as int) =~= prefix);
    match n {
        Node::Table(es) => {
            lemma_flat_table_keys_prefixed(prefix, es, 0);
            assert(fl == flat_table(prefix, es, 0));
        },
        Node::Array(es) => {
            if es.len() > 0 && es[0] is Table {
                lemma_flat_array_keys_prefixed(prefix, es, 0);
                assert(fl == flat_array(prefix, es, 0));
                assert((prefix + seq!['[']).subrange(0, prefix.len() as int) =~= prefix);
                assert forall|j: int| 0 <= j < fl.len() implies begins_with(
                    #[trigger] fl[j].0,
                    prefix,
                ) by {
                    lemma_begins_with_trans(fl[j].0, prefix + seq!['['], prefix);
                }
            } else if prefix.len() > 0 {
                assert(fl == seq![(prefix, n)]);
                assert(fl[0] == (prefix, n));
            }
        },
        _ => {
            if prefix.len() > 0 {
                assert(fl == seq![(prefix, n)]);
                assert(fl[0] == (prefix, n));
            }
        },
    }
}

/// A table child's key starts with the table's prefix.
pub proof fn lemma_table_child_key_prefixed(prefix: Seq<char>, name: Seq<char>)
    ensures
        begins_with(table_child_key(prefix, name), prefix),
{
    if prefix.len() == 0 {
        assert(name.subrange(0, 0) =~= prefix);
    } else {
        assert(table_child_key(prefix, name).subrange(0, prefix.len() as int) =~= prefix);
    }
}

/// An array child's key starts with the array's prefix followed by `[`.
pub proof fn lemma_array_child_key_prefixed(prefix: Seq<char>, i: int)
    ensures
        begins_with(array_child_key(prefix, i), prefix + seq!['[']),
        begins_with(array_child_key(prefix, i), prefix),
{
    let k = array_child_key(prefix, i);
    assert(k.subrange(0, prefix.len() as int + 1) =~= prefix + seq!['[']);
    assert(k.subrange(0, prefix.len() as int) =~= prefix);
}

proof fn lemma_flat_table_keys_prefixed(prefix: Seq<char>, es: Seq<(Seq<char>, Node)>, i: int)
    ensures
        forall|j: int|
            0 <= j < flat_table(prefix, es, i).len() ==> begins_with(
                #[trigger] flat_table(prefix, es, i)[j].0,
                prefix,
            ),
    decreases es, es.len() - i,
{
    if 0 <= i < es.len() {
        let ck = table_child_key(prefix, es[i].0);
        assert(decreases_to!(es => es[i]));
        assert(decreases_to!(es[i] => es[i].1));
        lemma_flat_keys_prefixed(ck, es[i].1);
        lemma_flat_table_keys_prefixed(prefix, es, i + 1);
        lemma_table_child_key_prefixed(prefix, es[i].0);
        let head = flat_of(ck, es[i].1);
        let tail = flat_table(prefix, es, i + 1);
        assert forall|j: int| 0 <= j < flat_table(prefix, es, i).len() implies begins_with(
            #[trigger] flat_table(prefix, es, i)[j].0,
            prefix,
        ) by {
            if j < head.len() {
                assert(flat_table(prefix, es, i)[j] == head[j]);
                lemma_begins_with_trans(head[j].0, ck, prefix);
            } else {
                assert(flat_table(prefix, es, i)[j] == tail[j - head.len()]);
            }
        }
    }
}

proof fn lemma_flat_array_keys_prefixed(prefix: Seq<char>, es: Seq<Node>, i: int)
    ensures
        forall|j: int|
            0 <= j < flat_array(prefix, es, i).len() ==> begins_with(
                #[trigger] flat_array(prefix, es, i)[j].0,
                prefix + seq!['['],
            ),
    decreases es, es.len() - i,
{
    if 0 <= i < es.len() {
        let ck = array_child_key(prefix, i);
        assert(decreases_to!(es => es[i]));
        lemma_flat_keys_prefixed(ck, es[i]);
        lemma_flat_array_keys_prefixed(prefix, es, i + 1);
        lemma_array_child_key_prefixed(prefix, i);
        let head = flat_of(ck, es[i]);
        let tail = flat_array(prefix, es, i + 1);
        assert forall|j: int| 0 <= j < flat_array(prefix, es, i).len() implies begins_with(
            #[trigger] flat_array(prefix, es, i)[j].0,
            prefix + seq!['['],
        ) by {
            if j < head.len() {
                assert(flat_array(prefix, es, i)[j] == head[j]);
                lemma_begins_with_trans(head[j].0, ck, prefix + seq!['[']);
            } else {
                assert(flat_array(prefix, es, i)[j] == tail[j - head.len()]);
            }
        }
    }
}

/// Flattening an array whose first element is a table expands the elements
/// under bracketed indices: the entries are exactly the elements' own
/// entries under `prefix[index]` keys, every produced key strictly extends
/// the prefix with a bracket, and no entry ever sits at the bare prefix.
pub proof fn lemma_table_array_entries(prefix: Seq<char>, es: Seq<Node>)
    requires
        prefix.len() > 0,
        es.len() > 0,
        es[0] is Table,
    ensures
        flat_of(prefix, Node::Array(es)) == flat_array(prefix, es, 0),
        forall|j: int|
            0 <= j < flat_of(prefix, Node::Array(es)).len() ==> begins_with(
                #[trigger] flat_of(prefix, Node::Array(es))[j].0,
                prefix + seq!['['],
            ),
        !entries_map(flat_of(prefix, Node::Array(es))).contains_key(prefix),
{
    lemma_flat_array_keys_prefixed(prefix, es, 0);
    let fl = flat_of(prefix, Node::Array(es));
    assert(fl == flat_array(prefix, es, 0));
    lemma_entries_map_char(fl, prefix);
    if entries_map(fl).contains_key(prefix) {
        let j = choose|j: int| 0 <= j < fl.len() && fl[j].0 == prefix;
        assert(begins_with(fl[j].0, prefix + seq!['[']));
        assert(fl[j].0.len() >= prefix.len() + 1);
        assert(false);
    }
}

/// Flattening a primitive array — empty, or not led by a table — at a
/// non-empty prefix makes exactly one entry: the whole array, unexpanded,
/// at the prefix itself.
pub proof fn lemma_primitive_array_entry(prefix: Seq<char>, es: Seq<Node>)
    requires
        prefix.len() > 0,
        es.len() == 0 || !(es[0] is Table),
    ensures
        flat_of(prefix, Node::Array(es)) == seq![(prefix, Node::Array(es))],
        entries_map(flat_of(prefix, Node::Array(es))) == Map::<Seq<char>, Node>::empty().insert(
            prefix,
            Node::Array(es),
        ),
{
    let e = (prefix, Node::Array(es));
    let s1 = seq![e];
    assert(s1.len() == 1 && s1[0] == e);
    assert(s1.drop_first() =~= Seq::<(Seq<char>, Node)>::empty());
    assert(entries_map(s1) == crate::node::apply_entries(
        Map::<Seq<char>, Node>::empty().insert(prefix, Node::Array(es)),
        s1.drop_first(),
    ));
}

/// Some scalar leaf of `n` accounts for the entry `e`: a path reaches that
/// leaf, and the entry carries the joined key and the leaf itself.
pub open spec fn entry_from_leaf(prefix: Seq<char>, n: Node, e: (Seq<char>, Node)) -> bool {
    exists|path: Seq<Seq<char>>|
        #[trigger] tree_at(n, path) == Some(e.1) && e.1.is_scalar() && e.0 == key_join(
            prefix,
            path,
        )
}

/// Some scalar leaf of a child entry at position `lo` or later accounts for
/// the entry `e`.
pub open spec fn entry_from_child_leaf(
    prefix: Seq<char>,
    es: Seq<(Seq<char>, Node)>,
    lo: int,
    e: (Seq<char>, Node),
) -> bool {
    exists|ci: int, path: Seq<Seq<char>>|
        lo <= ci < es.len() && #[trigger] tree_at(es[ci].1, path) == Some(e.1)
            && e.1.is_scalar() && e.0 == key_join(table_child_key(prefix, es[ci].0), path)
}

/// For a tree of tables and scalars with well-formed names, the flattened
/// entries are exactly the scalar leaves: each entry comes from a scalar
/// leaf under its joined key, and each scalar leaf contributes its entry.
pub proof fn lemma_flat_leaf_paths(prefix: Seq<char>, n: Node)
    requires
        no_arrays(n),
        wf_table_names(n),
        prefix.len() > 0 || n is Table,
    ensures
        forall|j: int|
            0 <= j < flat_of(prefix, n).len() ==> entry_from_leaf(
                prefix,
                n,
                #[trigger] flat_of(prefix, n)[j],
            ),
        forall|path: Seq<Seq<char>>|
            #[trigger] tree_at(n, path) is Some && tree_at(n, path)->0.is_scalar() ==> flat_of(
                prefix,
                n,
            ).contains((key_join(prefix, path), tree_at(n, path)->0)),
    decreases n, 0int,
{
    let fl = flat_of(prefix, n);
    match n {
        Node::Table(es) => {
            assert(decreases_to!(n => es));
            lemma_flat_table_leaf_paths(prefix, es, 0);
            assert(fl == flat_table(prefix, es, 0));
            assert forall|j: int| 0 <= j < fl.len() implies entry_from_leaf(
                prefix,
                n,
                #[trigger] fl[j],
            ) by {
                assert(entry_from_child_leaf(prefix, es, 0, fl[j]));
                let (ci, cpath) = choose|ci: int, cpath: Seq<Seq<char>>|
                    0 <= ci < es.len() && #[trigger] tree_at(es[ci].1, cpath) == Some(fl[j].1)
                        && fl[j].1.is_scalar() && fl[j].0 == key_join(
                        table_child_key(prefix, es[ci].0),
                        cpath,
                    );
                let path = seq![es[ci].0] + cpath;
                lemma_entries_map_char(es, es[ci].0);
                assert(has_entry_key(es, es[ci].0));
                assert(entries_map(es)[es[ci].0] == es[ci].1);
                assert(path.drop_first() =~= cpath);
                assert(path[0] == es[ci].0);
                assert(tree_at(n, path) == tree_at(es[ci].1, cpath));
                assert(key_join(prefix, path) == key_join(
                    table_child_key(prefix, es[ci].0),
                    cpath,
                ));
            }
            assert forall|path: Seq<Seq<char>>|
                #[trigger] tree_at(n, path) is Some && tree_at(n, path)->0.is_scalar() implies fl
                .contains((key_join(prefix, path), tree_at(n, path)->0)) by {
                if path.len() == 0 {
                    assert(!(tree_at(n, path)->0.is_scalar()));
                } else {
                    lemma_entries_map_char(es, path[0]);
                    assert(has_entry_key(es, path[0]));
                    let ci = choose|ci: int| 0 <= ci < es.len() && es[ci].0 == path[0];
                    assert(entries_map(es)[path[0]] == es[ci].1);
                    assert(tree_at(n, path) == tree_at(es[ci].1, path.drop_first()));
                    assert(key_join(prefix, path) == key_join(
                        table_child_key(prefix, es[ci].0),
                        path.drop_first(),
                    ));
                }
            }
        },
        Node::Array(_) => {
            assert(false);
        },
        _ => {
            assert(fl == seq![(prefix, n)]);
            assert(fl[0] == (prefix, n));
            let path0 = Seq::<Seq<char>>::empty();
            assert(tree_at(n, path0) == Some(n));
            assert(key_join(prefix, path0) == prefix);
            assert forall|j: int| 0 <= j < fl.len() implies entry_from_leaf(
                prefix,
                n,
                #[trigger] fl[j],
            ) by {
                assert(tree_at(n, path0) == Some(fl[j].1) && fl[j].1.is_scalar() && fl[j].0
                    == key_join(prefix, path0));
            }
            assert forall|path: Seq<Seq<char>>|
                #[trigger] tree_at(n, path) is Some && tree_at(n, path)->0.is_scalar() implies fl
                .contains((key_join(prefix, path), tree_at(n, path)->0)) by {
                assert(path.len() == 0);
                assert((key_join(prefix, path), tree_at(n, path)->0) == fl[0]);
            }
        },
    }
}

proof fn lemma_flat_table_leaf_paths(prefix: Seq<char>, es: Seq<(Seq<char>, Node)>, i: int)
    requires
        0 <= i,
        unique_keys(es),
        no_arrays_from(es, i),
        wf_names_from(es, i),
    ensures
        forall|j: int|
            0 <= j < flat_table(prefix, es, i).len() ==> entry_from_child_leaf(
                prefix,
                es,
                i,
                #[trigger] flat_table(prefix, es, i)[j],
            ),
        forall|ci: int, path: Seq<Seq<char>>|
            i <= ci < es.len() && #[trigger] tree_at(es[ci].1, path) is Some && tree_at(
                es[ci].1,
                path,
            )->0.is_scalar() ==> flat_table(prefix, es, i).contains(
                (key_join(table_child_key(prefix, es[ci].0), path), tree_at(es[ci].1, path)->0),
            ),
    decreases es, es.len() - i,
{
    if 0 <= i < es.len() {
        assert(decreases_to!(es => es[i]));
        assert(decreases_to!(es[i] => es[i].1));
        let ck = table_child_key(prefix, es[i].0);
        assert(ck.len() > 0) by {
            assert(es[i].0.len() > 0);
            if prefix.len() > 0 {
                assert(ck == prefix + seq!['.'] + es[i].0);
            }
        }
        lemma_flat_leaf_paths(ck, es[i].1);
        lemma_flat_table_leaf_paths(prefix, es, i + 1);
        let head = flat_of(ck, es[i].1);
        let tail = flat_table(prefix, es, i + 1);
        let whole = flat_table(prefix, es, i);
        assert(whole == head + tail);
        assert forall|j: int| 0 <= j < whole.len() implies entry_from_child_leaf(
            prefix,
            es,
            i,
            #[trigger] whole[j],
        ) by {
            if j < head.len() {
                assert(whole[j] == head[j]);
                assert(entry_from_leaf(ck, es[i].1, head[j]));
                let path = choose|path: Seq<Seq<char>>|
                    #[trigger] tree_at(es[i].1, path) == Some(head[j].1) && head[j].1.is_scalar()
                        && head[j].0 == key_join(ck, path);
                assert(i <= i < es.len() && tree_at(es[i].1, path) == Some(whole[j].1)
                    && whole[j].1.is_scalar() && whole[j].0 == key_join(
                    table_child_key(prefix, es[i].0),
                    path,
                ));
            } else {
                assert(whole[j] == tail[j - head.len()]);
                assert(entry_from_child_leaf(prefix, es, i + 1, tail[j - head.len()]));
                let (ci, path) = choose|ci: int, path: Seq<Seq<char>>|
                    i + 1 <= ci < es.len() && #[trigger] tree_at(es[ci].1, path) == Some(
                        tail[j - head.len()].1,
                    ) && tail[j - head.len()].1.is_scalar() && tail[j - head.len()].0
                        == key_join(table_child_key(prefix, es[ci].0), path);
                assert(i <= ci < es.len() && tree_at(es[ci].1, path) == Some(whole[j].1)
                    && whole[j].1.is_scalar() && whole[j].0 == key_join(
                    table_child_key(prefix, es[ci].0),
                    path,
                ));
            }
        }
        assert forall|ci: int, path: Seq<Seq<char>>|
            i <= ci < es.len() && #[trigger] tree_at(es[ci].1, path) is Some && tree_at(
                es[ci].1,
                path,
            )->0.is_scalar() implies whole.contains(
            (key_join(table_child_key(prefix, es[ci].0), path), tree_at(es[ci].1, path)->0),
        ) by {
            let e = (
                key_join(table_child_key(prefix, es[ci].0), path),
                tree_at(es[ci].1, path)->0,
            );
            if ci == i {
                assert(head.contains(e));
                let hj = choose|hj: int| 0 <= hj < head.len() && head[hj] == e;
                assert(whole[hj] == e);
            } else {
                assert(tail.contains(e));
                let tj = choose|tj: int| 0 <= tj < tail.len() && tail[tj] == e;
                assert(whole[head.len() + tj] == e);
            }
        }
    }
}

/// No path separator occurs in the text: field names of this shape keep
/// distinct nested paths distinct after joining.
pub open spec fn sep_free(s: Seq<char>) -> bool {
    forall|i: int| 0 <= i < s.len() ==> s[i] != '.' && s[i] != '['
}

/// Every table at or below this node has separator-free field names.
pub open spec fn sep_free_names(n: Node) -> bool
    decreases n, 0int,
{
    match n {
        Node::Table(es) => sep_free_from(es, 0),
        _ => true,
    }
}

/// Separator-free names from position `i` on.
pub open spec fn sep_free_from(es: Seq<(Seq<char>, Node)>, i: int) -> bool
    decreases es, es.len() - i,
    via sep_free_from_dec
{
    if 0 <= i < es.len() {
        sep_free(es[i].0) && sep_free_names(es[i].1) && sep_free_from(es, i + 1)
    } else {
        true
    }
}

#[via_fn]
proof fn sep_free_from_dec(es: Seq<(Seq<char>, Node)>, i: int) {
    if 0 <= i < es.len() {
        assert(decreases_to!(es => es[i]));
        assert(decreases_to!(es[i] => es[i].1));
    }
}

/// A key that sits at `ck` itself or extends it through a dot.
pub open spec fn key_shape(ck: Seq<char>, k: Seq<char>) -> bool {
    k == ck || begins_with(k, ck + seq!['.'])
}

/// Under a non-empty prefix and without arrays, every produced key sits at
/// the prefix or extends it through a dot.
proof fn lemma_flat_key_shape(prefix: Seq<char>, n: Node)
    requires
        prefix.len() > 0,
        no_arrays(n),
    ensures
        forall|j: int|
            0 <= j < flat_of(prefix, n).len() ==> key_shape(
                prefix,
                (#[trigger] flat_of(prefix, n)[j]).0,
            ),
    decreases n, 0int,
{
    let fl = flat_of(prefix, n);
    match n {
        Node::Table(es) => {
            assert(decreases_to!(n => es));
            lemma_flat_table_key_shape(prefix, es, 0);
            assert(fl == flat_table(prefix, es, 0));
        },
        Node::Array(_) => {
            assert(false);
        },
        _ => {
            assert(fl == seq![(prefix, n)]);
            assert(fl[0] == (prefix, n));
        },
    }
}

proof fn lemma_flat_table_key_shape(prefix: Seq<char>, es: Seq<(Seq<char>, Node)>, i: int)
    requires
        prefix.len() > 0,
        no_arrays_from(es, i),
    ensures
        forall|j: int|
            0 <= j < flat_table(prefix, es, i).len() ==> key_shape(
                prefix,
                (#[trigger] flat_table(prefix, es, i)[j]).0,
            ),
    decreases es, es.len() - i,
{
    if 0 <= i < es.len() {
        assert(decreases_to!(es => es[i]));
        assert(decreases_to!(es[i] => es[i].1));
        let ck = table_child_key(prefix, es[i].0);
        assert(ck == prefix + seq!['.'] + es[i].0);
        lemma_flat_key_shape(ck, es[i].1);
        lemma_flat_table_key_shape(prefix, es, i + 1);
        let head = flat_of(ck, es[i].1);
        let tail = flat_table(prefix, es, i + 1);
        let whole = flat_table(prefix, es, i);
        assert(whole == head + tail);
        assert(begins_with(ck, prefix + seq!['.'])) by {
            assert(ck.subrange(0, prefix.len() + 1 as int) =~= prefix + seq!['.']);
        }
        assert forall|j: int| 0 <= j < whole.len() implies key_shape(
            prefix,
            (#[trigger] whole[j]).0,
        ) by {
            if j < head.len() {
                assert(whole[j] == head[j]);
                assert(key_shape(ck, head[j].0));
                if head[j].0 == ck {
                    assert(begins_with(whole[j].0, prefix + seq!['.']));
                } else {
                    assert(begins_with(ck + seq!['.'], prefix + seq!['.'])) by {
                        assert((ck + seq!['.']).subrange(0, prefix.len() + 1 as int) =~= prefix
                            + seq!['.']);
                    }
                    lemma_begins_with_trans(head[j].0, ck + seq!['.'], prefix + seq!['.']);
                }
            } else {
                assert(whole[j] == tail[j - head.len()]);
            }
        }
    }
}

/// Keys shaped under two differently named children of one table differ.
proof fn lemma_child_keys_disjoint(
    prefix: Seq<char>,
    a: Seq<char>,
    b: Seq<char>,
    k1: Seq<char>,
    k2: Seq<char>,
)
    requires
        a != b,
        sep_free(a),
        sep_free(b),
        key_shape(table_child_key(prefix, a), k1),
        key_shape(table_child_key(prefix, b), k2),
    ensures
        k1 != k2,
    decreases a.len(),
{
    if a.len() > b.len() {
        lemma_child_keys_disjoint(prefix, b, a, k2, k1);
    } else {
        let base: int = if prefix.len() == 0 {
            0
        } else {
            prefix.len() as int + 1
        };
        let ca = table_child_key(prefix, a);
        let cb = table_child_key(prefix, b);
        assert(ca.len() == base + a.len() && cb.len() == base + b.len());
        assert(forall|t: int| 0 <= t < a.len() ==> ca[base + t] == a[t]);
        assert(forall|t: int| 0 <= t < b.len() ==> cb[base + t] == b[t]);
        if k1 == k2 {
            let k = k1;
            // Both shapes start with the full child key.
            assert(begins_with(k, ca)) by {
                assert(ca.subrange(0, ca.len() as int) =~= ca);
                if k != ca {
                    assert(k.subrange(0, ca.len() as int) =~= k.subrange(
                        0,
                        (ca + seq!['.']).len() as int,
                    ).subrange(0, ca.len() as int));
                    assert((ca + seq!['.']).subrange(0, ca.len() as int) =~= ca);
                }
            }
            assert(begins_with(k, cb)) by {
                assert(cb.subrange(0, cb.len() as int) =~= cb);
                if k != cb {
                    assert(k.subrange(0, cb.len() as int) =~= k.subrange(
                        0,
                        (cb + seq!['.']).len() as int,
                    ).subrange(0, cb.len() as int));
                    assert((cb + seq!['.']).subrange(0, cb.len() as int) =~= cb);
                }
            }
            assert(forall|t: int| 0 <= t < a.len() ==> k[base + t] == a[t]) by {
                assert(forall|t: int|
                    0 <= t < a.len() ==> #[trigger] k.subrange(0, ca.len() as int)[base + t]
                        == k[base + t]);
            }
            assert(forall|t: int| 0 <= t < b.len() ==> k[base + t] == b[t]) by {
                assert(forall|t: int|
                    0 <= t < b.len() ==> #[trigger] k.subrange(0, cb.len() as int)[base + t]
                        == k[base + t]);
            }
            if a.len() == b.len() {
                assert(a =~= b);
            } else {
                // `a` is shorter: right after it, `k` shows either its end
                // or a dot, but `b` goes on with a separator-free character.
                let cut = base + a.len();
                assert(k[cut] == b[a.len() as int]);
                assert(b[a.len() as int] != '.');
                if k == ca {
                    assert(k.len() == cut);
                    assert(k.len() >= cb.len() > cut);
                } else {
                    assert(begins_with(k, ca + seq!['.']));
                    assert(k.subrange(0, (ca + seq!['.']).len() as int)[cut] == k[cut]);
                    assert((ca + seq!['.'])[cut] == '.');
                    assert(k[cut] == '.');
                }
            }
            assert(false);
        }
    }
}

/// Under well-formed, separator-free names and without arrays, the
/// flattener never produces one key twice.
pub proof fn lemma_flat_keys_unique(prefix: Seq<char>, n: Node)
    requires
        no_arrays(n),
        wf_table_names(n),
        sep_free_names(n),
        prefix.len() > 0 || n is Table,
    ensures
        unique_keys(flat_of(prefix, n)),
    decreases n, 0int,
{
    let fl = flat_of(prefix, n);
    match n {
        Node::Table(es) => {
            assert(decreases_to!(n => es));
            lemma_flat_table_keys_unique(prefix, es, 0);
            assert(fl == flat_table(prefix, es, 0));
        },
        Node::Array(_) => {
            assert(false);
        },
        _ => {
            assert(fl == seq![(prefix, n)]);
        },
    }
}

/// Name facts for one entry, extracted from the running conditions.
proof fn lemma_name_props_at(es: Seq<(Seq<char>, Node)>, i: int, ci: int)
    requires
        0 <= i <= ci < es.len(),
        wf_names_from(es, i),
        sep_free_from(es, i),
    ensures
        es[ci].0.len() > 0,
        sep_free(es[ci].0),
    decreases ci - i,
{
    if ci > i {
        lemma_name_props_at(es, i + 1, ci);
    }
}

/// One key shaped under some child entry at position `lo` or later.
spec fn child_shaped(prefix: Seq<char>, es: Seq<(Seq<char>, Node)>, lo: int, k: Seq<char>) -> bool {
    exists|ci: int|
        lo <= ci < es.len() && #[trigger] key_shape(table_child_key(prefix, es[ci].0), k)
}

proof fn lemma_flat_table_keys_unique(prefix: Seq<char>, es: Seq<(Seq<char>, Node)>, i: int)
    requires
        0 <= i,
        unique_keys(es),
        no_arrays_from(es, i),
        wf_names_from(es, i),
        sep_free_from(es, i),
    ensures
        unique_keys(flat_table(prefix, es, i)),
        forall|j: int|
            0 <= j < flat_table(prefix, es, i).len() ==> child_shaped(
                prefix,
                es,
                i,
                (#[trigger] flat_table(prefix, es, i)[j]).0,
            ),
    decreases es, es.len() - i,
{
    if 0 <= i < es.len() {
        assert(decreases_to!(es => es[i]));
        assert(decreases_to!(es[i] => es[i].1));
        let ck = table_child_key(prefix, es[i].0);
        assert(ck.len() > 0) by {
            assert(es[i].0.len() > 0);
            if prefix.len() > 0 {
                assert(ck == prefix + seq!['.'] + es[i].0);
            }
        }
        lemma_flat_keys_unique(ck, es[i].1);
        if !(es[i].1 is Table) {
            assert(no_arrays(es[i].1));
            assert(!(es[i].1 is Array));
            assert(flat_of(ck, es[i].1) =~= seq![(ck, es[i].1)]);
            assert(flat_of(ck, es[i].1)[0].0 == ck);
        } else {
            lemma_flat_key_shape(ck, es[i].1);
        }
        lemma_flat_table_keys_unique(prefix, es, i + 1);
        let head = flat_of(ck, es[i].1);
        let tail = flat_table(prefix, es, i + 1);
        let whole = flat_table(prefix, es, i);
        assert(whole == head + tail);
        assert(forall|j: int|
            0 <= j < head.len() ==> key_shape(ck, (#[trigger] head[j]).0)) by {
            if !(es[i].1 is Table) {
                assert(head.len() == 1 && head[0].0 == ck);
            }
        }
        assert forall|j: int| 0 <= j < whole.len() implies child_shaped(
            prefix,
            es,
            i,
            (#[trigger] whole[j]).0,
        ) by {
            if j < head.len() {
                assert(whole[j] == head[j]);
                assert(key_shape(table_child_key(prefix, es[i].0), whole[j].0));
            } else {
                assert(whole[j] == tail[j - head.len()]);
                assert(child_shaped(prefix, es, i + 1, whole[j].0));
                let ci = choose|ci: int|
                    i + 1 <= ci < es.len() && #[trigger] key_shape(
                        table_child_key(prefix, es[ci].0),
                        whole[j].0,
                    );
                assert(key_shape(table_child_key(prefix, es[ci].0), whole[j].0));
            }
        }
        assert forall|p: int, q: int| 0 <= p < q < whole.len() implies whole[p].0
            != whole[q].0 by {
            if p < head.len() && q >= head.len() {
                assert(whole[p] == head[p]);
                assert(whole[q] == tail[q - head.len()]);
                assert(child_shaped(prefix, es, i + 1, tail[q - head.len()].0));
                let ci = choose|ci: int|
                    i + 1 <= ci < es.len() && #[trigger] key_shape(
                        table_child_key(prefix, es[ci].0),
                        tail[q - head.len()].0,
                    );
                assert(es[i].0 != es[ci].0);
                lemma_name_props_at(es, i, ci);
                lemma_child_keys_disjoint(
                    prefix,
                    es[i].0,
                    es[ci].0,
                    whole[p].0,
                    whole[q].0,
                );
            } else if p >= head.len() {
                assert(whole[p] == tail[p - head.len()] && whole[q] == tail[q - head.len()]);
            } else {
                assert(whole[p] == head[p] && whole[q] == head[q]);
            }
        }
    }
}

/// The key of some scalar leaf of `root`, joined from the root with no
/// leading separator.
pub open spec fn leaf_key(root: Node, k: Seq<char>) -> bool {
    exists|path: Seq<Seq<char>>|
        #[trigger] tree_at(root, path) is Some && tree_at(root, path)->0.is_scalar() && k
            == key_join(Seq::empty(), path)
}

/// For a table-rooted tree of tables and scalars with unique, non-empty
/// field names, the flattened mapping's key set is exactly the set of
/// dot-joined paths to scalar leaves.
pub proof fn lemma_table_scalar_key_set(root: Node)
    requires
        root is Table,
        no_arrays(root),
        wf_table_names(root),
    ensures
        forall|k: Seq<char>| #[trigger] doc_map(root).contains_key(k) <==> leaf_key(root, k),
{
    let fl = flat_of(Seq::empty(), root);
    lemma_flat_leaf_paths(Seq::empty(), root);
    assert forall|k: Seq<char>| #[trigger]
        doc_map(root).contains_key(k) <==> leaf_key(root, k) by {
        lemma_entries_map_char(fl, k);
        if doc_map(root).contains_key(k) {
            let j = choose|j: int| 0 <= j < fl.len() && fl[j].0 == k;
            assert(entry_from_leaf(Seq::empty(), root, fl[j]));
            let path = choose|path: Seq<Seq<char>>|
                #[trigger] tree_at(root, path) == Some(fl[j].1) && fl[j].1.is_scalar()
                    && fl[j].0 == key_join(Seq::empty(), path);
            assert(tree_at(root, path) is Some && tree_at(root, path)->0.is_scalar() && k
                == key_join(Seq::empty(), path));
        }
        if leaf_key(root, k) {
            let path = choose|path: Seq<Seq<char>>|
                #[trigger] tree_at(root, path) is Some && tree_at(root, path)->0.is_scalar()
                    && k == key_join(Seq::empty(), path);
            assert(fl.contains((k, tree_at(root, path)->0)));
            let j = choose|j: int| 0 <= j < fl.len() && fl[j] == (k, tree_at(root, path)->0);
            assert(has_entry_key(fl, k));
        }
    }
}


/// For a table-rooted tree of tables and scalars whose field names are
/// unique, non-empty and separator-free, the flattened mapping has exactly
/// one entry per scalar leaf: the dot-joined path of field names to that
/// leaf carries the leaf itself.
pub proof fn lemma_table_scalar_values(root: Node)
    requires
        root is Table,
        no_arrays(root),
        wf_table_names(root),
        sep_free_names(root),
    ensures
        forall|path: Seq<Seq<char>>|
            #[trigger] tree_at(root, path) is Some && tree_at(root, path)->0.is_scalar()
                ==> doc_map(root).contains_key(key_join(Seq::empty(), path)) && doc_map(
                root,
            )[key_join(Seq::empty(), path)] == tree_at(root, path)->0,
{
    let fl = flat_of(Seq::empty(), root);
    lemma_flat_leaf_paths(Seq::empty(), root);
    lemma_flat_keys_unique(Seq::empty(), root);
    assert forall|path: Seq<Seq<char>>|
        #[trigger] tree_at(root, path) is Some && tree_at(root, path)->0.is_scalar() implies
        doc_map(root).contains_key(key_join(Seq::empty(), path)) && doc_map(root)[key_join(
        Seq::empty(),
        path,
    )] == tree_at(root, path)->0 by {
        let k = key_join(Seq::empty(), path);
        let leaf = tree_at(root, path)->0;
        assert(fl.contains((k, leaf)));
        let j = choose|j: int| 0 <= j < fl.len() && fl[j] == (k, leaf);
        lemma_entries_map_char(fl, k);
        assert(fl[j].0 == k);
        assert(has_entry_key(fl, k));
        assert(entries_map(fl)[k] == fl[j].1);
    }
}

} // verus!
