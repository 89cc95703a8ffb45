//! The flattener: a recursive walk that turns one tree value into
//! single-level store entries, with an accumulated prefix that starts empty.
//!
//! Table descent appends `.name` (no leading dot at the root); an array whose
//! first element is a table is treated as an array of tables and descends
//! with bracketed indices `[0]`, `[1]`, ...; any other array is stored whole
//! under its prefix; a scalar is stored under its prefix. A non-table root —
//! a bare scalar or array at the empty prefix — is dropped silently.
//!
//! Field names are joined as they are, with no escaping: a name that itself
//! holds a `.` or `[` can make two distinct nested paths collapse to one
//! key, and the later insertion then overwrites the earlier. The uniqueness
//! law over this walk therefore assumes separator-free names.

use vstd::prelude::*;
use vstd::string::StringExecFns;

use crate::node::{apply_entries, entries_map, lemma_apply_entries_app, unique_keys, Node};
use crate::numtext::{dec_digits, u64_to_decimal};
use crate::store::Store;
use crate::value::{
    clone_value, lemma_nodes_of_index, lemma_table_nodes_of_index, nodes_of, table_nodes_of,
    Value,
};

verus! {

/// The key of a table's child: the field name alone at the root, else the
/// prefix, a dot, and the name.
pub open spec fn table_child_key(prefix: Seq<char>, name: Seq<char>) -> Seq<char> {
    if prefix.len() == 0 {
        name
    } else {
        prefix + seq!['.'] + name
    }
}

/// The key of an element of an array of tables: the prefix with a bracketed
/// decimal index.
pub open spec fn array_child_key(prefix: Seq<char>, i: int) -> Seq<char> {
    prefix + seq!['['] + dec_digits(i as nat) + seq![']']
}

/// The entries the flattener produces for one value under a prefix, in the
/// order they are inserted.
pub open spec fn flat_of(prefix: Seq<char>, n: Node) -> Seq<(Seq<char>, Node)>
    decreases n, 0int,
{
    match n {
        Node::Table(es) => flat_table(prefix, es, 0),
        Node::Array(es) => {
            if es.len() > 0 && es[0] is Table {
                flat_array(prefix, es, 0)
            } else if prefix.len() > 0 {
                seq![(prefix, n)]
            } else {
                Seq::empty()
            }
        },
        _ => {
            if prefix.len() > 0 {
                seq![(prefix, n)]
            } else {
                Seq::empty()
            }
        },
    }
}

/// The entries for a table's children from position `i` on.
pub open spec fn flat_table(prefix: Seq<char>, es: Seq<(Seq<char>, Node)>, i: int) -> Seq<
    (Seq<char>, Node),
>
    decreases es, es.len() - i,
    via flat_table_dec
{
    if 0 <= i < es.len() {
        flat_of(table_child_key(prefix, es[i].0), es[i].1) + flat_table(prefix, es, i + 1)
    } else {
        Seq::empty()
    }
}

#[via_fn]
proof fn flat_table_dec(prefix: Seq<char>, es: Seq<(Seq<char>, Node)>, i: int) {
    if 0 <= i < es.len() {
        assert(decreases_to!(es => es[i]));
        assert(decreases_to!(es[i] => es[i].1));
    }
}

/// The entries for the elements of an array of tables from position `i` on.
pub open spec fn flat_array(prefix: Seq<char>, es: Seq<Node>, i: int) -> Seq<(Seq<char>, Node)>
    decreases es, es.len() - i,
    via flat_array_dec
{
    if 0 <= i < es.len() {
        flat_of(array_child_key(prefix, i), es[i]) + flat_array(prefix, es, i + 1)
    } else {
        Seq::empty()
    }
}

#[via_fn]
proof fn flat_array_dec(prefix: Seq<char>, es: Seq<Node>, i: int) {
    if 0 <= i < es.len() {
        assert(decreases_to!(es => es[i]));
    }
}

/// The mapping a whole document denotes: its entries applied to the empty
/// map, starting from the empty prefix.
pub open spec fn doc_map(n: Node) -> Map<Seq<char>, Node> {
    entries_map(flat_of(Seq::empty(), n))
}

/// Walk `value` under `prefix` and insert its flattened entries into the
/// store, in order.
#[verifier::loop_isolation(false)]
pub fn flatten_value<S: Store>(store: &mut S, prefix: &str, value: &Value)
    requires
        unique_keys(old(store).entries()),
    ensures
        unique_keys(final(store).entries()),
        entries_map(final(store).entries()) == apply_entries(
            entries_map(old(store).entries()),
            flat_of(prefix@, value@),
        ),
    decreases *value,
{
    proof {
        reveal_strlit(".");
        reveal_strlit("[");
        reveal_strlit("]");
        assert("."@ =~= seq!['.']);
        assert("["@ =~= seq!['[']);
        assert("]"@ =~= seq![']']);
    }
    match value {
        Value::Table(es) => {
            let ghost tn = table_nodes_of(es@, 0);
            proof {
                lemma_table_nodes_of_index(es@, 0);
            }
            let n = es.len();
            let mut j: usize = 0;
            while j < n
                invariant
                    j <= n,
                    unique_keys(store.entries()),
                    apply_entries(
                        entries_map(store.entries()),
                        flat_table(prefix@, tn, j as int),
                    ) == apply_entries(
                        entries_map(old(store).entries()),
                        flat_of(prefix@, value@),
                    ),
                decreases n - j,
            {
                let ghost pre_entries = store.entries();
                let pair = &es[j];
                let child_key: String = if prefix.is_empty() {
                    pair.0.clone()
                } else {
                    let mut k = prefix.to_owned();
                    k.append(".");
                    k.append(pair.0.as_str());
                    k
                };
                proof {
                    assert(child_key@ =~= table_child_key(prefix@, tn[j as int].0));
                    assert(decreases_to!(*value => value->Table_0));
                    assert(decreases_to!(*es => es@));
                    assert(decreases_to!(es@ => es@[j as int]));
                    assert(decreases_to!(es@[j as int] => es@[j as int].1));
                }
                flatten_value(store, child_key.as_str(), &pair.1);
                proof {
                    lemma_apply_entries_app(
                        entries_map(pre_entries),
                        flat_of(table_child_key(prefix@, tn[j as int].0), tn[j as int].1),
                        flat_table(prefix@, tn, j + 1),
                    );
                    assert(flat_table(prefix@, tn, j as int) == flat_of(
                        table_child_key(prefix@, tn[j as int].0),
                        tn[j as int].1,
                    ) + flat_table(prefix@, tn, j + 1));
                }
                j += 1;
            }
            proof {
                assert(flat_table(prefix@, tn, n as int) =~= Seq::<(Seq<char>, Node)>::empty());
            }
        },
        Value::Array(vs) => {
            let ghost an = nodes_of(vs@, 0);
            proof {
                lemma_nodes_of_index(vs@, 0);
            }
            let table_first = vs.len() > 0 && vs[0].is_table();
            if table_first {
                let n = vs.len();
                let mut j: usize = 0;
                while j < n
                    invariant
                        j <= n,
                        unique_keys(store.entries()),
                        apply_entries(
                            entries_map(store.entries()),
                            flat_array(prefix@, an, j as int),
                        ) == apply_entries(
                            entries_map(old(store).entries()),
                            flat_of(prefix@, value@),
                        ),
                    decreases n - j,
                {
                    let ghost pre_entries = store.entries();
                    let mut k = prefix.to_owned();
                    k.append("[");
                    let digits = u64_to_decimal(j as u64);
                    k.append(digits.as_str());
                    k.append("]");
                    proof {
                        assert(k@ =~= array_child_key(prefix@, j as int));
                        assert(decreases_to!(*value => value->Array_0));
                        assert(decreases_to!(*vs => vs@));
                        assert(decreases_to!(vs@ => vs@[j as int]));
                    }
                    flatten_value(store, k.as_str(), &vs[j]);
                    proof {
                        lemma_apply_entries_app(
                            entries_map(pre_entries),
                            flat_of(array_child_key(prefix@, j as int), an[j as int]),
                            flat_array(prefix@, an, j + 1),
                        );
                        assert(flat_array(prefix@, an, j as int) == flat_of(
                            array_child_key(prefix@, j as int),
                            an[j as int],
                        ) + flat_array(prefix@, an, j + 1));
                    }
                    j += 1;
                }
                proof {
                    assert(flat_array(prefix@, an, n as int) =~= Seq::<(Seq<char>, Node)>::empty());
                }
            } else if !prefix.is_empty() {
                let key = prefix.to_owned();
                let whole = clone_value(value);
                store.insert(key, whole);
                proof {
                    let e = (prefix@, value@);
                    let s1 = seq![e];
                    assert(flat_of(prefix@, value@) =~= s1);
                    assert(s1.len() == 1 && s1[0] == e);
                    assert(s1.drop_first() =~= Seq::<(Seq<char>, Node)>::empty());
                    let m0 = entries_map(old(store).entries());
                    assert(apply_entries(m0, s1) == apply_entries(
                        m0.insert(e.0, e.1),
                        s1.drop_first(),
                    ));
                }
            } else {
                proof {
                    assert(flat_of(prefix@, value@) =~= Seq::<(Seq<char>, Node)>::empty());
                }
            }
        },
        _ => {
            if !prefix.is_empty() {
                let key = prefix.to_owned();
                let whole = clone_value(value);
                store.insert(key, whole);
                proof {
                    let e = (prefix@, value@);
                    let s1 = seq![e];
                    assert(flat_of(prefix@, value@) =~= s1);
                    assert(s1.len() == 1 && s1[0] == e);
                    assert(s1.drop_first() =~= Seq::<(Seq<char>, Node)>::empty());
                    let m0 = entries_map(old(store).entries());
                    assert(apply_entries(m0, s1) == apply_entries(
                        m0.insert(e.0, e.1),
                        s1.drop_first(),
                    ));
                }
            } else {
                proof {
                    assert(flat_of(prefix@, value@) =~= Seq::<(Seq<char>, Node)>::empty());
                }
            }
        },
    }
}

} // verus!
