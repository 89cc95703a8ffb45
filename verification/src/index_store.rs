//! A store backing over an outside insertion-ordered map. The map is opaque
//! here: a name, `index_entries`, stands for what it holds, in its own
//! order, and each method the store needs is taken on trust with the
//! contract its source documents — an existing key keeps its place and
//! takes the new value, a new key is appended last, iteration follows that
//! order. The store capability is then implemented, verified, on top of
//! those contracts.

use indexmap::IndexMap;

use vstd::prelude::*;

use crate::node::{
    has_entry_key, lemma_entries_map_char, lemma_entries_map_push, lemma_entries_map_update,
    unique_keys, Node,
};
use crate::store::Store;
use crate::value::{clone_value, Value};

verus! {

#[verifier::external_type_specification]
#[verifier::external_body]
#[verifier::reject_recursive_types(K)]
#[verifier::reject_recursive_types(V)]
#[verifier::reject_recursive_types(S)]
pub struct ExIndexMap<K, V, S>(IndexMap<K, V, S>);

/// What the ordered map holds, as the library models it: its entries in
/// the map's own order.
pub uninterp spec fn index_entries(m: IndexMap<String, Value>) -> Seq<(Seq<char>, Node)>;

/// Relies on `IndexMap::new`: a map with nothing in it.
#[verifier::external_body]
fn im_new() -> (m: IndexMap<String, Value>)
    ensures
        index_entries(m) == Seq::<(Seq<char>, Node)>::empty(),
{
    IndexMap::new()
}

/// Relies on `IndexMap::insert`: an existing key keeps its place in the
/// order and takes the new value; a new key is appended last.
#[verifier::external_body]
fn im_insert(m: &mut IndexMap<String, Value>, key: String, value: Value)
    ensures
        has_entry_key(index_entries(*old(m)), key@) ==> exists|i: int|
            0 <= i < index_entries(*old(m)).len() && #[trigger] index_entries(*old(m))[i].0
                == key@ && index_entries(*final(m)) == index_entries(*old(m)).update(
                i,
                (key@, value@),
            ),
        !has_entry_key(index_entries(*old(m)), key@) ==> index_entries(*final(m))
            == index_entries(*old(m)).push((key@, value@)),
{
    m.insert(key, value);
}

/// Relies on `IndexMap::get`: the value stored for the key, when present.
#[verifier::external_body]
fn im_get<'a>(m: &'a IndexMap<String, Value>, key: &str) -> (r: Option<&'a Value>)
    ensures
        match r {
            Some(v) => exists|i: int|
                0 <= i < index_entries(*m).len() && #[trigger] index_entries(*m)[i] == (
                    key@,
                    v@,
                ),
            None => !has_entry_key(index_entries(*m), key@),
        },
{
    m.get(key)
}

/// Relies on `IndexMap::iter`: every entry exactly once, in the map's
/// order; the pairs are copied out through the library's own deep copy.
#[verifier::external_body]
fn im_iter(m: &IndexMap<String, Value>) -> (v: Vec<(String, Value)>)
    ensures
        v@.len() == index_entries(*m).len(),
        forall|i: int|
            0 <= i < v@.len() ==> v@[i].0@ == index_entries(*m)[i].0 && v@[i].1@
                == index_entries(*m)[i].1,
{
    m.iter().map(|(k, c)| (k.clone(), clone_value(c))).collect()
}

impl Store for IndexMap<String, Value> {
    open spec fn entries(&self) -> Seq<(Seq<char>, Node)> {
        index_entries(*self)
    }

    fn empty() -> (s: Self) {
        im_new()
    }

    fn insert(&mut self, key: String, value: Value) {
        let ghost es0 = index_entries(*self);
        let ghost gk = key@;
        let ghost gv = value@;
        im_insert(self, key, value);
        proof {
            if has_entry_key(es0, gk) {
                let i = choose|i: int|
                    0 <= i < es0.len() && #[trigger] es0[i].0 == gk && index_entries(*self)
                        == es0.update(i, (gk, gv));
                lemma_entries_map_update(es0, i, gk, gv);
            } else {
                lemma_entries_map_push(es0, gk, gv);
            }
        }
    }

    fn get<'a>(&'a self, key: &str) -> (r: Option<&'a Value>) {
        let r = im_get(self, key);
        proof {
            lemma_entries_map_char(index_entries(*self), key@);
            if r is Some {
                let i = choose|i: int|
                    0 <= i < index_entries(*self).len() && #[trigger] index_entries(*self)[i]
                        == (key@, r->0@);
                assert(has_entry_key(index_entries(*self), key@));
            }
        }
        r
    }

    fn iter(&self) -> (v: Vec<(String, Value)>) {
        im_iter(self)
    }
}

} // verus!
