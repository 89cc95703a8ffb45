//! The store capability: a minimal map interface — insert, exact-match get,
//! iterate — over flattened entries, so that one read surface can sit on
//! interchangeable backings. Two backings live here: an insertion-ordered
//! list store (the default) and a store kept sorted by key. A third backing
//! over an outside ordered map is in its own module.

use vstd::prelude::*;

use crate::node::{
    entries_map, has_entry_key, lemma_entries_map_char, lemma_entries_map_insert_at,
    lemma_entries_map_push, lemma_entries_map_update, unique_keys, Node,
};
use crate::strorder::{
    chars_compare, chars_lt, chars_of, lemma_chars_lt_trans, lemma_chars_lt_trichotomy,
};
use crate::value::{clone_value, lemma_table_nodes_of_index, table_nodes_of, Value};

verus! {

/// The store capability. `entries()` is the store's contents in its own
/// iteration order; what `insert` does is stated on the map those entries
/// denote, so any associative backing can implement it.
pub trait Store: Sized + Send + Sync + 'static {
    /// The entries held, in the store's iteration order.
    spec fn entries(&self) -> Seq<(Seq<char>, Node)>;

    /// A store with nothing in it.
    fn empty() -> (s: Self)
        ensures
            s.entries() == Seq::<(Seq<char>, Node)>::empty(),
    ;

    /// Add, or overwrite, the entry for `key`.
    fn insert(&mut self, key: String, value: Value)
        requires
            unique_keys(old(self).entries()),
        ensures
            unique_keys(final(self).entries()),
            entries_map(final(self).entries()) == entries_map(old(self).entries()).insert(
                key@,
                value@,
            ),
    ;

    /// Exact-match lookup; absence is an answer, not an error.
    fn get<'a>(&'a self, key: &str) -> (r: Option<&'a Value>)
        requires
            unique_keys(self.entries()),
        ensures
            match r {
                Some(v) => entries_map(self.entries()).contains_key(key@) && v@ == entries_map(
                    self.entries(),
                )[key@],
                None => !entries_map(self.entries()).contains_key(key@),
            },
    ;

    /// Every entry exactly once, in the store's iteration order.
    fn iter(&self) -> (v: Vec<(String, Value)>)
        ensures
            v@.len() == self.entries().len(),
            forall|i: int|
                0 <= i < v@.len() ==> v@[i].0@ == self.entries()[i].0 && v@[i].1@
                    == self.entries()[i].1,
    ;
}

/// The index of the entry carrying `key`, if any.
#[verifier::loop_isolation(false)]
fn find_key(items: &Vec<(String, Value)>, key: &String) -> (r: Option<usize>)
    ensures
        match r {
            Some(i) => i < items@.len() && items@[i as int].0@ == key@,
            None => forall|p: int| 0 <= p < items@.len() ==> items@[p].0@ != key@,
        },
{
    let mut i: usize = 0;
    while i < items.len()
        invariant
            i <= items@.len(),
            forall|p: int| 0 <= p < i ==> items@[p].0@ != key@,
        decreases items@.len() - i,
    {
        if items[i].0 == *key {
            return Some(i);
        }
        i += 1;
    }
    None
}

/// A copy of an item list, pair by pair.
#[verifier::loop_isolation(false)]
fn clone_items(items: &Vec<(String, Value)>) -> (v: Vec<(String, Value)>)
    ensures
        v@.len() == items@.len(),
        forall|p: int|
            0 <= p < v@.len() ==> v@[p].0@ == items@[p].0@ && v@[p].1@ == items@[p].1@,
{
    let mut v: Vec<(String, Value)> = Vec::new();
    let mut i: usize = 0;
    while i < items.len()
        invariant
            i <= items@.len(),
            v@.len() == i,
            forall|p: int| 0 <= p < i ==> v@[p].0@ == items@[p].0@ && v@[p].1@ == items@[p].1@,
        decreases items@.len() - i,
    {
        let pair = &items[i];
        v.push((pair.0.clone(), clone_value(&pair.1)));
        i += 1;
    }
    v
}

/// The default backing: entries in insertion order, linear lookup.
pub struct ListStore {
    items: Vec<(String, Value)>,
}

/// The backing `Config` uses when none is chosen.
pub type DefaultStore = ListStore;

impl Store for ListStore {
    closed spec fn entries(&self) -> Seq<(Seq<char>, Node)> {
        table_nodes_of(self.items@, 0)
    }

    fn empty() -> (s: Self) {
        let s = ListStore { items: Vec::new() };
        proof {
            lemma_table_nodes_of_index(s.items@, 0);
            assert(s.entries() =~= Seq::<(Seq<char>, Node)>::empty());
        }
        s
    }

    fn insert(&mut self, key: String, value: Value) {
        let ghost gk = key@;
        let ghost gv = value@;
        let ghost es0 = self.entries();
        proof {
            lemma_table_nodes_of_index(self.items@, 0);
        }
        match find_key(&self.items, &key) {
            Some(i) => {
                self.items[i] = (key, value);
                proof {
                    lemma_table_nodes_of_index(self.items@, 0);
                    assert(self.items@ =~= old(self).items@.update(i as int, self.items@[i as int]));
                    assert(self.entries() =~= es0.update(i as int, (gk, gv)));
                    lemma_entries_map_update(es0, i as int, gk, gv);
                }
            },
            None => {
                self.items.push((key, value));
                proof {
                    lemma_table_nodes_of_index(self.items@, 0);
                    assert(self.entries() =~= es0.push((gk, gv)));
                    assert(!has_entry_key(es0, gk));
                    lemma_entries_map_push(es0, gk, gv);
                }
            },
        }
    }

    fn get<'a>(&'a self, key: &str) -> (r: Option<&'a Value>) {
        proof {
            lemma_table_nodes_of_index(self.items@, 0);
            lemma_entries_map_char(self.entries(), key@);
        }
        let k = key.to_owned();
        match find_key(&self.items, &k) {
            Some(i) => {
                proof {
                    assert(self.entries()[i as int].0 == key@);
                    assert(entries_map(self.entries())[key@] == self.entries()[i as int].1);
                }
                Some(&self.items[i].1)
            },
            None => {
                proof {
                    assert(!has_entry_key(self.entries(), key@));
                }
                None
            },
        }
    }

    fn iter(&self) -> (v: Vec<(String, Value)>) {
        proof {
            lemma_table_nodes_of_index(self.items@, 0);
        }
        clone_items(&self.items)
    }
}

/// Keys in strictly increasing lexicographic order.
pub open spec fn sorted_keys(es: Seq<(Seq<char>, Node)>) -> bool {
    forall|i: int, j: int| 0 <= i < j < es.len() ==> chars_lt(es[i].0, es[j].0)
}

/// Strictly sorted keys are unique.
pub proof fn lemma_sorted_unique(es: Seq<(Seq<char>, Node)>)
    requires
        sorted_keys(es),
    ensures
        unique_keys(es),
{
    assert forall|i: int, j: int| 0 <= i < j < es.len() implies es[i].0 != es[j].0 by {
        lemma_chars_lt_trichotomy(es[i].0, es[j].0);
    }
}

/// A backing kept sorted by key: deterministic, key-ordered iteration.
pub struct SortedStore {
    items: Vec<(String, Value)>,
}

impl SortedStore {
    #[verifier::type_invariant]
    spec fn sorted_inv(self) -> bool {
        sorted_keys(table_nodes_of(self.items@, 0))
    }

    /// Every entry exactly once, in strictly increasing key order.
    pub fn iter_sorted(&self) -> (v: Vec<(String, Value)>)
        ensures
            sorted_keys(self.entries()),
            v@.len() == self.entries().len(),
            forall|i: int|
                0 <= i < v@.len() ==> v@[i].0@ == self.entries()[i].0 && v@[i].1@
                    == self.entries()[i].1,
    {
        proof {
            use_type_invariant(self);
            lemma_table_nodes_of_index(self.items@, 0);
        }
        clone_items(&self.items)
    }
}

/// The position at which `kc` sits, or would be inserted, in a sorted item
/// list; the second component tells whether the key is already there.
#[verifier::loop_isolation(false)]
fn sorted_position(items: &Vec<(String, Value)>, kc: &Vec<char>) -> (r: (usize, bool))
    ensures
        r.0 <= items@.len(),
        forall|p: int| 0 <= p < r.0 ==> chars_lt(items@[p].0@, kc@),
        r.1 ==> r.0 < items@.len() && items@[r.0 as int].0@ == kc@,
        !r.1 ==> r.0 == items@.len() || chars_lt(kc@, items@[r.0 as int].0@),
{
    let mut i: usize = 0;
    while i < items.len()
        invariant
            i <= items@.len(),
            forall|p: int| 0 <= p < i ==> chars_lt(items@[p].0@, kc@),
        decreases items@.len() - i,
    {
        let ec = chars_of(items[i].0.as_str());
        match chars_compare(&ec, kc) {
            core::cmp::Ordering::Less => {
                i += 1;
            },
            core::cmp::Ordering::Equal => {
                return (i, true);
            },
            core::cmp::Ordering::Greater => {
                return (i, false);
            },
        }
    }
    (i, false)
}

/// Insert into a sorted item list, keeping it sorted.
#[verifier::loop_isolation(false)]
fn insert_sorted(items: &mut Vec<(String, Value)>, key: String, value: Value)
    requires
        sorted_keys(table_nodes_of(old(items)@, 0)),
    ensures
        sorted_keys(table_nodes_of(final(items)@, 0)),
        entries_map(table_nodes_of(final(items)@, 0)) == entries_map(
            table_nodes_of(old(items)@, 0),
        ).insert(key@, value@),
{
    let ghost gk = key@;
    let ghost gv = value@;
    let ghost es0 = table_nodes_of(old(items)@, 0);
    proof {
        lemma_table_nodes_of_index(old(items)@, 0);
        lemma_sorted_unique(es0);
    }
    let kc = chars_of(key.as_str());
    let (i, present) = sorted_position(items, &kc);
    if present {
        let _replaced = items.remove(i);
        items.insert(i, (key, value));
        proof {
            lemma_table_nodes_of_index(items@, 0);
            assert(items@ =~= old(items)@.update(i as int, items@[i as int]));
            let es1 = table_nodes_of(items@, 0);
            assert(es1 =~= es0.update(i as int, (gk, gv)));
            lemma_entries_map_update(es0, i as int, gk, gv);
            assert forall|p: int, q: int| 0 <= p < q < es1.len() implies chars_lt(
                es1[p].0,
                es1[q].0,
            ) by {
                assert(es1[p].0 == es0[p].0 && es1[q].0 == es0[q].0);
            }
        }
    } else {
        proof {
            // The new key differs from every present key.
            assert forall|p: int| 0 <= p < es0.len() implies es0[p].0 != gk by {
                if p < i {
                    lemma_chars_lt_trichotomy(es0[p].0, gk);
                } else {
                    if p > i {
                        assert(chars_lt(es0[i as int].0, es0[p].0));
                        lemma_chars_lt_trans(gk, es0[i as int].0, es0[p].0);
                    }
                    lemma_chars_lt_trichotomy(gk, es0[p].0);
                }
            }
            assert(!has_entry_key(es0, gk));
        }
        items.insert(i, (key, value));
        proof {
            lemma_table_nodes_of_index(items@, 0);
            let es1 = table_nodes_of(items@, 0);
            assert(es1 =~= es0.insert(i as int, (gk, gv)));
            lemma_entries_map_insert_at(es0, i as int, gk, gv);
            assert forall|p: int, q: int| 0 <= p < q < es1.len() implies chars_lt(
                es1[p].0,
                es1[q].0,
            ) by {
                let pi = i as int;
                if p < pi && q < pi {
                    assert(es1[p].0 == es0[p].0 && es1[q].0 == es0[q].0);
                } else if p < pi && q == pi {
                    assert(es1[p].0 == es0[p].0 && es1[q].0 == gk);
                } else if p < pi && q > pi {
                    assert(es1[p].0 == es0[p].0 && es1[q].0 == es0[q - 1].0);
                } else if p == pi {
                    assert(es1[p].0 == gk && es1[q].0 == es0[q - 1].0);
                    if q - 1 == pi {
                        assert(chars_lt(gk, es0[pi].0));
                    } else {
                        assert(chars_lt(es0[pi].0, es0[q - 1].0));
                        lemma_chars_lt_trans(gk, es0[pi].0, es0[q - 1].0);
                    }
                } else {
                    assert(es1[p].0 == es0[p - 1].0 && es1[q].0 == es0[q - 1].0);
                }
            }
        }
    }
}

impl Store for SortedStore {
    closed spec fn entries(&self) -> Seq<(Seq<char>, Node)> {
        table_nodes_of(self.items@, 0)
    }

    fn empty() -> (s: Self) {
        let items: Vec<(String, Value)> = Vec::new();
        proof {
            lemma_table_nodes_of_index(items@, 0);
            assert(table_nodes_of(items@, 0) =~= Seq::<(Seq<char>, Node)>::empty());
        }
        let s = SortedStore { items };
        s
    }

    fn insert(&mut self, key: String, value: Value) {
        proof {
            use_type_invariant(&*self);
        }
        let mut items: Vec<(String, Value)> = Vec::new();
        proof {
            lemma_table_nodes_of_index(items@, 0);
            assert(table_nodes_of(items@, 0) =~= Seq::<(Seq<char>, Node)>::empty());
        }
        core::mem::swap(&mut self.items, &mut items);
        insert_sorted(&mut items, key, value);
        proof {
            lemma_sorted_unique(table_nodes_of(items@, 0));
        }
        self.items = items;
    }

    fn get<'a>(&'a self, key: &str) -> (r: Option<&'a Value>) {
        proof {
            lemma_table_nodes_of_index(self.items@, 0);
            lemma_entries_map_char(self.entries(), key@);
        }
        let k = key.to_owned();
        match find_key(&self.items, &k) {
            Some(i) => {
                proof {
                    assert(self.entries()[i as int].0 == key@);
                    assert(entries_map(self.entries())[key@] == self.entries()[i as int].1);
                }
                Some(&self.items[i].1)
            },
            None => {
                proof {
                    assert(!has_entry_key(self.entries(), key@));
                }
                None
            },
        }
    }

    fn iter(&self) -> (v: Vec<(String, Value)>) {
        proof {
            lemma_table_nodes_of_index(self.items@, 0);
        }
        clone_items(&self.items)
    }
}

} // verus!
