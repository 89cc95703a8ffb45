//! The public read surface: an immutable configuration handle over one
//! populated store, behind shared reference-counted ownership. Loading
//! parses the text, flattens the tree into the chosen backing, and wraps
//! it; afterwards every operation is total — lookups answer with absence,
//! never an error, and handles share the store without copying it.

use std::sync::Arc;

use vstd::prelude::*;

use crate::error::Error;
use crate::flatten::{doc_map, flatten_value};
use crate::node::{
    entries_map, has_entry_key, lemma_entries_map_char, unique_keys, Node,
};
use crate::parse::{parse_toml, toml_parse};
use crate::render::{render_entry, render_value};
use crate::store::{lemma_sorted_unique, sorted_keys, DefaultStore, SortedStore, Store};
use crate::strorder::chars_lt;
use crate::value::{clone_value, Value};

verus! {

/// Relies on `Arc::clone`: the returned handle refers to the same value as
/// the argument.
#[verifier::external_body]
fn arc_clone<T>(a: &Arc<T>) -> (r: Arc<T>)
    ensures
        r == *a,
{
    Arc::clone(a)
}

/// An immutable configuration: one populated store behind a shared,
/// reference-counted handle. Cloning a handle shares the store; no
/// operation mutates it after construction.
pub struct Config<S: Store = DefaultStore> {
    store: Arc<S>,
}

impl<S: Store> Config<S> {
    #[verifier::type_invariant]
    spec fn inv(self) -> bool {
        unique_keys((*self.store).entries())
    }

    /// The entries of the backing store, in its iteration order.
    pub closed spec fn entry_seq(&self) -> Seq<(Seq<char>, Node)> {
        (*self.store).entries()
    }

    /// The mapping this configuration answers lookups from.
    pub closed spec fn map_view(&self) -> Map<Seq<char>, Node> {
        entries_map(self.entry_seq())
    }

    /// Whether this configuration is what loading `text` yields.
    pub open spec fn loaded_from(&self, text: Seq<char>) -> bool {
        &&& toml_parse(text) is Some
        &&& self.map_view() == doc_map(toml_parse(text)->0)
    }

    /// Load a configuration from source text into this backing. Fails
    /// exactly when the external parser rejects the text; the flattening
    /// itself never fails.
    pub fn from_toml_with(content: &str) -> (r: Result<Self, Error>)
        ensures
            match r {
                Ok(c) => c.loaded_from(content@),
                Err(e) => toml_parse(content@) is None && e is Toml,
            },
    {
        match parse_toml(content) {
            Ok(root) => {
                let mut store = S::empty();
                flatten_value(&mut store, "", &root);
                proof {
                    reveal_strlit("");
                    assert(""@ =~= Seq::<char>::empty());
                    assert(entries_map(Seq::<(Seq<char>, Node)>::empty()) =~= Map::<
                        Seq<char>,
                        Node,
                    >::empty());
                }
                Ok(Config { store: Arc::new(store) })
            },
            Err(msg) => Err(Error::Toml(msg)),
        }
    }

    /// A new handle sharing the same underlying store: no data is copied,
    /// and every lookup through either handle answers alike.
    pub fn shared(&self) -> (r: Self)
        ensures
            r.entry_seq() == self.entry_seq(),
            r.map_view() == self.map_view(),
    {
        proof {
            use_type_invariant(self);
        }
        Config { store: arc_clone(&self.store) }
    }

    /// Raw lookup by flattened key: exact string match, no coercion.
    pub fn get<'a>(&'a self, key: &str) -> (r: Option<&'a Value>)
        ensures
            match r {
                Some(v) => self.map_view().contains_key(key@) && v@ == self.map_view()[key@],
                None => !self.map_view().contains_key(key@),
            },
    {
        proof {
            use_type_invariant(self);
        }
        let st: &S = &self.store;
        st.get(key)
    }

    /// The string under `key`, raw; absent when the key is missing or the
    /// value is not a string.
    pub fn get_string<'a>(&'a self, key: &str) -> (r: Option<&'a str>)
        ensures
            match r {
                Some(s) => self.map_view().contains_key(key@) && self.map_view()[key@]
                    == Node::Str(s@),
                None => !(self.map_view().contains_key(key@) && self.map_view()[key@] is Str),
            },
    {
        match self.get(key) {
            Some(v) => match v {
                Value::Str(s) => Some(s.as_str()),
                _ => None,
            },
            None => None,
        }
    }

    /// The integer under `key`; absent when the key is missing or the value
    /// is not an integer.
    pub fn get_int(&self, key: &str) -> (r: Option<i64>)
        ensures
            match r {
                Some(i) => self.map_view().contains_key(key@) && self.map_view()[key@]
                    == Node::Int(i),
                None => !(self.map_view().contains_key(key@) && self.map_view()[key@] is Int),
            },
    {
        match self.get(key) {
            Some(v) => match v {
                Value::Int(i) => Some(*i),
                _ => None,
            },
            None => None,
        }
    }

    /// The boolean under `key`; absent when the key is missing or the value
    /// is not a boolean.
    pub fn get_bool(&self, key: &str) -> (r: Option<bool>)
        ensures
            match r {
                Some(b) => self.map_view().contains_key(key@) && self.map_view()[key@]
                    == Node::Bool(b),
                None => !(self.map_view().contains_key(key@) && self.map_view()[key@] is Bool),
            },
    {
        match self.get(key) {
            Some(v) => match v {
                Value::Bool(b) => Some(*b),
                _ => None,
            },
            None => None,
        }
    }

    /// The bits of the float under `key`; absent when the key is missing or
    /// the value is not a float. The caller reconstitutes the float from
    /// its bits.
    pub fn get_float_bits(&self, key: &str) -> (r: Option<u64>)
        ensures
            match r {
                Some(b) => self.map_view().contains_key(key@) && self.map_view()[key@] is Float
                    && self.map_view()[key@]->Float_0 == b,
                None => !(self.map_view().contains_key(key@)
                    && self.map_view()[key@] is Float),
            },
    {
        match self.get(key) {
            Some(v) => match v {
                Value::Float(bits, _) => Some(*bits),
                _ => None,
            },
            None => None,
        }
    }

    /// Every entry rendered to text, in the store's iteration order:
    /// strings keep their raw content, everything else its canonical
    /// display form.
    pub fn flatten(&self) -> (out: Vec<(String, String)>)
        ensures
            out@.len() == self.entry_seq().len(),
            forall|i: int|
                0 <= i < out@.len() ==> out@[i].0@ == self.entry_seq()[i].0 && out@[i].1@
                    == render_entry(self.entry_seq()[i].1),
    {
        let st: &S = &self.store;
        let items = st.iter();
        let mut out: Vec<(String, String)> = Vec::new();
        let n = items.len();
        let mut i: usize = 0;
        while i < n
            invariant
                n == items@.len(),
                items@.len() == self.entry_seq().len(),
                forall|p: int|
                    0 <= p < items@.len() ==> items@[p].0@ == self.entry_seq()[p].0
                        && items@[p].1@ == self.entry_seq()[p].1,
                i <= n,
                out@.len() == i,
                forall|p: int|
                    0 <= p < i ==> out@[p].0@ == self.entry_seq()[p].0 && out@[p].1@
                        == render_entry(self.entry_seq()[p].1),
            decreases n - i,
        {
            let pair = &items[i];
            out.push((pair.0.clone(), render_value(&pair.1)));
            i += 1;
        }
        out
    }

    /// Every entry rendered to text and materialized sorted by key: one
    /// deterministic representation, whatever the backing's own iteration
    /// order.
    pub fn flatten_into(&self) -> (out: Vec<(String, String)>)
        ensures
            forall|i: int, j: int|
                0 <= i < j < out@.len() ==> chars_lt(out@[i].0@, out@[j].0@),
            forall|i: int|
                0 <= i < out@.len() ==> self.map_view().contains_key(out@[i].0@) && out@[i].1@
                    == render_entry(self.map_view()[out@[i].0@]),
            forall|k: Seq<char>|
                self.map_view().contains_key(k) ==> exists|i: int|
                    0 <= i < out@.len() && out@[i].0@ == k,
    {
        proof {
            use_type_invariant(self);
        }
        let st: &S = &self.store;
        let items = st.iter();
        let mut sorted = SortedStore::empty();
        let n = items.len();
        let mut i: usize = 0;
        while i < n
            invariant
                n == items@.len(),
                items@.len() == self.entry_seq().len(),
                forall|p: int|
                    0 <= p < items@.len() ==> items@[p].0@ == self.entry_seq()[p].0
                        && items@[p].1@ == self.entry_seq()[p].1,
                i <= n,
                unique_keys(sorted.entries()),
                entries_map(sorted.entries()) == entries_map(
                    self.entry_seq().subrange(0, i as int),
                ),
            decreases n - i,
        {
            let ghost pre = sorted.entries();
            let pair = &items[i];
            sorted.insert(pair.0.clone(), clone_value(&pair.1));
            proof {
                let head = self.entry_seq().subrange(0, i as int);
                crate::node::lemma_entries_map_snoc(head, items@[i as int].0@, items@[i as int].1@);
                assert(head.push((items@[i as int].0@, items@[i as int].1@)) =~= self.entry_seq()
                    .subrange(0, i + 1));
            }
            i += 1;
        }
        proof {
            assert(self.entry_seq().subrange(0, n as int) =~= self.entry_seq());
        }
        let spairs = sorted.iter_sorted();
        let ghost ses = sorted.entries();
        proof {
            lemma_sorted_unique(ses);
        }
        let mut out: Vec<(String, String)> = Vec::new();
        let m = spairs.len();
        let mut p: usize = 0;
        while p < m
            invariant
                m == spairs@.len(),
                spairs@.len() == ses.len(),
                sorted_keys(ses),
                unique_keys(ses),
                entries_map(ses) == self.map_view(),
                forall|q: int|
                    0 <= q < ses.len() ==> spairs@[q].0@ == ses[q].0 && spairs@[q].1@
                        == ses[q].1,
                p <= m,
                out@.len() == p,
                forall|q: int|
                    0 <= q < p ==> out@[q].0@ == ses[q].0 && out@[q].1@ == render_entry(
                        ses[q].1,
                    ),
            decreases m - p,
        {
            let pair = &spairs[p];
            out.push((pair.0.clone(), render_value(&pair.1)));
            p += 1;
        }
        proof {
            assert forall|i2: int, j2: int| 0 <= i2 < j2 < out@.len() implies chars_lt(
                out@[i2].0@,
                out@[j2].0@,
            ) by {
                assert(out@[i2].0@ == ses[i2].0 && out@[j2].0@ == ses[j2].0);
            }
            assert forall|i2: int|
                0 <= i2 < out@.len() implies self.map_view().contains_key(out@[i2].0@)
                && out@[i2].1@ == render_entry(self.map_view()[out@[i2].0@]) by {
                lemma_entries_map_char(ses, ses[i2].0);
                assert(has_entry_key(ses, ses[i2].0));
            }
            assert forall|k: Seq<char>| self.map_view().contains_key(k) implies exists|i2: int|
                0 <= i2 < out@.len() && out@[i2].0@ == k by {
                lemma_entries_map_char(ses, k);
                let w = choose|w: int| 0 <= w < ses.len() && ses[w].0 == k;
                assert(out@[w].0@ == k);
            }
        }
        out
    }
}

impl Config<DefaultStore> {
    /// Load a configuration from source text into the default backing.
    pub fn from_toml(content: &str) -> (r: Result<Self, Error>)
        ensures
            match r {
                Ok(c) => c.loaded_from(content@),
                Err(e) => toml_parse(content@) is None && e is Toml,
            },
    {
        Self::from_toml_with(content)
    }
}

/// Two handles over the same view answer every lookup alike: `shared`
/// makes the views equal, and each lookup's answer is a function of the
/// view alone, so a shared handle's results are the original's. No
/// operation mutates a store after construction, through either handle.
pub proof fn lemma_shared_lookups_agree<S: Store>(a: Config<S>, b: Config<S>, k: Seq<char>)
    requires
        a.map_view() == b.map_view(),
    ensures
        a.map_view().contains_key(k) == b.map_view().contains_key(k),
        a.map_view().contains_key(k) ==> a.map_view()[k] == b.map_view()[k],
{
}

/// Loading the same source text twice gives configurations that agree on
/// every key and on every rendered value, whatever the two backings and
/// their iteration orders: the flattened outputs are equal as mappings.
pub proof fn lemma_load_idempotent<S1: Store, S2: Store>(
    c1: Config<S1>,
    c2: Config<S2>,
    text: Seq<char>,
)
    requires
        c1.loaded_from(text),
        c2.loaded_from(text),
    ensures
        c1.map_view() == c2.map_view(),
        forall|k: Seq<char>|
            c1.map_view().contains_key(k) ==> render_entry(c1.map_view()[k]) == render_entry(
                c2.map_view()[k],
            ),
{
}

} // verus!
