//! In-memory key-value store with the interface of the logged one.

use vstd::prelude::*;

use crate::ordmap::entries_within;
use crate::ordmap::entry_views;
use crate::ordmap::is_range;
use crate::ordmap::law_entries_of_all;
use crate::ordmap::law_entries_within;
use crate::ordmap::within;
use crate::ordmap::Bound;
use crate::ordmap::BoundModel;
use crate::ordmap::Key;
use crate::ordmap::OrdMap;
use crate::wal::error::Error;

verus! {

/// A key-value store that lives in memory only.
pub struct Store<K: Key, V: View> {
    map: OrdMap<K, V>,
}

impl<K: Key, V: View> View for Store<K, V> {
    type V = Map<K::V, V::V>;

    closed spec fn view(&self) -> Map<K::V, V::V> {
        self.map@
    }
}

impl<K: Key, V: View> Store<K, V> {
    pub closed spec fn wf(&self) -> bool {
        &&& self.map.wf()
        &&& self.map@.dom().finite()
    }

    /// Opens an empty store. The path is accepted for parity with the logged
    /// store and ignored; no data is ever written to disk.
    pub fn open(_path: &str) -> (r: Result<Self, Error>)
        ensures
            r is Ok,
            r->Ok_0.wf(),
            r->Ok_0@ == Map::<K::V, V::V>::empty(),
    {
        let map: OrdMap<K, V> = OrdMap::new();
        proof {
            map.lemma_keys();
        }
        Ok(Store { map })
    }

    /// A reference to the value stored under `key`, if any.
    pub fn get<'a>(&'a self, key: &K) -> (r: Option<&'a V>)
        requires
            self.wf(),
        ensures
            match r {
                Some(v) => self@.dom().contains(key@) && v@ == self@[key@],
                None => !self@.dom().contains(key@),
            },
    {
        self.map.get(key)
    }

    /// Inserts or overwrites `key`. Never fails.
    pub fn set(&mut self, key: K, value: V) -> (r: Result<(), Error>)
        requires
            old(self).wf(),
        ensures
            final(self).wf(),
            r is Ok,
            final(self)@ == old(self)@.insert(key@, value@),
    {
        let _old = self.map.insert(key, value);
        Ok(())
    }

    /// Removes `key`. Never fails.
    pub fn delete(&mut self, key: &K) -> (r: Result<(), Error>)
        requires
            old(self).wf(),
        ensures
            final(self).wf(),
            r is Ok,
            final(self)@ == old(self)@.remove(key@),
    {
        let _old = self.map.remove(key);
        Ok(())
    }

    /// The entries whose keys fall between the two ends, in ascending key order.
    pub fn scan<'a>(&'a self, lower: Bound<K>, upper: Bound<K>) -> (r: Vec<(&'a K, &'a V)>)
        requires
            self.wf(),
            is_range::<K>(lower@, upper@),
        ensures
            entry_views(r@) == entries_within::<K, V::V>(self@, lower@, upper@),
    {
        self.map.range(&lower, &upper)
    }

    /// A store holds finitely many entries.
    pub proof fn lemma_finite(&self)
        requires
            self.wf(),
        ensures
            self@.dom().finite(),
    {
    }

    /// A scan lists the entries between the two ends and no others, in strictly
    /// ascending key order, so each once. One without ends lists as many entries as
    /// the store has, so none exactly when the store is empty.
    pub proof fn law_scan(&self, lower: BoundModel<K::V>, upper: BoundModel<K::V>)
        requires
            self.wf(),
        ensures
            ({
                let es = entries_within::<K, V::V>(self@, lower, upper);
                &&& forall|i: int, j: int|
                    0 <= i < j < es.len() ==> K::before((#[trigger] es[i]).0, (#[trigger] es[j]).0)
                &&& forall|k: K::V, v: V::V| #[trigger]
                    es.contains((k, v)) <==> within::<K>(k, lower, upper) && self@.dom().contains(k)
                        && self@[k] == v
            }),
            entries_within::<K, V::V>(
                self@,
                BoundModel::Unbounded,
                BoundModel::Unbounded,
            ).len() == self@.dom().len(),
            self@.dom().len() == 0 <==> self@ == Map::<K::V, V::V>::empty(),
    {
        let es = entries_within::<K, V::V>(self@, lower, upper);
        law_entries_within::<K, V::V>(self@, lower, upper);
        law_entries_of_all::<K, V::V>(self@);
        assert forall|k: K::V, v: V::V| #[trigger]
            es.contains((k, v)) implies within::<K>(k, lower, upper) && self@.dom().contains(k)
            && self@[k] == v by {
            let i = choose|i: int| 0 <= i < es.len() && es[i] == (k, v);
        }
        if self@.dom().len() == 0 {
            assert(self@.dom() =~= Set::<K::V>::empty());
            assert(self@ =~= Map::<K::V, V::V>::empty());
        }
    }

    /// The number of entries.
    pub fn len(&self) -> (r: usize)
        requires
            self.wf(),
        ensures
            r == self@.dom().len(),
    {
        self.map.len()
    }

    /// `true` iff the store contains no entries.
    pub fn is_empty(&self) -> (r: bool)
        requires
            self.wf(),
        ensures
            r == (self@ == Map::<K::V, V::V>::empty()),
    {
        let n: usize = self.map.len();
        proof {
            if n == 0 {
                assert(self@.dom() =~= Set::<K::V>::empty());
                assert(self@ =~= Map::<K::V, V::V>::empty());
            } else {
                self.map.lemma_keys();
                assert(self@.dom().contains(self.map.keys()[0]));
            }
        }
        n == 0
    }
}

/// What the functions of a store return and leave behind.
pub proof fn law_store_calls<K: Key, V: View>()
    ensures
        forall|path: &str, r: Result<Store<K, V>, Error>| #[trigger]
            call_ensures(Store::<K, V>::open, (path,), r) ==> r is Ok && r->Ok_0@ == Map::<
                K::V,
                V::V,
            >::empty(),
        forall|s: &Store<K, V>, k: &K, r: Option<&V>| #[trigger]
            call_ensures(Store::<K, V>::get, (s, k), r) ==> {
                &&& r is Some <==> s@.dom().contains(k@)
                &&& r matches Some(v) ==> v@ == s@[k@]
            },
        forall|s: &mut Store<K, V>, k: K, v: V, r: Result<(), Error>| #[trigger]
            call_ensures(Store::<K, V>::set, (s, k, v), r) ==> r is Ok && (*final(s))@ == s@.insert(
                k@,
                v@,
            ),
        forall|s: &mut Store<K, V>, k: &K, r: Result<(), Error>| #[trigger]
            call_ensures(Store::<K, V>::delete, (s, k), r) ==> r is Ok && (*final(s))@ == s@.remove(
                k@,
            ),
        forall|s: &Store<K, V>, r: usize| #[trigger]
            call_ensures(Store::<K, V>::len, (s,), r) ==> r == s@.dom().len(),
        forall|s: &Store<K, V>, r: bool| #[trigger]
            call_ensures(Store::<K, V>::is_empty, (s,), r) ==> (r <==> s@ == Map::<
                K::V,
                V::V,
            >::empty()),
        forall|s: &Store<K, V>, a: Bound<K>, b: Bound<K>, r: Vec<(&K, &V)>| #[trigger]
            call_ensures(Store::<K, V>::scan, (s, a, b), r) ==> entry_views(r@) == entries_within::<
                K,
                V::V,
            >(s@, a@, b@),
{
}

} // verus!
