//! The store: reads are served from memory, and every change is logged before it
//! takes effect.

use vstd::prelude::*;
use vstd::slice::slice_subrange;

use crate::bytes::append_bytes;
use crate::ordmap::entries_within;
use crate::ordmap::entry_views;
use crate::ordmap::is_range;
use crate::ordmap::law_entries_of_all;
use crate::ordmap::law_entries_within;
use crate::ordmap::within;
use crate::ordmap::Bound;
use crate::ordmap::BoundModel;
use crate::ordmap::Key;
use crate::ordmap::OrdMap;
use crate::wal::error::Error;
use crate::wal::log::applied;
use crate::wal::log::encode_record;
use crate::wal::log::encode_set;
use crate::wal::log::frame;
use crate::wal::log::frame_of;
use crate::wal::log::law_snapshot_replays;
use crate::wal::log::lemma_record_shortest;
use crate::wal::log::log_of;
use crate::wal::log::loggable;
use crate::wal::log::map_loggable;
use crate::wal::log::payload_at;
use crate::wal::log::payload_of;
use crate::wal::log::read_entry;
use crate::wal::log::replayed;
use crate::wal::log::sets_of;
use crate::wal::log::snapshot;
use crate::wal::log::Record;
use crate::wal::log::RecordModel;
use crate::wal::log::MAX_RECORD;
use crate::wire::Field;

verus! {

/// A change that is yet to be logged.
pub struct Pending<K, V> {
    frame: Vec<u8>,
    record: Record<K, V>,
}

impl<K: Field, V: Field> Pending<K, V> {
    /// The change itself.
    pub closed spec fn change(&self) -> RecordModel<K::V, V::V> {
        self.record@
    }

    /// What is to be appended to the log.
    pub closed spec fn bytes(&self) -> Seq<u8> {
        self.frame@
    }

    /// The bytes are the frame of the change.
    pub open spec fn wf(&self) -> bool {
        &&& loggable::<K, V>(self.change())
        &&& self.bytes() == frame_of(payload_of::<K, V>(self.change()))
    }

    /// What is to be appended to the log, and synced, before the change is
    /// committed.
    pub fn frame<'a>(&'a self) -> (r: &'a [u8])
        ensures
            r@ == self.bytes(),
    {
        self.frame.as_slice()
    }
}

/// A crash-safe key-value store.
///
/// A change is prepared by [`Store::set`] or [`Store::delete`], its frame is
/// appended to the log and synced, and [`Store::commit`] then lets it take
/// effect.
pub struct Store<K: Key + Field, V: Field> {
    map: OrdMap<K, V>,
}

impl<K: Key + Field, V: Field> View for Store<K, V> {
    type V = Map<K::V, V::V>;

    closed spec fn view(&self) -> Map<K::V, V::V> {
        self.map@
    }
}

fn prepare<K: Field, V: Field>(record: Record<K, V>) -> (r: Result<Pending<K, V>, Error>)
    ensures
        match r {
            Ok(p) => p.wf() && p.change() == record@,
            Err(e) => e is RecordTooLarge && payload_of::<K, V>(record@).len() > MAX_RECORD,
        },
{
    let payload: Vec<u8> = encode_record(&record);
    if payload.len() > MAX_RECORD as usize {
        return Err(Error::RecordTooLarge);
    }
    let frame: Vec<u8> = frame(payload.as_slice());
    Ok(Pending { frame, record })
}

impl<K: Key + Field, V: Field> Store<K, V> {
    /// Every entry of the store could be logged again.
    pub closed spec fn wf(&self) -> bool {
        &&& self.map.wf()
        &&& self.map@.dom().finite()
        &&& map_loggable::<K, V>(self.map@)
    }

    /// Reconstructs the store by replaying the bytes of its log. Returns it, and
    /// how many bytes of the log hold whole entries: a torn or corrupted tail
    /// behind them is to be truncated before anything is appended.
    pub fn open(log: &[u8]) -> (r: (Self, usize))
        ensures
            r.0.wf(),
            (r.0@, r.1 as nat) == replayed::<K, V>(log@, Map::empty()),
    {
        let mut map: OrdMap<K, V> = OrdMap::new();
        let mut at: usize = 0;
        let ghost whole = replayed::<K, V>(log@, Map::empty());
        let ghost mut left: nat = log@.len();
        assert(log@.skip(0) =~= log@);
        assert(map@ =~= Map::<K::V, V::V>::empty());
        loop
            invariant
                at <= log@.len(),
                left == log@.len() - at,
                map.wf(),
                map_loggable::<K, V>(map@),
                whole == replayed::<K, V>(log@, Map::empty()),
                whole == ({
                    let rest = replayed::<K, V>(log@.skip(at as int), map@);
                    (rest.0, at as nat + rest.1)
                }),
            decreases left,
        {
            let ghost rest = log@.skip(at as int);
            let ghost before = map@;
            assert(rest =~= log@.subrange(at as int, log@.len() as int));
            match read_entry::<K, V>(slice_subrange(log, at, log.len())) {
                Some((record, n)) => {
                    let ghost change = record@;
                    proof {
                        lemma_record_shortest::<K, V>(payload_at(rest)->0);
                    }
                    match record {
                        Record::Put { key, value } => {
                            let _old = map.insert(key, value);
                        },
                        Record::Delete { key } => {
                            let _old = map.remove(&key);
                        },
                    }
                    assert(map@ == applied(before, change));
                    assert(rest.skip(n as int) =~= log@.skip(at + n));
                    at += n;
                    proof {
                        left = (log@.len() - at) as nat;
                    }
                },
                None => {
                    proof {
                        map.lemma_keys();
                    }
                    return (Store { map }, at);
                },
            }
        }
    }

    /// A reference to the value stored under `key`, if any.
    pub fn get<'a>(&'a self, key: &K) -> (r: Option<&'a V>)
        requires
            self.wf(),
        ensures
            match r {
                Some(v) => self@.dom().contains(key@) && v@ == self@[key@],
                None => !self@.dom().contains(key@),
            },
    {
        self.map.get(key)
    }

    /// Prepares to insert or overwrite `key`. A record that could not be read
    /// back is refused.
    pub fn set(&self, key: K, value: V) -> (r: Result<Pending<K, V>, Error>)
        requires
            self.wf(),
        ensures
            match r {
                Ok(p) => p.wf() && p.change() == RecordModel::<K::V, V::V>::Put(key@, value@),
                Err(e) => {
                    &&& e is RecordTooLarge
                    &&& payload_of::<K, V>(RecordModel::Put(key@, value@)).len() > MAX_RECORD
                },
            },
    {
        prepare(Record::Put { key, value })
    }

    /// Prepares to remove `key`. Removing a key that is not present is not an
    /// error.
    pub fn delete(&self, key: &K) -> (r: Result<Pending<K, V>, Error>)
        requires
            self.wf(),
        ensures
            match r {
                Ok(p) => p.wf() && p.change() == RecordModel::<K::V, V::V>::Delete(key@),
                Err(e) => {
                    &&& e is RecordTooLarge
                    &&& payload_of::<K, V>(RecordModel::Delete(key@)).len() > MAX_RECORD
                },
            },
    {
        prepare(Record::Delete { key: key.duplicate() })
    }

    /// Lets a change take effect once its frame has been appended to the log and
    /// synced. If that failed, the store stays as it is.
    pub fn commit(
        &mut self,
        pending: Pending<K, V>,
        written: Result<(), std::io::Error>,
    ) -> (r: Result<(), Error>)
        requires
            old(self).wf(),
            pending.wf(),
        ensures
            final(self).wf(),
            match written {
                Ok(_) => {
                    &&& r is Ok
                    &&& final(self)@ == applied(old(self)@, pending.change())
                },
                Err(e) => {
                    &&& r == Err::<(), Error>(Error::Io(e))
                    &&& final(self)@ == old(self)@
                },
            },
    {
        match written {
            Ok(_) => {
                match pending.record {
                    Record::Put { key, value } => {
                        let _old = self.map.insert(key, value);
                    },
                    Record::Delete { key } => {
                        let _old = self.map.remove(&key);
                    },
                }
                Ok(())
            },
            Err(e) => Err(Error::Io(e)),
        }
    }

    /// The entries whose keys fall between the two ends, in ascending key order.
    pub fn scan<'a>(&'a self, lower: Bound<K>, upper: Bound<K>) -> (r: Vec<(&'a K, &'a V)>)
        requires
            self.wf(),
            is_range::<K>(lower@, upper@),
        ensures
            entry_views(r@) == entries_within::<K, V::V>(self@, lower@, upper@),
    {
        self.map.range(&lower, &upper)
    }

    /// A store holds finitely many entries.
    pub proof fn lemma_finite(&self)
        requires
            self.wf(),
        ensures
            self@.dom().finite(),
    {
    }

    /// A scan lists the entries between the two ends and no others, in strictly
    /// ascending key order, so each once. One without ends lists as many entries as
    /// the store has, so none exactly when the store is empty.
    pub proof fn law_scan(&self, lower: BoundModel<K::V>, upper: BoundModel<K::V>)
        requires
            self.wf(),
        ensures
            ({
                let es = entries_within::<K, V::V>(self@, lower, upper);
                &&& forall|i: int, j: int|
                    0 <= i < j < es.len() ==> K::before((#[trigger] es[i]).0, (#[trigger] es[j]).0)
                &&& forall|k: K::V, v: V::V| #[trigger]
                    es.contains((k, v)) <==> within::<K>(k, lower, upper) && self@.dom().contains(k)
                        && self@[k] == v
            }),
            entries_within::<K, V::V>(
                self@,
                BoundModel::Unbounded,
                BoundModel::Unbounded,
            ).len() == self@.dom().len(),
            self@.dom().len() == 0 <==> self@ == Map::<K::V, V::V>::empty(),
    {
        let es = entries_within::<K, V::V>(self@, lower, upper);
        law_entries_within::<K, V::V>(self@, lower, upper);
        law_entries_of_all::<K, V::V>(self@);
        assert forall|k: K::V, v: V::V| #[trigger]
            es.contains((k, v)) implies within::<K>(k, lower, upper) && self@.dom().contains(k)
            && self@[k] == v by {
            let i = choose|i: int| 0 <= i < es.len() && es[i] == (k, v);
        }
        if self@.dom().len() == 0 {
            assert(self@.dom() =~= Set::<K::V>::empty());
            assert(self@ =~= Map::<K::V, V::V>::empty());
        }
    }

    /// The log of the store's entries alone, to be put in place of the old one.
    pub fn compact(&self) -> (r: Vec<u8>)
        requires
            self.wf(),
        ensures
            r@ == snapshot::<K, V>(self@),
            replayed::<K, V>(r@, Map::empty()) == (self@, r@.len()),
    {
        let ghost keys = self.map.keys();
        let ghost rs = sets_of::<K, V::V>(self@, keys);
        proof {
            self.map.lemma_keys();
            law_snapshot_replays::<K, V>(self@);
        }
        let n: usize = self.map.len();
        let mut out: Vec<u8> = Vec::new();
        let mut i: usize = 0;
        assert(rs.take(0) =~= Seq::<RecordModel<K::V, V::V>>::empty());
        assert(out@ =~= log_of::<K, V>(rs.take(0)));
        while i < n
            invariant
                i <= n,
                self.wf(),
                keys == self.map.keys(),
                n == keys.len(),
                rs == sets_of::<K, V::V>(self@, keys),
                out@ == log_of::<K, V>(rs.take(i as int)),
            decreases n - i,
        {
            let k: &K = self.map.key_at(i);
            let v: &V = self.map.value_at(i);
            let payload: Vec<u8> = encode_set(k, v);
            assert(loggable::<K, V>(RecordModel::Put(k@, v@)));
            append_bytes(&mut out, frame(payload.as_slice()).as_slice());
            proof {
                lemma_log_push::<K, V>(rs.take(i as int), RecordModel::Put(k@, v@));
                assert(rs.take(i + 1) =~= rs.take(i as int).push(RecordModel::Put(k@, v@)));
            }
            i += 1;
        }
        assert(rs.take(n as int) =~= rs);
        out
    }

    /// The number of entries.
    pub fn len(&self) -> (r: usize)
        requires
            self.wf(),
        ensures
            r == self@.dom().len(),
    {
        self.map.len()
    }

    /// `true` iff the store contains no entries.
    pub fn is_empty(&self) -> (r: bool)
        requires
            self.wf(),
        ensures
            r == (self@ == Map::<K::V, V::V>::empty()),
    {
        let n: usize = self.map.len();
        proof {
            if n == 0 {
                assert(self@.dom() =~= Set::<K::V>::empty());
                assert(self@ =~= Map::<K::V, V::V>::empty());
            } else {
                self.map.lemma_keys();
                assert(self@.dom().contains(self.map.keys()[0]));
            }
        }
        n == 0
    }
}

proof fn lemma_log_push<K: Field, V: Field>(
    rs: Seq<RecordModel<K::V, V::V>>,
    r: RecordModel<K::V, V::V>,
)
    ensures
        log_of::<K, V>(rs.push(r)) == log_of::<K, V>(rs) + frame_of(payload_of::<K, V>(r)),
    decreases rs.len(),
{
    let f = frame_of(payload_of::<K, V>(r));
    if rs.len() == 0 {
        reveal_with_fuel(log_of, 2);
        assert(rs.push(r).skip(1) =~= Seq::<RecordModel<K::V, V::V>>::empty());
        assert(rs.push(r)[0] == r);
        assert(log_of::<K, V>(rs.push(r)) =~= f);
        assert(log_of::<K, V>(rs) + f =~= f);
    } else {
        lemma_log_push::<K, V>(rs.skip(1), r);
        assert(rs.push(r).skip(1) =~= rs.skip(1).push(r));
        assert(rs.push(r)[0] == rs[0]);
        assert(log_of::<K, V>(rs.push(r)) =~= log_of::<K, V>(rs) + f);
    }
}

/// What the functions of a store return and leave behind. A change is refused exactly if
/// its bytes are more than 67108864; it takes effect once it is written, and not if
/// writing failed.
pub proof fn law_store_calls<K: Key + Field, V: Field>()
    ensures
        forall|log: &[u8], r: (Store<K, V>, usize)| #[trigger]
            call_ensures(Store::<K, V>::open, (log,), r) ==> (r.0@, r.1 as nat) == replayed::<
                K,
                V,
            >(log@, Map::empty()),
        forall|s: &Store<K, V>, k: &K, r: Option<&V>| #[trigger]
            call_ensures(Store::<K, V>::get, (s, k), r) ==> {
                &&& r is Some <==> s@.dom().contains(k@)
                &&& r matches Some(v) ==> v@ == s@[k@]
            },
        forall|s: &Store<K, V>, k: K, v: V, r: Result<Pending<K, V>, Error>| #[trigger]
            call_ensures(Store::<K, V>::set, (s, k, v), r) ==> {
                let p = payload_of::<K, V>(RecordModel::Put(k@, v@));
                &&& r is Ok <==> p.len() <= 67108864
                &&& r is Ok ==> r->Ok_0.change() == RecordModel::<K::V, V::V>::Put(k@, v@)
                    && r->Ok_0.bytes() == frame_of(p)
                &&& r is Err ==> r->Err_0 is RecordTooLarge
            },
        forall|s: &Store<K, V>, k: &K, r: Result<Pending<K, V>, Error>| #[trigger]
            call_ensures(Store::<K, V>::delete, (s, k), r) ==> {
                let p = payload_of::<K, V>(RecordModel::Delete(k@));
                &&& r is Ok <==> p.len() <= 67108864
                &&& r is Ok ==> r->Ok_0.change() == RecordModel::<K::V, V::V>::Delete(k@)
                    && r->Ok_0.bytes() == frame_of(p)
                &&& r is Err ==> r->Err_0 is RecordTooLarge
            },
        forall|s: &mut Store<K, V>, p: Pending<K, V>, r: Result<(), Error>| #[trigger]
            call_ensures(Store::<K, V>::commit, (s, p, Ok::<(), std::io::Error>(())), r) ==> r is Ok
                && (*final(s))@ == applied(s@, p.change()),
        forall|
            s: &mut Store<K, V>,
            p: Pending<K, V>,
            e: std::io::Error,
            r: Result<(), Error>,
        | #[trigger]
            call_ensures(Store::<K, V>::commit, (s, p, Err::<(), std::io::Error>(e)), r) ==> r
                == Err::<(), Error>(Error::Io(e)) && (*final(s))@ == s@,
        forall|p: &Pending<K, V>, r: &[u8]| #[trigger]
            call_ensures(Pending::<K, V>::frame, (p,), r) ==> r@ == p.bytes(),
        forall|s: &Store<K, V>, r: Vec<u8>| #[trigger]
            call_ensures(Store::<K, V>::compact, (s,), r) ==> replayed::<K, V>(r@, Map::empty())
                == (s@, r@.len()) && r@ == snapshot::<K, V>(s@),
        forall|s: &Store<K, V>, r: usize| #[trigger]
            call_ensures(Store::<K, V>::len, (s,), r) ==> r == s@.dom().len(),
        forall|s: &Store<K, V>, r: bool| #[trigger]
            call_ensures(Store::<K, V>::is_empty, (s,), r) ==> (r <==> s@ == Map::<
                K::V,
                V::V,
            >::empty()),
        forall|s: &Store<K, V>, a: Bound<K>, b: Bound<K>, r: Vec<(&K, &V)>| #[trigger]
            call_ensures(Store::<K, V>::scan, (s, a, b), r) ==> entry_views(r@) == entries_within::<
                K,
                V::V,
            >(s@, a@, b@),
{
}

} // verus!
