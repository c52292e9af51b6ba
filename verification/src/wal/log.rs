//! The log: framed, checksummed records, and what replaying them gives.
//!
//! A frame is the payload's length and its CRC-32, four bytes each with the
//! lowest one first, and then the payload.

use vstd::bytes::*;
use vstd::prelude::*;
use vstd::slice::slice_subrange;

use crate::bytes::append_bytes;
use crate::ordmap::ascending;
use crate::ordmap::lemma_sorted_keys_insert;
use crate::ordmap::lemma_sorted_keys_lists;
use crate::ordmap::sorted_keys;
use crate::ordmap::Key;
use crate::wire::Field;

verus! {

/// The number of bytes in front of a payload.
pub const HEADER: usize = 8;

/// The greatest length of a payload.
pub const MAX_RECORD: u32 = 64 * 1024 * 1024;

/// The CRC-32 of `data` as `crc32fast` computes it.
pub uninterp spec fn crc32_of(data: Seq<u8>) -> u32;

/// `crc32fast::hash`: the CRC-32 of `data`, a function of the bytes alone.
#[verifier::external_body]
fn crc32(data: &[u8]) -> (r: u32)
    ensures
        r == crc32_of(data@),
{
    crc32fast::hash(data)
}

// Records.

/// One change to a map.
pub enum RecordModel<A, B> {
    Put(A, B),
    Delete(A),
}

/// One change to the store.
pub enum Record<K, V> {
    Put { key: K, value: V },
    Delete { key: K },
}

impl<K: View, V: View> View for Record<K, V> {
    type V = RecordModel<K::V, V::V>;

    open spec fn view(&self) -> RecordModel<K::V, V::V> {
        match self {
            Record::Put { key, value } => RecordModel::Put(key@, value@),
            Record::Delete { key } => RecordModel::Delete(key@),
        }
    }
}

/// The map after a change.
pub open spec fn applied<A, B>(m: Map<A, B>, r: RecordModel<A, B>) -> Map<A, B> {
    match r {
        RecordModel::Put(k, v) => m.insert(k, v),
        RecordModel::Delete(k) => m.remove(k),
    }
}

/// The map after the changes `rs`, one after the other.
pub open spec fn applied_all<A, B>(m: Map<A, B>, rs: Seq<RecordModel<A, B>>) -> Map<A, B>
    decreases rs.len(),
{
    if rs.len() == 0 {
        m
    } else {
        applied_all(applied(m, rs[0]), rs.skip(1))
    }
}

/// Whether a change is small enough to be held in memory.
pub open spec fn fits<K: Field, V: Field>(r: RecordModel<K::V, V::V>) -> bool {
    match r {
        RecordModel::Put(k, v) => K::fits(k) && V::fits(v),
        RecordModel::Delete(k) => K::fits(k),
    }
}

/// A change as bytes: which kind it is, its key and its value.
pub open spec fn payload_of<K: Field, V: Field>(r: RecordModel<K::V, V::V>) -> Seq<u8> {
    match r {
        RecordModel::Put(k, v) => <u32 as Field>::encoded(0) + K::encoded(k) + V::encoded(v),
        RecordModel::Delete(k) => <u32 as Field>::encoded(1) + K::encoded(k),
    }
}

/// The change at the front of `p`, if there is one.
pub open spec fn record_of<K: Field, V: Field>(p: Seq<u8>) -> Option<RecordModel<K::V, V::V>> {
    match <u32 as Field>::decoded(p) {
        Some((tag, rest)) => if tag == 0 {
            match K::decoded(rest) {
                Some((k, rest)) => match V::decoded(rest) {
                    Some((v, _)) => Some(RecordModel::Put(k, v)),
                    None => None,
                },
                None => None,
            }
        } else if tag == 1 {
            match K::decoded(rest) {
                Some((k, _)) => Some(RecordModel::Delete(k)),
                None => None,
            }
        } else {
            None
        },
        None => None,
    }
}

/// What is written of a change is read back as that change.
pub proof fn law_record_round_trip<K: Field, V: Field>(r: RecordModel<K::V, V::V>)
    requires
        fits::<K, V>(r),
    ensures
        record_of::<K, V>(payload_of::<K, V>(r)) == Some(r),
{
    let none = Seq::<u8>::empty();
    match r {
        RecordModel::Put(k, v) => {
            let tail = K::encoded(k) + V::encoded(v);
            assert(payload_of::<K, V>(r) =~= <u32 as Field>::encoded(0) + tail);
            <u32 as Field>::read_back(0, tail);
            K::read_back(k, V::encoded(v));
            assert(V::encoded(v) =~= V::encoded(v) + none);
            V::read_back(v, none);
        },
        RecordModel::Delete(k) => {
            <u32 as Field>::read_back(1, K::encoded(k));
            assert(K::encoded(k) =~= K::encoded(k) + none);
            K::read_back(k, none);
        },
    }
}

/// A change that is read can be held in memory, and is never written in more
/// bytes than it was read from.
pub proof fn lemma_record_shortest<K: Field, V: Field>(p: Seq<u8>)
    ensures
        match record_of::<K, V>(p) {
            Some(r) => fits::<K, V>(r) && payload_of::<K, V>(r).len() <= p.len(),
            None => true,
        },
{
    <u32 as Field>::shortest(p);
    match <u32 as Field>::decoded(p) {
        Some((_, rest)) => {
            K::shortest(rest);
            match K::decoded(rest) {
                Some((_, rest)) => {
                    V::shortest(rest);
                },
                None => {},
            }
        },
        None => {},
    }
}

/// A change as bytes.
pub fn encode_record<K: Field, V: Field>(r: &Record<K, V>) -> (p: Vec<u8>)
    ensures
        p@ == payload_of::<K, V>(r@),
        fits::<K, V>(r@),
{
    match r {
        Record::Put { key, value } => encode_set(key, value),
        Record::Delete { key } => {
            let tag: u32 = 1;
            let mut p: Vec<u8> = tag.encode();
            append_bytes(&mut p, key.encode().as_slice());
            p
        },
    }
}

/// The bytes of the change that sets `key` to `value`.
pub fn encode_set<K: Field, V: Field>(key: &K, value: &V) -> (p: Vec<u8>)
    ensures
        p@ == payload_of::<K, V>(RecordModel::Put(key@, value@)),
        K::fits(key@),
        V::fits(value@),
{
    let tag: u32 = 0;
    let mut p: Vec<u8> = tag.encode();
    append_bytes(&mut p, key.encode().as_slice());
    append_bytes(&mut p, value.encode().as_slice());
    p
}

/// Reads the change at the front of `p`.
pub fn decode_record<K: Field, V: Field>(p: &[u8]) -> (r: Option<Record<K, V>>)
    ensures
        match r {
            Some(rec) => record_of::<K, V>(p@) == Some(rec@),
            None => record_of::<K, V>(p@) is None,
        },
{
    let (tag, rest) = match <u32 as Field>::decode(p) {
        Some(x) => x,
        None => {
            return None;
        },
    };
    if tag == 0 {
        match K::decode(rest) {
            Some((key, rest)) => match V::decode(rest) {
                Some((value, _)) => Some(Record::Put { key, value }),
                None => None,
            },
            None => None,
        }
    } else if tag == 1 {
        match K::decode(rest) {
            Some((key, _)) => Some(Record::Delete { key }),
            None => None,
        }
    } else {
        None
    }
}

// Frames.

/// A payload with its header.
pub open spec fn frame_of(p: Seq<u8>) -> Seq<u8> {
    spec_u32_to_le_bytes(p.len() as u32) + spec_u32_to_le_bytes(crc32_of(p)) + p
}

/// The payload at the front of `log`: none if the header or the payload is torn,
/// if the length is out of bounds, or if the checksum is another one.
pub open spec fn payload_at(log: Seq<u8>) -> Option<Seq<u8>> {
    if log.len() < HEADER {
        None
    } else {
        let len = spec_u32_from_le_bytes(log.take(4)) as int;
        if len > MAX_RECORD || log.len() < HEADER + len {
            None
        } else {
            let p = log.subrange(HEADER as int, HEADER + len);
            if crc32_of(p) == spec_u32_from_le_bytes(log.subrange(4, 8)) {
                Some(p)
            } else {
                None
            }
        }
    }
}

/// The change at the front of `log`, and the length of its frame.
pub open spec fn entry_at<K: Field, V: Field>(log: Seq<u8>) -> Option<
    (RecordModel<K::V, V::V>, nat),
> {
    match payload_at(log) {
        Some(p) => match record_of::<K, V>(p) {
            Some(r) => Some((r, HEADER as nat + p.len())),
            None => None,
        },
        None => None,
    }
}

/// A framed payload is found again, whatever follows it.
proof fn lemma_payload_found(p: Seq<u8>, rest: Seq<u8>)
    requires
        p.len() <= MAX_RECORD,
    ensures
        payload_at(frame_of(p) + rest) == Some(p),
        frame_of(p).len() == HEADER + p.len(),
{
    lemma_auto_spec_u32_to_from_le_bytes();
    let log = frame_of(p) + rest;
    let len = spec_u32_to_le_bytes(p.len() as u32);
    let crc = spec_u32_to_le_bytes(crc32_of(p));
    assert(log.take(4) =~= len);
    assert(log.subrange(4, 8) =~= crc);
    assert(log.subrange(8, (8 + p.len()) as int) =~= p);
}

/// A frame that is cut short is not taken for one.
proof fn lemma_torn_payload(p: Seq<u8>, cut: int)
    requires
        p.len() <= MAX_RECORD,
        0 <= cut < frame_of(p).len(),
    ensures
        payload_at(frame_of(p).take(cut)) is None,
{
    lemma_auto_spec_u32_to_from_le_bytes();
    if cut >= HEADER {
        let log = frame_of(p).take(cut);
        assert(log.take(4) =~= spec_u32_to_le_bytes(p.len() as u32));
    }
}

/// A payload with its header.
pub fn frame(payload: &[u8]) -> (r: Vec<u8>)
    requires
        payload@.len() <= MAX_RECORD,
    ensures
        r@ == frame_of(payload@),
{
    let mut out: Vec<u8> = u32_to_le_bytes(payload.len() as u32);
    append_bytes(&mut out, u32_to_le_bytes(crc32(payload)).as_slice());
    append_bytes(&mut out, payload);
    out
}

/// Reads the change at the front of `log`. Returns it and the length of its
/// frame; nothing if the front of `log` is torn or corrupted.
pub fn read_entry<K: Field, V: Field>(log: &[u8]) -> (r: Option<(Record<K, V>, usize)>)
    ensures
        match r {
            Some((rec, n)) => entry_at::<K, V>(log@) == Some((rec@, n as nat)) && n <= log@.len(),
            None => entry_at::<K, V>(log@) is None,
        },
{
    if log.len() < HEADER {
        return None;
    }
    let len: u32 = u32_from_le_bytes(slice_subrange(log, 0, 4));
    assert(log@.subrange(0, 4) =~= log@.take(4));
    if len > MAX_RECORD || log.len() - HEADER < len as usize {
        return None;
    }
    let end: usize = HEADER + len as usize;
    let crc: u32 = u32_from_le_bytes(slice_subrange(log, 4, 8));
    let payload: &[u8] = slice_subrange(log, HEADER, end);
    if crc32(payload) != crc {
        return None;
    }
    match decode_record::<K, V>(payload) {
        Some(rec) => Some((rec, end)),
        None => None,
    }
}

// Replaying.

/// What replaying `log` makes of `m`: the map, and how many bytes of `log` hold
/// whole changes. Replaying stops at the first entry that is torn or corrupted.
pub open spec fn replayed<K: Field, V: Field>(log: Seq<u8>, m: Map<K::V, V::V>) -> (
    Map<K::V, V::V>,
    nat,
)
    decreases log.len(),
{
    match entry_at::<K, V>(log) {
        Some((r, n)) => {
            let (end, kept) = replayed::<K, V>(log.skip(n as int), applied(m, r));
            (end, n + kept)
        },
        None => (m, 0),
    }
}

/// The log that holds the changes `rs`.
pub open spec fn log_of<K: Field, V: Field>(rs: Seq<RecordModel<K::V, V::V>>) -> Seq<u8>
    decreases rs.len(),
{
    if rs.len() == 0 {
        Seq::empty()
    } else {
        frame_of(payload_of::<K, V>(rs[0])) + log_of::<K, V>(rs.skip(1))
    }
}

/// Whether a change can be logged.
pub open spec fn loggable<K: Field, V: Field>(r: RecordModel<K::V, V::V>) -> bool {
    fits::<K, V>(r) && payload_of::<K, V>(r).len() <= MAX_RECORD
}

/// Whether all of `rs` can be logged.
pub open spec fn all_loggable<K: Field, V: Field>(rs: Seq<RecordModel<K::V, V::V>>) -> bool {
    forall|i: int| 0 <= i < rs.len() ==> loggable::<K, V>(#[trigger] rs[i])
}

proof fn lemma_entry_found<K: Field, V: Field>(r: RecordModel<K::V, V::V>, rest: Seq<u8>)
    requires
        loggable::<K, V>(r),
    ensures
        ({
            let f = frame_of(payload_of::<K, V>(r));
            entry_at::<K, V>(f + rest) == Some((r, f.len()))
        }),
{
    lemma_payload_found(payload_of::<K, V>(r), rest);
    law_record_round_trip::<K, V>(r);
}

/// Replay restores what was logged: the changes in order, and then whatever
/// follows them in the log. So every entry before a torn or corrupted tail
/// survives.
pub proof fn law_logged_changes_survive<K: Field, V: Field>(
    rs: Seq<RecordModel<K::V, V::V>>,
    tail: Seq<u8>,
    m: Map<K::V, V::V>,
)
    requires
        all_loggable::<K, V>(rs),
    ensures
        ({
            let whole = replayed::<K, V>(log_of::<K, V>(rs) + tail, m);
            let rest = replayed::<K, V>(tail, applied_all(m, rs));
            whole == (rest.0, log_of::<K, V>(rs).len() + rest.1)
        }),
    decreases rs.len(),
{
    if rs.len() == 0 {
        assert(log_of::<K, V>(rs) + tail =~= tail);
    } else {
        let f = frame_of(payload_of::<K, V>(rs[0]));
        let log = log_of::<K, V>(rs) + tail;
        let after = log_of::<K, V>(rs.skip(1)) + tail;
        assert(loggable::<K, V>(rs[0]));
        assert(log =~= f + after);
        lemma_entry_found::<K, V>(rs[0], after);
        assert((f + after).skip(f.len() as int) =~= after);
        assert forall|i: int| 0 <= i < rs.skip(1).len() implies loggable::<K, V>(
            #[trigger] rs.skip(1)[i],
        ) by {
            assert(loggable::<K, V>(rs[i + 1]));
        }
        law_logged_changes_survive::<K, V>(rs.skip(1), tail, applied(m, rs[0]));
    }
}

/// How many of the changes `rs` are whole in the first `cut` bytes of their log.
pub open spec fn whole_entries<K: Field, V: Field>(
    rs: Seq<RecordModel<K::V, V::V>>,
    cut: int,
) -> nat
    decreases rs.len(),
{
    if rs.len() == 0 {
        0
    } else {
        let n = frame_of(payload_of::<K, V>(rs[0])).len();
        if cut < n {
            0
        } else {
            1 + whole_entries::<K, V>(rs.skip(1), cut - n)
        }
    }
}

/// Wherever a log is cut, replaying it gives a state that was committed: the one
/// after the changes that are whole in it.
pub proof fn law_any_truncation_is_a_committed_prefix<K: Field, V: Field>(
    rs: Seq<RecordModel<K::V, V::V>>,
    cut: int,
    m: Map<K::V, V::V>,
)
    requires
        all_loggable::<K, V>(rs),
        0 <= cut <= log_of::<K, V>(rs).len(),
    ensures
        ({
            let k = whole_entries::<K, V>(rs, cut);
            &&& k <= rs.len()
            &&& log_of::<K, V>(rs.take(k as int)).len() <= cut
            &&& cut == log_of::<K, V>(rs).len() ==> k == rs.len()
            &&& replayed::<K, V>(log_of::<K, V>(rs).take(cut), m) == (
                applied_all(m, rs.take(k as int)),
                log_of::<K, V>(rs.take(k as int)).len(),
            )
        }),
    decreases rs.len(),
{
    let log = log_of::<K, V>(rs);
    let k = whole_entries::<K, V>(rs, cut);
    if rs.len() == 0 {
        assert(log.take(cut) =~= Seq::<u8>::empty());
        assert(rs.take(0) =~= rs);
    } else {
        let p = payload_of::<K, V>(rs[0]);
        let f = frame_of(p);
        let rest = rs.skip(1);
        assert(loggable::<K, V>(rs[0]));
        lemma_payload_found(p, Seq::empty());
        if cut < f.len() {
            assert(log.take(cut) =~= f.take(cut));
            lemma_torn_payload(p, cut);
            assert(rs.take(0) =~= Seq::<RecordModel<K::V, V::V>>::empty());
        } else {
            let c = cut - f.len();
            let later = log_of::<K, V>(rest);
            assert forall|i: int| 0 <= i < rest.len() implies loggable::<K, V>(
                #[trigger] rest[i],
            ) by {
                assert(loggable::<K, V>(rs[i + 1]));
            }
            law_any_truncation_is_a_committed_prefix::<K, V>(rest, c, applied(m, rs[0]));
            assert(log.take(cut) =~= f + later.take(c));
            lemma_entry_found::<K, V>(rs[0], later.take(c));
            assert((f + later.take(c)).skip(f.len() as int) =~= later.take(c));
            let first = rs.take(k as int);
            assert(first.skip(1) =~= rest.take(k - 1));
            assert(first[0] == rs[0]);
        }
    }
}

/// How much of a log holds whole changes.
pub proof fn lemma_kept_bound<K: Field, V: Field>(log: Seq<u8>, m: Map<K::V, V::V>)
    ensures
        replayed::<K, V>(log, m).1 <= log.len(),
    decreases log.len(),
{
    match entry_at::<K, V>(log) {
        Some((r, n)) => {
            lemma_kept_bound::<K, V>(log.skip(n as int), applied(m, r));
        },
        None => {},
    }
}

/// Truncating a log to what replay kept of it loses nothing, and leaves a log of
/// which everything is kept.
pub proof fn law_truncated_log_is_whole<K: Field, V: Field>(log: Seq<u8>, m: Map<K::V, V::V>)
    ensures
        ({
            let kept = replayed::<K, V>(log, m).1;
            &&& kept <= log.len()
            &&& replayed::<K, V>(log.take(kept as int), m) == replayed::<K, V>(log, m)
        }),
    decreases log.len(),
{
    lemma_kept_bound::<K, V>(log, m);
    match entry_at::<K, V>(log) {
        Some((r, n)) => {
            let rest = log.skip(n as int);
            let m2 = applied(m, r);
            law_truncated_log_is_whole::<K, V>(rest, m2);
            let kept = replayed::<K, V>(log, m).1;
            let cut = log.take(kept as int);
            lemma_kept_bound::<K, V>(rest, m2);
            assert(cut.take(4) =~= log.take(4));
            assert(cut.subrange(4, 8) =~= log.subrange(4, 8));
            assert(cut.subrange(8, n as int) =~= log.subrange(8, n as int));
            assert(entry_at::<K, V>(cut) == entry_at::<K, V>(log));
            assert(cut.skip(n as int) =~= rest.take(kept - n));
        },
        None => {
            assert(log.take(0).len() == 0);
        },
    }
}

/// A log of which everything is kept goes on with whatever is appended to it.
pub proof fn law_replay_goes_on<K: Field, V: Field>(
    log: Seq<u8>,
    tail: Seq<u8>,
    m: Map<K::V, V::V>,
)
    requires
        replayed::<K, V>(log, m).1 == log.len(),
    ensures
        ({
            let rest = replayed::<K, V>(tail, replayed::<K, V>(log, m).0);
            replayed::<K, V>(log + tail, m) == (rest.0, log.len() + rest.1)
        }),
    decreases log.len(),
{
    match entry_at::<K, V>(log) {
        Some((first, n)) => {
            let rest = log.skip(n as int);
            let whole = log + tail;
            law_replay_goes_on::<K, V>(rest, tail, applied(m, first));
            assert(whole.take(4) =~= log.take(4));
            assert(whole.subrange(4, 8) =~= log.subrange(4, 8));
            assert(whole.subrange(8, n as int) =~= log.subrange(8, n as int));
            assert(entry_at::<K, V>(whole) == entry_at::<K, V>(log));
            assert(whole.skip(n as int) =~= rest + tail);
        },
        None => {
            assert(log + tail =~= tail);
        },
    }
}

/// An acknowledged change is crash-safe: once its frame is in the log, replay
/// includes it.
pub proof fn law_appended_change_is_replayed<K: Field, V: Field>(
    log: Seq<u8>,
    m: Map<K::V, V::V>,
    r: RecordModel<K::V, V::V>,
)
    requires
        replayed::<K, V>(log, m).1 == log.len(),
        loggable::<K, V>(r),
    ensures
        ({
            let f = frame_of(payload_of::<K, V>(r));
            replayed::<K, V>(log + f, m) == (
                applied(replayed::<K, V>(log, m).0, r),
                log.len() + f.len(),
            )
        }),
{
    let f = frame_of(payload_of::<K, V>(r));
    let before = replayed::<K, V>(log, m).0;
    let none = Seq::<u8>::empty();
    law_replay_goes_on::<K, V>(log, f, m);
    assert(f =~= f + none);
    lemma_entry_found::<K, V>(r, none);
    assert(f.skip(f.len() as int) =~= none);
    assert(replayed::<K, V>(none, applied(before, r)) == (applied(before, r), 0nat));
}

/// A change whose frame was torn while it was appended leaves no trace: replay
/// gives what was there before, and keeps no byte of it.
pub proof fn law_torn_append_leaves_no_trace<K: Field, V: Field>(
    log: Seq<u8>,
    m: Map<K::V, V::V>,
    r: RecordModel<K::V, V::V>,
    cut: int,
)
    requires
        replayed::<K, V>(log, m).1 == log.len(),
        loggable::<K, V>(r),
        0 <= cut < frame_of(payload_of::<K, V>(r)).len(),
    ensures
        replayed::<K, V>(log + frame_of(payload_of::<K, V>(r)).take(cut), m) == replayed::<K, V>(
            log,
            m,
        ),
{
    let f = frame_of(payload_of::<K, V>(r)).take(cut);
    law_replay_goes_on::<K, V>(log, f, m);
    lemma_torn_payload(payload_of::<K, V>(r), cut);
}

// Snapshots.

/// The changes that set each of `keys` to what it is in `m`.
pub open spec fn sets_of<K: Key, B>(m: Map<K::V, B>, keys: Seq<K::V>) -> Seq<
    RecordModel<K::V, B>,
> {
    keys.map_values(|k: K::V| RecordModel::Put(k, m[k]))
}

/// The log of a compacted store: each entry set once, in ascending key order.
pub open spec fn snapshot<K: Key + Field, V: Field>(m: Map<K::V, V::V>) -> Seq<u8> {
    log_of::<K, V>(sets_of::<K, V::V>(m, sorted_keys::<K, V::V>(m)))
}

/// Whether every entry of `m` can be logged.
pub open spec fn map_loggable<K: Field, V: Field>(m: Map<K::V, V::V>) -> bool {
    forall|k: K::V| #[trigger]
        m.dom().contains(k) ==> loggable::<K, V>(RecordModel::Put(k, m[k]))
}

proof fn lemma_sets_build<K: Key, B>(m: Map<K::V, B>, keys: Seq<K::V>, start: Map<K::V, B>)
    ensures
        ({
            let end = applied_all(start, sets_of::<K, B>(m, keys));
            &&& forall|k: K::V| #[trigger]
                end.dom().contains(k) <==> start.dom().contains(k) || keys.contains(k)
            &&& forall|k: K::V| #[trigger]
                end.dom().contains(k) ==> end[k] == (if keys.contains(k) {
                    m[k]
                } else {
                    start[k]
                })
        }),
    decreases keys.len(),
{
    let rs = sets_of::<K, B>(m, keys);
    if keys.len() > 0 {
        let rest = keys.skip(1);
        let next = start.insert(keys[0], m[keys[0]]);
        assert(rs.skip(1) =~= sets_of::<K, B>(m, rest));
        lemma_sets_build::<K, B>(m, rest, next);
        assert(rs[0] == RecordModel::<K::V, B>::Put(keys[0], m[keys[0]]));
        assert(applied_all(start, rs) == applied_all(next, sets_of::<K, B>(m, rest)));
        assert forall|k: K::V| #[trigger] keys.contains(k) <==> k == keys[0] || rest.contains(
            k,
        ) by {
            if keys.contains(k) && k != keys[0] {
                let i = choose|i: int| 0 <= i < keys.len() && keys[i] == k;
                assert(rest[i - 1] == k);
            }
            if rest.contains(k) {
                let i = choose|i: int| 0 <= i < rest.len() && rest[i] == k;
                assert(keys[i + 1] == k);
            }
        }
    }
}

/// Compaction preserves the state: a snapshot replays, whole, to the map that it
/// was made from.
pub proof fn law_snapshot_replays<K: Key + Field, V: Field>(m: Map<K::V, V::V>)
    requires
        m.dom().finite(),
        map_loggable::<K, V>(m),
    ensures
        replayed::<K, V>(snapshot::<K, V>(m), Map::empty()) == (m, snapshot::<K, V>(m).len()),
{
    let keys = sorted_keys::<K, V::V>(m);
    let rs = sets_of::<K, V::V>(m, keys);
    let none = Seq::<u8>::empty();
    lemma_sorted_keys_lists::<K, V::V>(m);
    assert forall|i: int| 0 <= i < rs.len() implies loggable::<K, V>(#[trigger] rs[i]) by {
        assert(keys.contains(keys[i]));
        assert(m.dom().contains(keys[i]));
    }
    law_logged_changes_survive::<K, V>(rs, none, Map::empty());
    assert(log_of::<K, V>(rs) + none =~= log_of::<K, V>(rs));
    lemma_sets_build::<K, V::V>(m, keys, Map::empty());
    let end = applied_all(Map::empty(), rs);
    assert(end =~= m);
    assert(replayed::<K, V>(none, end) == (end, 0nat));
}

proof fn lemma_log_insert<K: Field, V: Field>(
    rs: Seq<RecordModel<K::V, V::V>>,
    p: int,
    r: RecordModel<K::V, V::V>,
)
    requires
        0 <= p <= rs.len(),
    ensures
        log_of::<K, V>(rs.insert(p, r)).len() == log_of::<K, V>(rs).len() + frame_of(
            payload_of::<K, V>(r),
        ).len(),
    decreases p,
{
    let more = rs.insert(p, r);
    if p == 0 {
        assert(more.skip(1) =~= rs);
    } else {
        assert(more.skip(1) =~= rs.skip(1).insert(p - 1, r));
        lemma_log_insert::<K, V>(rs.skip(1), p - 1, r);
    }
}

/// The snapshot of a map with one entry more is one frame longer.
proof fn lemma_snapshot_insert<K: Key + Field, V: Field>(m: Map<K::V, V::V>, k: K::V, v: V::V)
    requires
        m.dom().finite(),
        !m.dom().contains(k),
    ensures
        snapshot::<K, V>(m.insert(k, v)).len() == snapshot::<K, V>(m).len() + frame_of(
            payload_of::<K, V>(RecordModel::Put(k, v)),
        ).len(),
{
    let more = m.insert(k, v);
    let ks = sorted_keys::<K, V::V>(m);
    let p = lemma_sorted_keys_insert::<K, V::V>(m, k, v);
    lemma_sorted_keys_lists::<K, V::V>(m);
    let rs = sets_of::<K, V::V>(m, ks);
    assert(sets_of::<K, V::V>(more, ks.insert(p, k)) =~= rs.insert(p, RecordModel::Put(k, v))) by {
        assert forall|i: int| 0 <= i < ks.len() implies m[#[trigger] ks[i]] == more[ks[i]] by {
            assert(ks.contains(ks[i]));
        }
    }
    lemma_log_insert::<K, V>(rs, p, RecordModel::Put(k, v));
}

/// A change makes the snapshot longer by at most its own frame, and by less unless
/// it adds an entry.
proof fn lemma_snapshot_step<K: Key + Field, V: Field>(
    m: Map<K::V, V::V>,
    r: RecordModel<K::V, V::V>,
)
    requires
        m.dom().finite(),
    ensures
        applied(m, r).dom().finite(),
        snapshot::<K, V>(applied(m, r)).len() + 1 + m.dom().len() <= snapshot::<K, V>(m).len()
            + frame_of(payload_of::<K, V>(r)).len() + applied(m, r).dom().len(),
{
    let k = match r {
        RecordModel::Put(k, _) => k,
        RecordModel::Delete(k) => k,
    };
    let without = m.remove(k);
    lemma_auto_spec_u32_to_from_le_bytes();
    if m.dom().contains(k) {
        lemma_snapshot_insert::<K, V>(without, k, m[k]);
        assert(without.insert(k, m[k]) =~= m);
    } else {
        assert(without =~= m);
    }
    match r {
        RecordModel::Put(_, v) => {
            lemma_snapshot_insert::<K, V>(without, k, v);
            assert(without.insert(k, v) =~= m.insert(k, v));
        },
        RecordModel::Delete(_) => {},
    }
}

/// How many whole changes `log` holds before the first entry that is torn or
/// corrupted.
pub open spec fn entry_count<K: Field, V: Field>(log: Seq<u8>) -> nat
    decreases log.len(),
{
    match entry_at::<K, V>(log) {
        Some((_, n)) => 1 + entry_count::<K, V>(log.skip(n as int)),
        None => 0,
    }
}

proof fn lemma_snapshot_fits<K: Key + Field, V: Field>(log: Seq<u8>, m: Map<K::V, V::V>)
    requires
        m.dom().finite(),
    ensures
        ({
            let (end, kept) = replayed::<K, V>(log, m);
            &&& end.dom().finite()
            &&& end.dom().len() <= m.dom().len() + entry_count::<K, V>(log)
            &&& snapshot::<K, V>(end).len() + entry_count::<K, V>(log) + m.dom().len()
                <= snapshot::<K, V>(m).len() + kept + end.dom().len()
        }),
    decreases log.len(),
{
    match entry_at::<K, V>(log) {
        Some((r, n)) => {
            let p = payload_at(log)->0;
            lemma_record_shortest::<K, V>(p);
            lemma_snapshot_step::<K, V>(m, r);
            lemma_snapshot_fits::<K, V>(log.skip(n as int), applied(m, r));
            lemma_auto_spec_u32_to_from_le_bytes();
        },
        None => {},
    }
}

/// Compaction never makes a log longer: the snapshot of what a log replays to is
/// at most as long as what replay kept of the log. It is shorter if any change of
/// the log is dead, that is if the log holds more changes than the map has entries.
pub proof fn law_compaction_shrinks<K: Key + Field, V: Field>(log: Seq<u8>)
    ensures
        ({
            let (m, kept) = replayed::<K, V>(log, Map::empty());
            &&& snapshot::<K, V>(m).len() <= kept <= log.len()
            &&& m.dom().finite()
            &&& m.dom().len() <= entry_count::<K, V>(log)
            &&& m.dom().len() < entry_count::<K, V>(log) ==> snapshot::<K, V>(m).len() < kept
        }),
{
    let none = Map::<K::V, V::V>::empty();
    lemma_snapshot_fits::<K, V>(log, none);
    lemma_kept_bound::<K, V>(log, none);
    lemma_sorted_keys_lists::<K, V::V>(none);
    let ks = sorted_keys::<K, V::V>(none);
    assert(ks.len() == 0) by {
        if ks.len() > 0 {
            assert(ks.contains(ks[0]));
        }
    }
}

/// The number of changes in a log is the number that were logged.
pub proof fn law_entries_are_counted<K: Field, V: Field>(rs: Seq<RecordModel<K::V, V::V>>)
    requires
        forall|i: int| 0 <= i < rs.len() ==> loggable::<K, V>(#[trigger] rs[i]),
    ensures
        entry_count::<K, V>(log_of::<K, V>(rs)) == rs.len(),
    decreases rs.len(),
{
    let log = log_of::<K, V>(rs);
    if rs.len() > 0 {
        let f = frame_of(payload_of::<K, V>(rs[0]));
        let rest = rs.skip(1);
        assert forall|i: int| 0 <= i < rest.len() implies loggable::<K, V>(#[trigger] rest[i]) by {
            assert(rest[i] == rs[i + 1]);
        }
        lemma_entry_found::<K, V>(rs[0], log_of::<K, V>(rest));
        assert(log.skip(f.len() as int) =~= log_of::<K, V>(rest));
        law_entries_are_counted::<K, V>(rest);
    }
}

// What the bytes mean.

/// The numbers of the log's format.
pub proof fn law_log_numbers()
    ensures
        HEADER == 8,
        MAX_RECORD == 67108864,
{
}

/// A change sets or removes its own key and leaves every other one as it is.
pub proof fn law_change<A, B>(m: Map<A, B>, k: A, v: B, x: A)
    ensures
        applied(m, RecordModel::Put(k, v)).dom().contains(k),
        applied(m, RecordModel::Put(k, v))[k] == v,
        !applied(m, RecordModel::<A, B>::Delete(k)).dom().contains(k),
        x != k ==> {
            let put = applied(m, RecordModel::Put(k, v));
            let deleted = applied(m, RecordModel::<A, B>::Delete(k));
            &&& put.dom().contains(x) <==> m.dom().contains(x)
            &&& put[x] == m[x]
            &&& deleted.dom().contains(x) <==> m.dom().contains(x)
            &&& m.dom().contains(x) ==> deleted[x] == m[x]
        },
{
}

/// A change is written as the byte 0, a key and a value, or as the byte 1 and a key. It
/// is read back from there, whatever follows; behind any other number there is none.
pub proof fn law_record_bytes<K: Field, V: Field>(k: K::V, v: V::V, rest: Seq<u8>, tag: u32)
    requires
        K::fits(k),
        V::fits(v),
    ensures
        payload_of::<K, V>(RecordModel::Put(k, v)) == seq![0u8] + K::encoded(k) + V::encoded(v),
        payload_of::<K, V>(RecordModel::Delete(k)) == seq![1u8] + K::encoded(k),
        record_of::<K, V>(seq![0u8] + K::encoded(k) + V::encoded(v) + rest) == Some(
            RecordModel::<K::V, V::V>::Put(k, v),
        ),
        record_of::<K, V>(seq![1u8] + K::encoded(k) + rest) == Some(
            RecordModel::<K::V, V::V>::Delete(k),
        ),
        tag > 1 ==> record_of::<K, V>(<u32 as Field>::encoded(tag) + rest) is None,
        record_of::<K, V>(Seq::empty()) is None,
{
    let a = K::encoded(k) + (V::encoded(v) + rest);
    assert(seq![0u8] + K::encoded(k) + V::encoded(v) + rest =~= <u32 as Field>::encoded(0) + a);
    <u32 as Field>::read_back(0, a);
    K::read_back(k, V::encoded(v) + rest);
    V::read_back(v, rest);
    let b = K::encoded(k) + rest;
    assert(seq![1u8] + K::encoded(k) + rest =~= <u32 as Field>::encoded(1) + b);
    <u32 as Field>::read_back(1, b);
    K::read_back(k, rest);
    <u32 as Field>::read_back(tag, rest);
    <u32 as Field>::shortest(Seq::empty());
    assert(<u32 as Field>::encoded(0) =~= seq![0u8]);
    assert(<u32 as Field>::encoded(1) =~= seq![1u8]);
}

/// What is found at the front of a log: a payload `p` exactly if its length stands in the
/// first four bytes, is at most 67108864, its checksum stands in the next four, and the
/// payload follows whole.
pub proof fn law_payload_at(log: Seq<u8>, p: Seq<u8>)
    ensures
        payload_at(log) == Some(p) <==> {
            &&& log.len() >= 8 + p.len()
            &&& p.len() <= 67108864
            &&& spec_u32_from_le_bytes(log.take(4)) == p.len()
            &&& spec_u32_from_le_bytes(log.subrange(4, 8)) == crc32_of(p)
            &&& log.subrange(8, 8 + p.len() as int) == p
        },
        frame_of(p) == spec_u32_to_le_bytes(p.len() as u32) + spec_u32_to_le_bytes(crc32_of(p)) + p,
{
}

/// Replaying goes on behind an entry with the map changed by it, and stops where there is
/// none.
pub proof fn law_replay_steps<K: Field, V: Field>(log: Seq<u8>, m: Map<K::V, V::V>)
    ensures
        match payload_at(log) {
            None => replayed::<K, V>(log, m) == (m, 0nat),
            Some(p) => match record_of::<K, V>(p) {
                None => replayed::<K, V>(log, m) == (m, 0nat),
                Some(r) => {
                    let n = 8 + p.len();
                    let next = replayed::<K, V>(log.skip(n as int), applied(m, r));
                    replayed::<K, V>(log, m) == (next.0, n + next.1)
                },
            },
        },
{
}

/// A snapshot holds as many changes as the map has entries, in ascending order of the
/// keys; each sets a key to its value.
pub proof fn law_snapshot_entries<K: Key + Field, V: Field>(m: Map<K::V, V::V>)
    requires
        m.dom().finite(),
        map_loggable::<K, V>(m),
    ensures
        entry_count::<K, V>(snapshot::<K, V>(m)) == m.dom().len(),
        exists|ks: Seq<K::V>|
            {
                &&& #[trigger] ascending::<K>(ks)
                &&& forall|k: K::V| #[trigger] ks.contains(k) <==> m.dom().contains(k)
                &&& snapshot::<K, V>(m) == log_of::<K, V>(
                    ks.map_values(|k: K::V| RecordModel::Put(k, m[k])),
                )
            },
{
    let ks = sorted_keys::<K, V::V>(m);
    let rs = sets_of::<K, V::V>(m, ks);
    lemma_sorted_keys_lists::<K, V::V>(m);
    assert forall|i: int| 0 <= i < rs.len() implies loggable::<K, V>(#[trigger] rs[i]) by {
        assert(ks.contains(ks[i]));
        assert(m.dom().contains(ks[i]));
    }
    law_entries_are_counted::<K, V>(rs);
    ks.unique_seq_to_set();
    assert(ks.to_set() =~= m.dom());
}

/// What the functions of this module return.
pub proof fn law_log_functions<K: Field, V: Field>()
    ensures
        forall|r: &Record<K, V>, p: Vec<u8>| #[trigger]
            call_ensures(encode_record::<K, V>, (r,), p) ==> match r {
                Record::Put { key, value } => p@ == payload_of::<K, V>(
                    RecordModel::Put(key@, value@),
                ),
                Record::Delete { key } => p@ == payload_of::<K, V>(RecordModel::Delete(key@)),
            },
        forall|k: &K, v: &V, p: Vec<u8>| #[trigger]
            call_ensures(encode_set::<K, V>, (k, v), p) ==> p@ == payload_of::<K, V>(
                RecordModel::Put(k@, v@),
            ),
        forall|p: &[u8], r: Option<Record<K, V>>| #[trigger]
            call_ensures(decode_record::<K, V>, (p,), r) ==> match r {
                Some(Record::Put { key, value }) => record_of::<K, V>(p@) == Some(
                    RecordModel::<K::V, V::V>::Put(key@, value@),
                ),
                Some(Record::Delete { key }) => record_of::<K, V>(p@) == Some(
                    RecordModel::<K::V, V::V>::Delete(key@),
                ),
                None => record_of::<K, V>(p@) is None,
            },
        forall|p: &[u8], r: Vec<u8>| #[trigger]
            call_ensures(frame, (p,), r) ==> r@ == spec_u32_to_le_bytes(p@.len() as u32)
                + spec_u32_to_le_bytes(crc32_of(p@)) + p@,
        forall|log: &[u8], r: Option<(Record<K, V>, usize)>| #[trigger]
            call_ensures(read_entry::<K, V>, (log,), r) ==> match payload_at(log@) {
                Some(p) => {
                    &&& r is Some <==> record_of::<K, V>(p) is Some
                    &&& r is Some ==> record_of::<K, V>(p) == Some((r->0).0@) && (r->0).1 == 8
                        + p.len()
                },
                None => r is None,
            },
{
}

} // verus!
