//! A map kept in ascending key order.
//!
//! The entries sit in a vector sorted strictly by key, so look-ups are binary
//! searches and walks and range scans come out in key order.

use vstd::prelude::*;

use crate::text::chars_of;

verus! {

/// How two keys stand to each other.
#[derive(Clone, Copy, PartialEq, Eq, Structural, Debug)]
pub enum Rank {
    Before,
    Same,
    After,
}

/// A key type with a total order on its abstract value.
pub trait Key: View + Sized {
    /// Whether `a` comes strictly before `b`.
    spec fn before(a: Self::V, b: Self::V) -> bool;

    proof fn irreflexive(a: Self::V)
        ensures
            !Self::before(a, a),
    ;

    proof fn transitive(a: Self::V, b: Self::V, c: Self::V)
        requires
            Self::before(a, b),
            Self::before(b, c),
        ensures
            Self::before(a, c),
    ;

    proof fn total(a: Self::V, b: Self::V)
        ensures
            a == b || Self::before(a, b) || Self::before(b, a),
    ;

    fn rank(&self, other: &Self) -> (r: Rank)
        ensures
            match r {
                Rank::Before => Self::before(self@, other@),
                Rank::Same => self@ == other@,
                Rank::After => Self::before(other@, self@),
            },
    ;
}

impl Key for u64 {
    open spec fn before(a: u64, b: u64) -> bool {
        a < b
    }

    proof fn irreflexive(a: u64) {
    }

    proof fn transitive(a: u64, b: u64, c: u64) {
    }

    proof fn total(a: u64, b: u64) {
    }

    fn rank(&self, other: &u64) -> (r: Rank) {
        if *self < *other {
            Rank::Before
        } else if *self == *other {
            Rank::Same
        } else {
            Rank::After
        }
    }
}

/// Dictionary order by code point.
pub open spec fn text_before(a: Seq<char>, b: Seq<char>) -> bool
    decreases a.len(),
{
    if b.len() == 0 {
        false
    } else if a.len() == 0 {
        true
    } else if a[0] != b[0] {
        a[0] < b[0]
    } else {
        text_before(a.drop_first(), b.drop_first())
    }
}

proof fn lemma_text_before_at(a: Seq<char>, b: Seq<char>, i: int)
    requires
        0 <= i <= a.len(),
        i <= b.len(),
        forall|k: int| 0 <= k < i ==> a[k] == b[k],
    ensures
        text_before(a, b) == text_before(a.skip(i), b.skip(i)),
    decreases i,
{
    if i == 0 {
        assert(a.skip(0) =~= a);
        assert(b.skip(0) =~= b);
    } else {
        lemma_text_before_at(a, b, i - 1);
        let x = a.skip(i - 1);
        let y = b.skip(i - 1);
        assert(x[0] == y[0]);
        assert(x.drop_first() =~= a.skip(i));
        assert(y.drop_first() =~= b.skip(i));
    }
}

proof fn lemma_text_irreflexive(a: Seq<char>)
    ensures
        !text_before(a, a),
    decreases a.len(),
{
    if a.len() > 0 {
        lemma_text_irreflexive(a.drop_first());
    }
}

proof fn lemma_text_transitive(a: Seq<char>, b: Seq<char>, c: Seq<char>)
    requires
        text_before(a, b),
        text_before(b, c),
    ensures
        text_before(a, c),
    decreases a.len(),
{
    if a.len() > 0 && a[0] == b[0] && b[0] == c[0] {
        lemma_text_transitive(a.drop_first(), b.drop_first(), c.drop_first());
    }
}

proof fn lemma_text_total(a: Seq<char>, b: Seq<char>)
    ensures
        a == b || text_before(a, b) || text_before(b, a),
    decreases a.len(),
{
    if a.len() > 0 && b.len() > 0 && a[0] == b[0] {
        lemma_text_total(a.drop_first(), b.drop_first());
        if a.drop_first() == b.drop_first() {
            assert forall|i: int| 0 <= i < a.len() implies a[i] == b[i] by {
                if i > 0 {
                    assert(a[i] == a.drop_first()[i - 1]);
                    assert(b[i] == b.drop_first()[i - 1]);
                }
            }
            assert(a =~= b);
        }
    } else if a.len() == 0 && b.len() == 0 {
        assert(a =~= b);
    }
}

impl Key for String {
    open spec fn before(a: Seq<char>, b: Seq<char>) -> bool {
        text_before(a, b)
    }

    proof fn irreflexive(a: Seq<char>) {
        lemma_text_irreflexive(a);
    }

    proof fn transitive(a: Seq<char>, b: Seq<char>, c: Seq<char>) {
        lemma_text_transitive(a, b, c);
    }

    proof fn total(a: Seq<char>, b: Seq<char>) {
        lemma_text_total(a, b);
    }

    fn rank(&self, other: &String) -> (r: Rank) {
        let x: Vec<char> = chars_of(self.as_str());
        let y: Vec<char> = chars_of(other.as_str());
        let mut i: usize = 0;
        while i < x.len() && i < y.len() && x[i] == y[i]
            invariant
                i <= x@.len(),
                i <= y@.len(),
                forall|k: int| 0 <= k < i ==> x@[k] == y@[k],
            decreases x@.len() - i,
        {
            i += 1;
        }
        proof {
            lemma_text_before_at(x@, y@, i as int);
            lemma_text_before_at(y@, x@, i as int);
            if i < x@.len() {
                assert(x@.skip(i as int)[0] == x@[i as int]);
            }
            if i < y@.len() {
                assert(y@.skip(i as int)[0] == y@[i as int]);
            }
        }
        if i == x.len() {
            if i == y.len() {
                assert(x@ =~= y@);
                Rank::Same
            } else {
                Rank::Before
            }
        } else if i == y.len() {
            Rank::After
        } else if x[i] < y[i] {
            Rank::Before
        } else {
            Rank::After
        }
    }
}

/// Whether the keys stand in strictly ascending order.
pub open spec fn ascending<K: Key>(ks: Seq<K::V>) -> bool {
    forall|i: int, j: int| 0 <= i < j < ks.len() ==> K::before(#[trigger] ks[i], #[trigger] ks[j])
}

/// The map that pairs each key with the value at the same place.
pub open spec fn paired<A, B>(ks: Seq<A>, vs: Seq<B>) -> Map<A, B> {
    Map::new(|k: A| ks.contains(k), |k: A| vs[ks.index_of(k)])
}

/// A map from keys to values, walked in ascending key order.
pub struct OrdMap<K: Key, V: View> {
    entries: Vec<(K, V)>,
}

proof fn lemma_ascending_distinct<K: Key>(ks: Seq<K::V>)
    requires
        ascending::<K>(ks),
    ensures
        ks.no_duplicates(),
{
    assert forall|i: int, j: int| 0 <= i < ks.len() && 0 <= j < ks.len() && i != j implies ks[i]
        != ks[j] by {
        if i < j {
            K::irreflexive(ks[i]);
        } else {
            K::irreflexive(ks[j]);
        }
    }
}

/// In a map of ascending keys, the value at place `i` belongs to the key at place `i`.
pub proof fn lemma_paired_at<K: Key, B>(ks: Seq<K::V>, vs: Seq<B>, i: int)
    requires
        ascending::<K>(ks),
        ks.len() == vs.len(),
        0 <= i < ks.len(),
    ensures
        paired(ks, vs).dom().contains(ks[i]),
        paired(ks, vs)[ks[i]] == vs[i],
{
    lemma_ascending_distinct::<K>(ks);
    assert(ks.contains(ks[i]));
    let j = ks.index_of(ks[i]);
    assert(ks[j] == ks[i]);
}

/// A map of ascending keys is finite and has as many entries as there are keys.
pub proof fn lemma_paired_len<K: Key, B>(ks: Seq<K::V>, vs: Seq<B>)
    requires
        ascending::<K>(ks),
        ks.len() == vs.len(),
    ensures
        paired(ks, vs).dom().finite(),
        paired(ks, vs).dom().len() == ks.len(),
{
    lemma_ascending_distinct::<K>(ks);
    ks.unique_seq_to_set();
    assert(paired(ks, vs).dom() =~= ks.to_set());
}

proof fn lemma_paired_insert<K: Key, B>(ks: Seq<K::V>, vs: Seq<B>, p: int, k: K::V, v: B)
    requires
        ascending::<K>(ks),
        ks.len() == vs.len(),
        0 <= p <= ks.len(),
        forall|i: int| 0 <= i < p ==> K::before(#[trigger] ks[i], k),
        forall|i: int| p <= i < ks.len() ==> K::before(k, #[trigger] ks[i]),
    ensures
        ascending::<K>(ks.insert(p, k)),
        paired(ks.insert(p, k), vs.insert(p, v)) == paired(ks, vs).insert(k, v),
        !paired(ks, vs).dom().contains(k),
{
    let ks2 = ks.insert(p, k);
    let vs2 = vs.insert(p, v);
    assert forall|i: int, j: int| 0 <= i < j < ks2.len() implies K::before(
        #[trigger] ks2[i],
        #[trigger] ks2[j],
    ) by {
        let a = if i < p {
            ks[i]
        } else if i == p {
            k
        } else {
            ks[i - 1]
        };
        let b = if j < p {
            ks[j]
        } else if j == p {
            k
        } else {
            ks[j - 1]
        };
        assert(ks2[i] == a && ks2[j] == b);
    }
    assert(!ks.contains(k)) by {
        if ks.contains(k) {
            let i = choose|i: int| 0 <= i < ks.len() && ks[i] == k;
            K::irreflexive(k);
        }
    }
    let m = paired(ks, vs).insert(k, v);
    let m2 = paired(ks2, vs2);
    assert(ks2[p] == k);
    assert forall|x: K::V| m2.dom().contains(x) <==> m.dom().contains(x) by {
        if ks2.contains(x) {
            let i = choose|i: int| 0 <= i < ks2.len() && ks2[i] == x;
            if i < p {
                assert(ks[i] == x);
            } else if i > p {
                assert(ks[i - 1] == x);
            }
        }
        if ks.contains(x) {
            let i = choose|i: int| 0 <= i < ks.len() && ks[i] == x;
            if i < p {
                assert(ks2[i] == x);
            } else {
                assert(ks2[i + 1] == x);
            }
        }
    }
    assert forall|x: K::V| m2.dom().contains(x) implies m2[x] == m[x] by {
        if x == k {
            lemma_paired_at::<K, B>(ks2, vs2, p);
        } else {
            let i = choose|i: int| 0 <= i < ks.len() && ks[i] == x;
            lemma_paired_at::<K, B>(ks, vs, i);
            if i < p {
                assert(ks2[i] == x);
                lemma_paired_at::<K, B>(ks2, vs2, i);
            } else {
                assert(ks2[i + 1] == x);
                lemma_paired_at::<K, B>(ks2, vs2, i + 1);
            }
        }
    }
    assert(m2 =~= m);
}

proof fn lemma_paired_update<K: Key, B>(ks: Seq<K::V>, vs: Seq<B>, p: int, v: B)
    requires
        ascending::<K>(ks),
        ks.len() == vs.len(),
        0 <= p < ks.len(),
    ensures
        paired(ks, vs.update(p, v)) == paired(ks, vs).insert(ks[p], v),
        paired(ks, vs).dom().contains(ks[p]),
        paired(ks, vs)[ks[p]] == vs[p],
{
    let m = paired(ks, vs).insert(ks[p], v);
    let m2 = paired(ks, vs.update(p, v));
    lemma_paired_at::<K, B>(ks, vs, p);
    assert forall|x: K::V| m2.dom().contains(x) implies m2[x] == m[x] by {
        let i = choose|i: int| 0 <= i < ks.len() && ks[i] == x;
        lemma_paired_at::<K, B>(ks, vs, i);
        lemma_paired_at::<K, B>(ks, vs.update(p, v), i);
        lemma_ascending_distinct::<K>(ks);
    }
    assert(m2 =~= m);
}

proof fn lemma_paired_remove<K: Key, B>(ks: Seq<K::V>, vs: Seq<B>, p: int)
    requires
        ascending::<K>(ks),
        ks.len() == vs.len(),
        0 <= p < ks.len(),
    ensures
        ascending::<K>(ks.remove(p)),
        paired(ks.remove(p), vs.remove(p)) == paired(ks, vs).remove(ks[p]),
        paired(ks, vs).dom().contains(ks[p]),
        paired(ks, vs)[ks[p]] == vs[p],
{
    let k = ks[p];
    let ks2 = ks.remove(p);
    let vs2 = vs.remove(p);
    lemma_ascending_distinct::<K>(ks);
    lemma_paired_at::<K, B>(ks, vs, p);
    assert forall|i: int, j: int| 0 <= i < j < ks2.len() implies K::before(
        #[trigger] ks2[i],
        #[trigger] ks2[j],
    ) by {
        let a = if i < p {
            i
        } else {
            i + 1
        };
        let b = if j < p {
            j
        } else {
            j + 1
        };
        assert(ks2[i] == ks[a] && ks2[j] == ks[b]);
    }
    let m = paired(ks, vs).remove(k);
    let m2 = paired(ks2, vs2);
    assert forall|x: K::V| m2.dom().contains(x) <==> m.dom().contains(x) by {
        if ks2.contains(x) {
            let i = choose|i: int| 0 <= i < ks2.len() && ks2[i] == x;
            if i < p {
                assert(ks[i] == x);
            } else {
                assert(ks[i + 1] == x);
            }
        }
        if ks.contains(x) && x != k {
            let i = choose|i: int| 0 <= i < ks.len() && ks[i] == x;
            if i < p {
                assert(ks2[i] == x);
            } else {
                assert(ks2[i - 1] == x);
            }
        }
    }
    assert forall|x: K::V| m2.dom().contains(x) implies m2[x] == m[x] by {
        let i = choose|i: int| 0 <= i < ks2.len() && ks2[i] == x;
        lemma_paired_at::<K, B>(ks2, vs2, i);
        if i < p {
            assert(ks[i] == x);
            lemma_paired_at::<K, B>(ks, vs, i);
        } else {
            assert(ks[i + 1] == x);
            lemma_paired_at::<K, B>(ks, vs, i + 1);
        }
    }
    assert(m2 =~= m);
}

/// Two ascending listings of the same keys are the same listing.
pub proof fn lemma_ascending_unique<K: Key>(a: Seq<K::V>, b: Seq<K::V>)
    requires
        ascending::<K>(a),
        ascending::<K>(b),
        forall|x: K::V| a.contains(x) <==> b.contains(x),
    ensures
        a == b,
    decreases a.len(),
{
    if a.len() == 0 {
        if b.len() > 0 {
            assert(b.contains(b[0]));
            assert(a.contains(b[0]));
        }
        assert(a =~= b);
    } else {
        assert(a.contains(a.last()));
        assert(b.contains(a.last()));
        assert(b.contains(b.last()));
        assert(a.contains(b.last()));
        let i = choose|i: int| 0 <= i < b.len() && b[i] == a.last();
        let j = choose|j: int| 0 <= j < a.len() && a[j] == b.last();
        if a.last() != b.last() {
            assert(K::before(b[i], b.last()));
            assert(K::before(a[j], a.last()));
            K::transitive(a.last(), b.last(), a.last());
            K::irreflexive(a.last());
        }
        let a1 = a.drop_last();
        let b1 = b.drop_last();
        lemma_ascending_distinct::<K>(a);
        lemma_ascending_distinct::<K>(b);
        assert forall|x: K::V| a1.contains(x) <==> b1.contains(x) by {
            if a1.contains(x) {
                let k = choose|k: int| 0 <= k < a1.len() && a1[k] == x;
                assert(a[k] == x);
                assert(a.contains(x));
                let l = choose|l: int| 0 <= l < b.len() && b[l] == x;
                assert(b1[l] == x);
            }
            if b1.contains(x) {
                let k = choose|k: int| 0 <= k < b1.len() && b1[k] == x;
                assert(b[k] == x);
                assert(b.contains(x));
                let l = choose|l: int| 0 <= l < a.len() && a[l] == x;
                assert(a1[l] == x);
            }
        }
        lemma_ascending_unique::<K>(a1, b1);
        assert(a =~= a1.push(a.last()));
        assert(b =~= b1.push(b.last()));
    }
}

/// The keys of a map in ascending order.
pub open spec fn sorted_keys<K: Key, B>(m: Map<K::V, B>) -> Seq<K::V> {
    choose|s: Seq<K::V>|
        ascending::<K>(s) && (forall|x: K::V| #[trigger] s.contains(x) <==> m.dom().contains(x))
}

/// The one ascending listing of a map's keys is `sorted_keys`.
pub proof fn lemma_sorted_keys<K: Key, B>(m: Map<K::V, B>, ks: Seq<K::V>)
    requires
        ascending::<K>(ks),
        forall|x: K::V| #[trigger] ks.contains(x) <==> m.dom().contains(x),
    ensures
        sorted_keys::<K, B>(m) == ks,
{
    lemma_ascending_unique::<K>(sorted_keys::<K, B>(m), ks);
}

/// Where a new key belongs among ascending ones.
proof fn lemma_place<K: Key>(ks: Seq<K::V>, x: K::V) -> (p: int)
    requires
        ascending::<K>(ks),
        !ks.contains(x),
    ensures
        0 <= p <= ks.len(),
        forall|i: int| 0 <= i < p ==> K::before(#[trigger] ks[i], x),
        forall|i: int| p <= i < ks.len() ==> K::before(x, #[trigger] ks[i]),
    decreases ks.len(),
{
    if ks.len() == 0 {
        0
    } else {
        K::total(ks.last(), x);
        assert(ks.contains(ks.last()));
        if K::before(ks.last(), x) {
            assert forall|i: int| 0 <= i < ks.len() implies K::before(#[trigger] ks[i], x) by {
                if i < ks.len() - 1 {
                    K::transitive(ks[i], ks[ks.len() - 1], x);
                }
            }
            ks.len() as int
        } else {
            let front = ks.drop_last();
            assert(!front.contains(x)) by {
                if front.contains(x) {
                    let i = choose|i: int| 0 <= i < front.len() && front[i] == x;
                    assert(ks[i] == x);
                }
            }
            let p = lemma_place::<K>(front, x);
            assert forall|i: int| 0 <= i < p implies K::before(#[trigger] ks[i], x) by {
                assert(front[i] == ks[i]);
            }
            assert forall|i: int| p <= i < ks.len() implies K::before(x, #[trigger] ks[i]) by {
                if i < front.len() {
                    assert(front[i] == ks[i]);
                }
            }
            p
        }
    }
}

/// A new key at its place among ascending ones.
proof fn lemma_placed<K: Key>(ks: Seq<K::V>, x: K::V) -> (p: int)
    requires
        ascending::<K>(ks),
        !ks.contains(x),
    ensures
        0 <= p <= ks.len(),
        ascending::<K>(ks.insert(p, x)),
        forall|y: K::V| #[trigger] ks.insert(p, x).contains(y) <==> ks.contains(y) || y == x,
{
    let p = lemma_place::<K>(ks, x);
    let s = ks.insert(p, x);
    assert forall|i: int, j: int| 0 <= i < j < s.len() implies K::before(
        #[trigger] s[i],
        #[trigger] s[j],
    ) by {
        let a = if i < p {
            i
        } else {
            i - 1
        };
        let b = if j < p {
            j
        } else {
            j - 1
        };
        if i != p {
            assert(s[i] == ks[a]);
        }
        if j != p {
            assert(s[j] == ks[b]);
        }
    }
    assert forall|y: K::V| #[trigger] s.contains(y) <==> ks.contains(y) || y == x by {
        if s.contains(y) {
            let i = choose|i: int| 0 <= i < s.len() && s[i] == y;
            if i < p {
                assert(ks[i] == y);
            } else if i > p {
                assert(ks[i - 1] == y);
            }
        }
        if ks.contains(y) {
            let i = choose|i: int| 0 <= i < ks.len() && ks[i] == y;
            if i < p {
                assert(s[i] == y);
            } else {
                assert(s[i + 1] == y);
            }
        }
        assert(s[p] == x);
    }
    p
}

proof fn lemma_sorted_listing<K: Key>(d: Set<K::V>) -> (s: Seq<K::V>)
    requires
        d.finite(),
    ensures
        ascending::<K>(s),
        forall|x: K::V| #[trigger] s.contains(x) <==> d.contains(x),
    decreases d.len(),
{
    if d.len() == 0 {
        let s = Seq::<K::V>::empty();
        assert(d =~= Set::<K::V>::empty());
        s
    } else {
        let x = d.choose();
        let rest = lemma_sorted_listing::<K>(d.remove(x));
        let p = lemma_placed::<K>(rest, x);
        rest.insert(p, x)
    }
}

/// A new key finds its place among the sorted ones.
pub proof fn lemma_sorted_keys_insert<K: Key, B>(m: Map<K::V, B>, k: K::V, v: B) -> (p: int)
    requires
        m.dom().finite(),
        !m.dom().contains(k),
    ensures
        0 <= p <= sorted_keys::<K, B>(m).len(),
        sorted_keys::<K, B>(m.insert(k, v)) == sorted_keys::<K, B>(m).insert(p, k),
{
    lemma_sorted_keys_lists::<K, B>(m);
    let ks = sorted_keys::<K, B>(m);
    let p = lemma_placed::<K>(ks, k);
    lemma_sorted_keys::<K, B>(m.insert(k, v), ks.insert(p, k));
    p
}

/// The keys of a finite map can be listed in ascending order, and `sorted_keys`
/// does so.
pub proof fn lemma_sorted_keys_lists<K: Key, B>(m: Map<K::V, B>)
    requires
        m.dom().finite(),
    ensures
        ascending::<K>(sorted_keys::<K, B>(m)),
        sorted_keys::<K, B>(m).no_duplicates(),
        forall|x: K::V| #[trigger] sorted_keys::<K, B>(m).contains(x) <==> m.dom().contains(x),
{
    let s = lemma_sorted_listing::<K>(m.dom());
    lemma_sorted_keys::<K, B>(m, s);
    lemma_ascending_distinct::<K>(s);
}

impl<K: Key, V: View> View for OrdMap<K, V> {
    type V = Map<K::V, V::V>;

    closed spec fn view(&self) -> Map<K::V, V::V> {
        paired(self.keys(), self.values())
    }
}

impl<K: Key, V: View> OrdMap<K, V> {
    /// The keys in the order in which they are walked.
    pub closed spec fn keys(&self) -> Seq<K::V> {
        self.entries@.map_values(|e: (K, V)| e.0@)
    }

    /// The values, each at the place of its key.
    pub closed spec fn values(&self) -> Seq<V::V> {
        self.entries@.map_values(|e: (K, V)| e.1@)
    }

    /// The keys stand in strictly ascending order.
    pub open spec fn wf(&self) -> bool {
        &&& ascending::<K>(self.keys())
        &&& self.keys().len() == self.values().len()
        &&& self@ == paired(self.keys(), self.values())
    }

    pub fn new() -> (r: Self)
        ensures
            r.wf(),
            r@ == Map::<K::V, V::V>::empty(),
            r.keys() == Seq::<K::V>::empty(),
            r.values() == Seq::<V::V>::empty(),
    {
        let r = OrdMap { entries: Vec::new() };
        assert(r.keys() =~= Seq::<K::V>::empty());
        assert(r.values() =~= Seq::<V::V>::empty());
        assert(r@ =~= Map::<K::V, V::V>::empty());
        r
    }

    pub fn len(&self) -> (r: usize)
        requires
            self.wf(),
        ensures
            r == self.keys().len(),
            r == self@.dom().len(),
            self@.dom().finite(),
    {
        proof {
            lemma_paired_len::<K, V::V>(self.keys(), self.values());
        }
        self.entries.len()
    }

    /// Where `key` is, or where it would have to stand.
    fn locate(&self, key: &K) -> (r: (bool, usize))
        requires
            self.wf(),
        ensures
            r.1 <= self.keys().len(),
            forall|i: int| 0 <= i < r.1 ==> K::before(#[trigger] self.keys()[i], key@),
            r.0 ==> r.1 < self.keys().len() && self.keys()[r.1 as int] == key@,
            !r.0 ==> forall|i: int|
                r.1 <= i < self.keys().len() ==> K::before(key@, #[trigger] self.keys()[i]),
    {
        let mut lo: usize = 0;
        let mut hi: usize = self.entries.len();
        let ghost ks = self.keys();
        while lo < hi
            invariant
                lo <= hi <= self.entries@.len(),
                ks == self.keys(),
                ks.len() == self.entries@.len(),
                ascending::<K>(ks),
                forall|i: int| 0 <= i < lo ==> K::before(#[trigger] ks[i], key@),
                forall|i: int| hi <= i < ks.len() ==> K::before(key@, #[trigger] ks[i]),
            decreases hi - lo,
        {
            let mid: usize = lo + (hi - lo) / 2;
            assert(ks[mid as int] == self.entries@[mid as int].0@);
            match self.entries[mid].0.rank(key) {
                Rank::Before => {
                    assert forall|i: int| 0 <= i < mid + 1 implies K::before(
                        #[trigger] ks[i],
                        key@,
                    ) by {
                        if i < mid {
                            K::transitive(ks[i], ks[mid as int], key@);
                        }
                    }
                    lo = mid + 1;
                },
                Rank::Same => {
                    return (true, mid);
                },
                Rank::After => {
                    assert forall|i: int| mid <= i < ks.len() implies K::before(
                        key@,
                        #[trigger] ks[i],
                    ) by {
                        if i > mid {
                            K::transitive(key@, ks[mid as int], ks[i]);
                        }
                    }
                    hi = mid;
                },
            }
        }
        (false, lo)
    }

    /// No key stands twice, and the keys are the domain of the map.
    pub proof fn lemma_keys(&self)
        requires
            self.wf(),
        ensures
            self.keys().no_duplicates(),
            self@.dom().finite(),
            self@.dom().len() == self.keys().len(),
            forall|k: K::V| self@.dom().contains(k) <==> self.keys().contains(k),
            self.keys() == sorted_keys::<K, V::V>(self@),
            forall|i: int|
                0 <= i < self.keys().len() ==> self@.dom().contains(#[trigger] self.keys()[i])
                    && self@[self.keys()[i]] == self.values()[i],
    {
        lemma_ascending_distinct::<K>(self.keys());
        lemma_paired_len::<K, V::V>(self.keys(), self.values());
        lemma_sorted_keys::<K, V::V>(self@, self.keys());
        assert forall|i: int| 0 <= i < self.keys().len() implies self@.dom().contains(
            #[trigger] self.keys()[i],
        ) && self@[self.keys()[i]] == self.values()[i] by {
            lemma_paired_at::<K, V::V>(self.keys(), self.values(), i);
        }
    }

    proof fn lemma_absent(&self, key: K::V, p: int)
        requires
            self.wf(),
            0 <= p <= self.keys().len(),
            forall|i: int| 0 <= i < p ==> K::before(#[trigger] self.keys()[i], key),
            forall|i: int| p <= i < self.keys().len() ==> K::before(key, #[trigger] self.keys()[i]),
        ensures
            !self@.dom().contains(key),
    {
        if self.keys().contains(key) {
            let i = choose|i: int| 0 <= i < self.keys().len() && self.keys()[i] == key;
            K::irreflexive(key);
        }
    }

    pub fn contains_key(&self, key: &K) -> (r: bool)
        requires
            self.wf(),
        ensures
            r == self@.dom().contains(key@),
    {
        let (found, p) = self.locate(key);
        proof {
            if found {
                lemma_paired_at::<K, V::V>(self.keys(), self.values(), p as int);
            } else {
                self.lemma_absent(key@, p as int);
            }
        }
        found
    }

    pub fn get<'a>(&'a self, key: &K) -> (r: Option<&'a V>)
        requires
            self.wf(),
        ensures
            match r {
                Some(v) => self@.dom().contains(key@) && v@ == self@[key@],
                None => !self@.dom().contains(key@),
            },
    {
        let (found, p) = self.locate(key);
        if found {
            proof {
                lemma_paired_at::<K, V::V>(self.keys(), self.values(), p as int);
            }
            Some(&self.entries[p].1)
        } else {
            proof {
                self.lemma_absent(key@, p as int);
            }
            None
        }
    }

    pub fn get_mut<'a>(&'a mut self, key: &K) -> (r: Option<&'a mut V>)
        requires
            old(self).wf(),
        ensures
            final(self).wf(),
            final(self).keys() == old(self).keys(),
            match r {
                Some(v) => {
                    &&& old(self)@.dom().contains(key@)
                    &&& v@ == old(self)@[key@]
                    &&& final(self)@ == old(self)@.insert(key@, (*final(v))@)
                },
                None => {
                    &&& !old(self)@.dom().contains(key@)
                    &&& final(self)@ == old(self)@
                },
            },
    {
        let (found, p) = self.locate(key);
        if found {
            Some(self.value_at_mut(p))
        } else {
            proof {
                self.lemma_absent(key@, p as int);
            }
            None
        }
    }

    pub fn insert(&mut self, key: K, value: V) -> (r: Option<V>)
        requires
            old(self).wf(),
        ensures
            final(self).wf(),
            final(self)@ == old(self)@.insert(key@, value@),
            match r {
                Some(v) => old(self)@.dom().contains(key@) && v@ == old(self)@[key@],
                None => !old(self)@.dom().contains(key@),
            },
    {
        let (found, p) = self.locate(&key);
        let ghost ks = self.keys();
        let ghost vs = self.values();
        if found {
            let mut value = value;
            proof {
                lemma_paired_update::<K, V::V>(ks, vs, p as int, value@);
            }
            let slot: &mut V = &mut self.entries[p].1;
            std::mem::swap(slot, &mut value);
            assert(self.keys() =~= ks);
            assert(self.values() =~= vs.update(p as int, self.entries@[p as int].1@));
            Some(value)
        } else {
            proof {
                lemma_paired_insert::<K, V::V>(ks, vs, p as int, key@, value@);
            }
            let ghost k = key@;
            let ghost v = value@;
            self.entries.insert(p, (key, value));
            assert(self.keys() =~= ks.insert(p as int, k));
            assert(self.values() =~= vs.insert(p as int, v));
            None
        }
    }

    /// The value of `key`, which becomes `fresh` first if there is none.
    pub fn entry_or<'a>(&'a mut self, key: K, fresh: V) -> (r: &'a mut V)
        requires
            old(self).wf(),
        ensures
            final(self).wf(),
            r@ == (if old(self)@.dom().contains(key@) {
                old(self)@[key@]
            } else {
                fresh@
            }),
            final(self)@ == old(self)@.insert(key@, (*final(r))@),
    {
        let (found, p) = self.locate(&key);
        let ghost k = key@;
        let ghost before = self@;
        if !found {
            let ghost ks = self.keys();
            let ghost vs = self.values();
            let ghost v = fresh@;
            proof {
                lemma_paired_insert::<K, V::V>(ks, vs, p as int, k, v);
            }
            self.entries.insert(p, (key, fresh));
            assert(self.keys() =~= ks.insert(p as int, k));
            assert(self.values() =~= vs.insert(p as int, v));
        } else {
            proof {
                lemma_paired_at::<K, V::V>(self.keys(), self.values(), p as int);
            }
        }
        assert(self.keys()[p as int] == k);
        assert(forall|x: V::V| #[trigger] self@.insert(k, x) =~= before.insert(k, x));
        self.value_at_mut(p)
    }

    pub fn remove(&mut self, key: &K) -> (r: Option<V>)
        requires
            old(self).wf(),
        ensures
            final(self).wf(),
            final(self)@ == old(self)@.remove(key@),
            match r {
                Some(v) => old(self)@.dom().contains(key@) && v@ == old(self)@[key@],
                None => !old(self)@.dom().contains(key@),
            },
    {
        let (found, p) = self.locate(key);
        if found {
            let e = self.remove_at(p);
            Some(e.1)
        } else {
            proof {
                self.lemma_absent(key@, p as int);
                assert(self@.remove(key@) =~= self@);
            }
            None
        }
    }

    /// Takes out the entry at place `i`.
    pub fn remove_at(&mut self, i: usize) -> (r: (K, V))
        requires
            old(self).wf(),
            i < old(self).keys().len(),
        ensures
            final(self).wf(),
            r.0@ == old(self).keys()[i as int],
            r.1@ == old(self).values()[i as int],
            final(self).keys() == old(self).keys().remove(i as int),
            final(self).values() == old(self).values().remove(i as int),
            final(self)@ == old(self)@.remove(r.0@),
            old(self)@.dom().contains(r.0@),
            old(self)@[r.0@] == r.1@,
    {
        let ghost ks = self.keys();
        let ghost vs = self.values();
        proof {
            lemma_paired_remove::<K, V::V>(ks, vs, i as int);
        }
        let e: (K, V) = self.entries.remove(i);
        assert(self.keys() =~= ks.remove(i as int));
        assert(self.values() =~= vs.remove(i as int));
        e
    }

    pub fn key_at<'a>(&'a self, i: usize) -> (r: &'a K)
        requires
            self.wf(),
            i < self.keys().len(),
        ensures
            r@ == self.keys()[i as int],
            self@.dom().contains(r@),
            self@[r@] == self.values()[i as int],
    {
        proof {
            lemma_paired_at::<K, V::V>(self.keys(), self.values(), i as int);
        }
        &self.entries[i].0
    }

    pub fn value_at<'a>(&'a self, i: usize) -> (r: &'a V)
        requires
            self.wf(),
            i < self.keys().len(),
        ensures
            r@ == self.values()[i as int],
            self@.dom().contains(self.keys()[i as int]),
            self@[self.keys()[i as int]] == r@,
    {
        proof {
            lemma_paired_at::<K, V::V>(self.keys(), self.values(), i as int);
        }
        &self.entries[i].1
    }

    pub fn value_at_mut<'a>(&'a mut self, i: usize) -> (r: &'a mut V)
        requires
            old(self).wf(),
            i < old(self).keys().len(),
        ensures
            final(self).wf(),
            r@ == old(self).values()[i as int],
            old(self)@.dom().contains(old(self).keys()[i as int]),
            old(self)@[old(self).keys()[i as int]] == r@,
            final(self).keys() == old(self).keys(),
            final(self).values() == old(self).values().update(i as int, (*final(r))@),
            final(self)@ == old(self)@.insert(old(self).keys()[i as int], (*final(r))@),
    {
        let ghost ks = self.keys();
        let ghost vs = self.values();
        let r: &mut V = &mut self.entries[i].1;
        proof {
            lemma_paired_update::<K, V::V>(ks, vs, i as int, (*final(r))@);
            let after = after_borrow(self.entries);
            assert(after@.map_values(|e: (K, V)| e.0@) =~= ks);
            assert(after@.map_values(|e: (K, V)| e.1@) =~= vs.update(i as int, (*final(r))@));
        }
        r
    }
}

// Ranges.

/// One end of a range of keys.
#[derive(Clone, Debug, PartialEq, Eq)]
pub enum Bound<K> {
    Included(K),
    Excluded(K),
    Unbounded,
}

/// One end of a range of abstract keys.
pub enum BoundModel<A> {
    Included(A),
    Excluded(A),
    Unbounded,
}

impl<K: View> View for Bound<K> {
    type V = BoundModel<K::V>;

    open spec fn view(&self) -> BoundModel<K::V> {
        match self {
            Bound::Included(k) => BoundModel::Included(k@),
            Bound::Excluded(k) => BoundModel::Excluded(k@),
            Bound::Unbounded => BoundModel::Unbounded,
        }
    }
}

/// Whether `k` lies between the two ends.
pub open spec fn within<K: Key>(
    k: K::V,
    lower: BoundModel<K::V>,
    upper: BoundModel<K::V>,
) -> bool {
    &&& match lower {
        BoundModel::Included(a) => a == k || K::before(a, k),
        BoundModel::Excluded(a) => K::before(a, k),
        BoundModel::Unbounded => true,
    }
    &&& match upper {
        BoundModel::Included(b) => k == b || K::before(k, b),
        BoundModel::Excluded(b) => K::before(k, b),
        BoundModel::Unbounded => true,
    }
}

/// Whether the two ends make a range: the lower one does not lie behind the
/// upper one, and the two do not exclude the same key.
pub open spec fn is_range<K: Key>(lower: BoundModel<K::V>, upper: BoundModel<K::V>) -> bool {
    match (lower, upper) {
        (BoundModel::Unbounded, _) => true,
        (_, BoundModel::Unbounded) => true,
        (BoundModel::Included(a), BoundModel::Included(b)) => !K::before(b, a),
        (BoundModel::Included(a), BoundModel::Excluded(b)) => !K::before(b, a),
        (BoundModel::Excluded(a), BoundModel::Included(b)) => !K::before(b, a),
        (BoundModel::Excluded(a), BoundModel::Excluded(b)) => K::before(a, b),
    }
}

/// The entries of `m` whose keys lie between the two ends, in ascending order.
pub open spec fn entries_within<K: Key, B>(
    m: Map<K::V, B>,
    lower: BoundModel<K::V>,
    upper: BoundModel<K::V>,
) -> Seq<(K::V, B)> {
    sorted_keys::<K, B>(m).filter(|k: K::V| within::<K>(k, lower, upper)).map_values(
        |k: K::V| (k, m[k]),
    )
}

/// The views of a list of borrowed entries.
pub open spec fn entry_views<K: View, V: View>(v: Seq<(&K, &V)>) -> Seq<(K::V, V::V)> {
    v.map_values(|e: (&K, &V)| (e.0@, e.1@))
}

/// A listing by [`entries_within`] names the keys between the two ends and no
/// others, in ascending order and each with its value.
pub proof fn law_entries_within<K: Key, B>(
    m: Map<K::V, B>,
    lower: BoundModel<K::V>,
    upper: BoundModel<K::V>,
)
    requires
        m.dom().finite(),
    ensures
        ({
            let es = entries_within::<K, B>(m, lower, upper);
            &&& forall|i: int, j: int|
                0 <= i < j < es.len() ==> K::before((#[trigger] es[i]).0, (#[trigger] es[j]).0)
            &&& forall|i: int|
                0 <= i < es.len() ==> m.dom().contains((#[trigger] es[i]).0) && m[es[i].0]
                    == es[i].1 && within::<K>(es[i].0, lower, upper)
            &&& forall|k: K::V| #[trigger]
                m.dom().contains(k) && within::<K>(k, lower, upper) ==> es.contains((k, m[k]))
        }),
{
    lemma_sorted_keys_lists::<K, B>(m);
    let ks = sorted_keys::<K, B>(m);
    let f = |k: K::V| within::<K>(k, lower, upper);
    lemma_filtered::<K>(ks, f);
    let kept = ks.filter(f);
    let es = entries_within::<K, B>(m, lower, upper);
    assert forall|i: int| 0 <= i < es.len() implies m.dom().contains((#[trigger] es[i]).0)
        && m[es[i].0] == es[i].1 && within::<K>(es[i].0, lower, upper) by {
        assert(es[i] == (kept[i], m[kept[i]]));
        assert(kept.contains(kept[i]));
        assert(ks.contains(kept[i]));
    }
    assert forall|i: int, j: int| 0 <= i < j < es.len() implies K::before(
        (#[trigger] es[i]).0,
        (#[trigger] es[j]).0,
    ) by {
        assert(K::before(kept[i], kept[j]));
    }
    assert forall|k: K::V| #[trigger]
        m.dom().contains(k) && within::<K>(k, lower, upper) implies es.contains((k, m[k])) by {
        assert(ks.contains(k));
        assert(kept.contains(k));
        let i = choose|i: int| 0 <= i < kept.len() && kept[i] == k;
        assert(es[i] == (k, m[k]));
    }
}

/// A listing by [`entries_within`] without ends has as many entries as the map.
pub proof fn law_entries_of_all<K: Key, B>(m: Map<K::V, B>)
    requires
        m.dom().finite(),
    ensures
        entries_within::<K, B>(m, BoundModel::Unbounded, BoundModel::Unbounded).len()
            == m.dom().len(),
{
    let none = BoundModel::<K::V>::Unbounded;
    let ks = sorted_keys::<K, B>(m);
    let f = |k: K::V| within::<K>(k, none, none);
    lemma_sorted_keys_lists::<K, B>(m);
    lemma_filter_all(ks, f);
    ks.unique_seq_to_set();
    assert(ks.to_set() =~= m.dom());
}

proof fn lemma_filter_all<A>(s: Seq<A>, f: spec_fn(A) -> bool)
    requires
        forall|x: A| #[trigger] f(x),
    ensures
        s.filter(f) == s,
    decreases s.len(),
{
    reveal(Seq::filter);
    if s.len() > 0 {
        lemma_filter_all(s.drop_last(), f);
        assert(s.drop_last().push(s.last()) =~= s);
    }
}

/// A filtered ascending listing is ascending and lists what passes.
pub proof fn lemma_filtered<K: Key>(ks: Seq<K::V>, f: spec_fn(K::V) -> bool)
    requires
        ascending::<K>(ks),
    ensures
        ascending::<K>(ks.filter(f)),
        forall|k: K::V| #[trigger] ks.filter(f).contains(k) <==> ks.contains(k) && f(k),
    decreases ks.len(),
{
    reveal(Seq::filter);
    let r = ks.filter(f);
    if ks.len() > 0 {
        let front = ks.drop_last();
        let last = ks.last();
        let g = front.filter(f);
        lemma_filtered::<K>(front, f);
        assert forall|k: K::V| #[trigger] r.contains(k) <==> ks.contains(k) && f(k) by {
            if ks.contains(k) && f(k) {
                let i = choose|i: int| 0 <= i < ks.len() && ks[i] == k;
                if i < front.len() {
                    assert(front[i] == k);
                    assert(g.contains(k));
                    let j = choose|j: int| 0 <= j < g.len() && g[j] == k;
                    assert(r[j] == k);
                } else {
                    assert(r[g.len() as int] == k);
                }
            }
            if r.contains(k) {
                let j = choose|j: int| 0 <= j < r.len() && r[j] == k;
                if j < g.len() {
                    assert(g[j] == k);
                    assert(g.contains(k));
                    let i = choose|i: int| 0 <= i < front.len() && front[i] == k;
                    assert(ks[i] == k);
                } else {
                    assert(ks[ks.len() - 1] == k);
                }
            }
        }
        assert forall|i: int, j: int| 0 <= i < j < r.len() implies K::before(
            #[trigger] r[i],
            #[trigger] r[j],
        ) by {
            assert(r[i] == g[i]);
            if j < g.len() {
                assert(r[j] == g[j]);
            } else {
                assert(g.contains(g[i]));
                let a = choose|a: int| 0 <= a < front.len() && front[a] == g[i];
                assert(ks[a] == r[i]);
                assert(ks[ks.len() - 1] == r[j]);
            }
        }
    }
}

impl<K: Key> Bound<K> {
    fn below(&self, k: &K) -> (r: bool)
        ensures
            r == within::<K>(k@, self@, BoundModel::Unbounded),
    {
        match self {
            Bound::Included(a) => match a.rank(k) {
                Rank::After => {
                    proof {
                        K::irreflexive(k@);
                        if K::before(a@, k@) {
                            K::transitive(a@, k@, a@);
                            K::irreflexive(a@);
                        }
                    }
                    false
                },
                _ => true,
            },
            Bound::Excluded(a) => match a.rank(k) {
                Rank::Before => true,
                Rank::Same => {
                    proof {
                        K::irreflexive(k@);
                    }
                    false
                },
                Rank::After => {
                    proof {
                        if K::before(a@, k@) {
                            K::transitive(a@, k@, a@);
                            K::irreflexive(a@);
                        }
                    }
                    false
                },
            },
            Bound::Unbounded => true,
        }
    }

    fn above(&self, k: &K) -> (r: bool)
        ensures
            r == within::<K>(k@, BoundModel::Unbounded, self@),
    {
        match self {
            Bound::Included(b) => match k.rank(b) {
                Rank::After => {
                    proof {
                        K::irreflexive(k@);
                        if K::before(k@, b@) {
                            K::transitive(k@, b@, k@);
                        }
                    }
                    false
                },
                _ => true,
            },
            Bound::Excluded(b) => match k.rank(b) {
                Rank::Before => true,
                Rank::Same => {
                    proof {
                        K::irreflexive(k@);
                    }
                    false
                },
                Rank::After => {
                    proof {
                        K::irreflexive(k@);
                        if K::before(k@, b@) {
                            K::transitive(k@, b@, k@);
                        }
                    }
                    false
                },
            },
            Bound::Unbounded => true,
        }
    }
}

/// Whether `a` comes strictly before `b`.
fn key_before<K: Key>(a: &K, b: &K) -> (r: bool)
    ensures
        r == K::before(a@, b@),
{
    proof {
        K::irreflexive(a@);
        if K::before(a@, b@) && K::before(b@, a@) {
            K::transitive(a@, b@, a@);
        }
    }
    match a.rank(b) {
        Rank::Before => true,
        _ => false,
    }
}

/// Whether the two ends make a range that can be scanned.
pub fn valid_range<K: Key>(lower: &Bound<K>, upper: &Bound<K>) -> (r: bool)
    ensures
        r == is_range::<K>(lower@, upper@),
{
    match lower {
        Bound::Unbounded => true,
        Bound::Included(a) => match upper {
            Bound::Unbounded => true,
            Bound::Included(b) => !key_before(b, a),
            Bound::Excluded(b) => !key_before(b, a),
        },
        Bound::Excluded(a) => match upper {
            Bound::Unbounded => true,
            Bound::Included(b) => !key_before(b, a),
            Bound::Excluded(b) => key_before(a, b),
        },
    }
}

impl<K: Key, V: View> OrdMap<K, V> {
    /// The entries whose keys lie between the two ends, in ascending key order.
    pub fn range<'a>(&'a self, lower: &Bound<K>, upper: &Bound<K>) -> (r: Vec<(&'a K, &'a V)>)
        requires
            self.wf(),
            is_range::<K>(lower@, upper@),
        ensures
            entry_views(r@) == entries_within::<K, V::V>(self@, lower@, upper@),
    {
        let ghost ks = self.keys();
        let ghost f = |k: K::V| within::<K>(k, lower@, upper@);
        proof {
            self.lemma_keys();
            reveal(Seq::filter);
        }
        let n: usize = self.len();
        let mut out: Vec<(&'a K, &'a V)> = Vec::new();
        let mut i: usize = 0;
        let ghost g = |k: K::V| (k, self@[k]);
        assert(entry_views(out@) =~= Seq::<(K::V, V::V)>::empty());
        assert(ks.take(0).filter(f).map_values(g) =~= Seq::<(K::V, V::V)>::empty());
        while i < n
            invariant
                i <= n,
                self.wf(),
                ks == self.keys(),
                n == ks.len(),
                f == (|k: K::V| within::<K>(k, lower@, upper@)),
                g == (|k: K::V| (k, self@[k])),
                entry_views(out@) == ks.take(i as int).filter(f).map_values(g),
            decreases n - i,
        {
            let k: &'a K = self.key_at(i);
            let v: &'a V = self.value_at(i);
            proof {
                reveal(Seq::filter);
                assert(ks.take(i + 1).drop_last() =~= ks.take(i as int));
                assert(ks.take(i + 1).last() == k@);
            }
            if lower.below(k) && upper.above(k) {
                let ghost before = out@;
                out.push((k, v));
                proof {
                    assert(f(k@));
                    assert(entry_views(out@) =~= entry_views(before).push((k@, v@)));
                    let kept = ks.take(i as int).filter(f);
                    assert(kept.push(k@).map_values(g) =~= kept.map_values(g).push(g(k@)));
                }
            }
            i += 1;
        }
        assert(ks.take(n as int) =~= ks);
        out
    }
}

// What the order means.

/// Dictionary order: `a` comes before `b` exactly if, behind what the two have in common
/// at the front, `a` ends and `b` does not, or `a` goes on with the smaller character.
pub proof fn law_dictionary_order(p: Seq<char>, x: char, y: char, s: Seq<char>, t: Seq<char>)
    ensures
        x < y ==> text_before(p.push(x) + s, p.push(y) + t),
        x < y ==> !text_before(p.push(y) + t, p.push(x) + s),
        text_before(p, p.push(y) + t),
        !text_before(p.push(y) + t, p),
        !text_before(p, p),
        forall|a: Seq<char>, b: Seq<char>| #[trigger]
            <String as Key>::before(a, b) == text_before(a, b),
        forall|a: u64, b: u64| #[trigger] <u64 as Key>::before(a, b) <==> a < b,
{
    let a = p.push(x) + s;
    let b = p.push(y) + t;
    let n = p.len() as int;
    assert forall|k: int| 0 <= k < n implies a[k] == b[k] by {
        assert(a[k] == p[k] && b[k] == p[k]);
    }
    lemma_text_before_at(a, b, n);
    lemma_text_before_at(b, a, n);
    lemma_text_before_at(p, b, n);
    lemma_text_before_at(b, p, n);
    lemma_text_before_at(p, p, n);
    assert(a.skip(n)[0] == x);
    assert(b.skip(n)[0] == y);
}

/// Which keys lie in a range, and which ends make one, in numbers.
pub proof fn law_ranges(k: u64, a: u64, b: u64)
    ensures
        within::<u64>(k, BoundModel::Unbounded, BoundModel::Unbounded),
        within::<u64>(k, BoundModel::Included(a), BoundModel::Unbounded) <==> a <= k,
        within::<u64>(k, BoundModel::Excluded(a), BoundModel::Unbounded) <==> a < k,
        within::<u64>(k, BoundModel::Unbounded, BoundModel::Included(b)) <==> k <= b,
        within::<u64>(k, BoundModel::Unbounded, BoundModel::Excluded(b)) <==> k < b,
        within::<u64>(k, BoundModel::Included(a), BoundModel::Included(b)) <==> a <= k <= b,
        within::<u64>(k, BoundModel::Included(a), BoundModel::Excluded(b)) <==> a <= k < b,
        within::<u64>(k, BoundModel::Excluded(a), BoundModel::Included(b)) <==> a < k <= b,
        within::<u64>(k, BoundModel::Excluded(a), BoundModel::Excluded(b)) <==> a < k < b,
        is_range::<u64>(BoundModel::Unbounded, BoundModel::Included(b)),
        is_range::<u64>(BoundModel::Unbounded, BoundModel::Excluded(b)),
        is_range::<u64>(BoundModel::Unbounded, BoundModel::Unbounded),
        is_range::<u64>(BoundModel::Included(a), BoundModel::Unbounded),
        is_range::<u64>(BoundModel::Excluded(a), BoundModel::Unbounded),
        is_range::<u64>(BoundModel::Included(a), BoundModel::Included(b)) <==> a <= b,
        is_range::<u64>(BoundModel::Included(a), BoundModel::Excluded(b)) <==> a <= b,
        is_range::<u64>(BoundModel::Excluded(a), BoundModel::Included(b)) <==> a <= b,
        is_range::<u64>(BoundModel::Excluded(a), BoundModel::Excluded(b)) <==> a < b,
{
}

/// What the functions of a map return and leave behind, key by key.
pub proof fn law_map_calls<K: Key, V: View>()
    ensures
        forall|r: OrdMap<K, V>| #[trigger]
            call_ensures(OrdMap::<K, V>::new, (), r) ==> r@ == Map::<K::V, V::V>::empty(),
        forall|m: &OrdMap<K, V>, r: usize| #[trigger]
            call_ensures(OrdMap::<K, V>::len, (m,), r) ==> r == m@.dom().len(),
        forall|m: &OrdMap<K, V>, k: &K, r: bool| #[trigger]
            call_ensures(OrdMap::<K, V>::contains_key, (m, k), r) ==> (r <==> m@.dom().contains(
                k@,
            )),
        forall|m: &OrdMap<K, V>, k: &K, r: Option<&V>| #[trigger]
            call_ensures(OrdMap::<K, V>::get, (m, k), r) ==> {
                &&& r is Some <==> m@.dom().contains(k@)
                &&& r matches Some(v) ==> v@ == m@[k@]
            },
        forall|m: &mut OrdMap<K, V>, k: K, v: V, r: Option<V>| #[trigger]
            call_ensures(OrdMap::<K, V>::insert, (m, k, v), r) ==> (*final(m))@ == m@.insert(
                k@,
                v@,
            ),
        forall|m: &mut OrdMap<K, V>, k: &K, r: Option<V>| #[trigger]
            call_ensures(OrdMap::<K, V>::remove, (m, k), r) ==> (*final(m))@ == m@.remove(k@),
        forall|a: &Bound<K>, b: &Bound<K>, r: bool| #[trigger]
            call_ensures(valid_range::<K>, (a, b), r) ==> (r <==> is_range::<K>(a@, b@)),
{
}

} // verus!
