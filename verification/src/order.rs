//! The order of texts, and sets and maps that keep their keys in order.
use crate::text::chars_of;
use vstd::prelude::*;

verus! {

/// `a` comes strictly before `b` in dictionary order by code point.
pub open spec fn text_before(a: Seq<char>, b: Seq<char>) -> bool
    decreases a.len(),
{
    if b.len() == 0 {
        false
    } else if a.len() == 0 {
        true
    } else if a[0] != b[0] {
        a[0] < b[0]
    } else {
        text_before(a.skip(1), b.skip(1))
    }
}

pub proof fn lemma_text_before_irreflexive(a: Seq<char>)
    ensures
        !text_before(a, a),
    decreases a.len(),
{
    if a.len() > 0 {
        lemma_text_before_irreflexive(a.skip(1));
    }
}

pub proof fn lemma_text_before_transitive(a: Seq<char>, b: Seq<char>, c: Seq<char>)
    requires
        text_before(a, b),
        text_before(b, c),
    ensures
        text_before(a, c),
    decreases a.len(),
{
    if a.len() > 0 && a[0] == b[0] && b[0] == c[0] {
        lemma_text_before_transitive(a.skip(1), b.skip(1), c.skip(1));
    }
}

pub proof fn lemma_text_before_total(a: Seq<char>, b: Seq<char>)
    ensures
        text_before(a, b) || a == b || text_before(b, a),
    decreases a.len(),
{
    if a.len() > 0 && b.len() > 0 && a[0] == b[0] {
        lemma_text_before_total(a.skip(1), b.skip(1));
        if a.skip(1) == b.skip(1) {
            assert(a =~= seq![a[0]] + a.skip(1));
            assert(b =~= seq![b[0]] + b.skip(1));
        }
    } else if a.len() == 0 && b.len() == 0 {
        assert(a =~= b);
    }
}

/// Whether `a` comes strictly before `b`.
pub fn is_text_before(a: &str, b: &str) -> (r: bool)
    ensures
        r == text_before(a@, b@),
{
    let x = chars_of(a);
    let y = chars_of(b);
    let mut i: usize = 0;
    assert(a@.skip(0) =~= a@);
    assert(b@.skip(0) =~= b@);
    while i < x.len() && i < y.len() && x[i] == y[i]
        invariant
            x@ == a@,
            y@ == b@,
            i <= x.len(),
            i <= y.len(),
            text_before(a@, b@) == text_before(a@.skip(i as int), b@.skip(i as int)),
        decreases x.len() - i,
    {
        assert(a@.skip(i as int).skip(1) =~= a@.skip(i + 1));
        assert(b@.skip(i as int).skip(1) =~= b@.skip(i + 1));
        i = i + 1;
    }
    if i >= y.len() {
        false
    } else if i >= x.len() {
        true
    } else {
        x[i] < y[i]
    }
}

/// A key with a strict total order on what it stands for.
pub trait OrderedKey: DeepView + Sized {
    /// `a` comes strictly before `b`.
    spec fn before(a: Self::V, b: Self::V) -> bool;

    proof fn before_irreflexive(a: Self::V)
        ensures
            !Self::before(a, a),
    ;

    proof fn before_transitive(a: Self::V, b: Self::V, c: Self::V)
        requires
            Self::before(a, b),
            Self::before(b, c),
        ensures
            Self::before(a, c),
    ;

    proof fn before_total(a: Self::V, b: Self::V)
        ensures
            Self::before(a, b) || a == b || Self::before(b, a),
    ;

    /// Whether this key comes strictly before `other`.
    fn is_before(&self, other: &Self) -> (r: bool)
        ensures
            r == Self::before(self.deep_view(), other.deep_view()),
    ;
}

impl OrderedKey for String {
    open spec fn before(a: Seq<char>, b: Seq<char>) -> bool {
        text_before(a, b)
    }

    proof fn before_irreflexive(a: Seq<char>) {
        lemma_text_before_irreflexive(a);
    }

    proof fn before_transitive(a: Seq<char>, b: Seq<char>, c: Seq<char>) {
        lemma_text_before_transitive(a, b, c);
    }

    proof fn before_total(a: Seq<char>, b: Seq<char>) {
        lemma_text_before_total(a, b);
    }

    fn is_before(&self, other: &Self) -> (r: bool) {
        is_text_before(self.as_str(), other.as_str())
    }
}

/// The keys stand in strictly ascending order.
pub open spec fn ascending<K: OrderedKey>(keys: Seq<K::V>) -> bool {
    forall|i: int, j: int| 0 <= i < j < keys.len() ==> K::before(#[trigger] keys[i], #[trigger] keys[j])
}

/// Keys in strictly ascending order are determined by which keys they are.
pub proof fn lemma_ascending_unique<K: OrderedKey>(a: Seq<K::V>, b: Seq<K::V>)
    requires
        ascending::<K>(a),
        ascending::<K>(b),
        forall|k: K::V| a.contains(k) <==> b.contains(k),
    ensures
        a == b,
    decreases a.len(),
{
    if a.len() == 0 {
        if b.len() > 0 {
            assert(b.contains(b[0]));
        }
        assert(a =~= b);
    } else {
        assert(a.contains(a.last()));
        assert(b.contains(a.last()));
        let p: int = choose|p: int| 0 <= p < b.len() && b[p] == a.last();
        assert(b.contains(b.last()));
        assert(a.contains(b.last()));
        let q: int = choose|q: int| 0 <= q < a.len() && a[q] == b.last();
        if p < b.len() - 1 {
            assert(K::before(b[p], b[b.len() - 1]));
            if q < a.len() - 1 {
                assert(K::before(a[q], a[a.len() - 1]));
                K::before_transitive(a.last(), b.last(), a.last());
            }
            K::before_irreflexive(a.last());
        }
        assert(a.last() == b.last());
        let a1 = a.drop_last();
        let b1 = b.drop_last();
        assert forall|k: K::V| a1.contains(k) <==> b1.contains(k) by {
            lemma_drop_last_contains::<K>(a, k);
            lemma_drop_last_contains::<K>(b, k);
        }
        lemma_ascending_unique::<K>(a1, b1);
        assert(a =~= a1.push(a.last()));
        assert(b =~= b1.push(b.last()));
    }
}

proof fn lemma_drop_last_contains<K: OrderedKey>(a: Seq<K::V>, k: K::V)
    requires
        ascending::<K>(a),
        a.len() > 0,
    ensures
        a.drop_last().contains(k) <==> a.contains(k) && k != a.last(),
{
    if a.drop_last().contains(k) {
        let i: int = choose|i: int| 0 <= i < a.len() - 1 && a.drop_last()[i] == k;
        assert(a[i] == k);
        assert(K::before(a[i], a[a.len() - 1]));
        K::before_irreflexive(k);
    }
    if a.contains(k) && k != a.last() {
        let i: int = choose|i: int| 0 <= i < a.len() && a[i] == k;
        assert(a.drop_last()[i] == k);
    }
}

/// Places `k` into keys in ascending order that lack it.
proof fn lemma_ascending_insert<K: OrderedKey>(keys: Seq<K::V>, i: int, k: K::V)
    requires
        ascending::<K>(keys),
        0 <= i <= keys.len(),
        forall|j: int| 0 <= j < i ==> K::before(#[trigger] keys[j], k),
        forall|j: int| i <= j < keys.len() ==> K::before(k, #[trigger] keys[j]),
    ensures
        ascending::<K>(keys.insert(i, k)),
        forall|x: K::V| keys.insert(i, k).contains(x) <==> keys.contains(x) || x == k,
        !keys.contains(k),
{
    let new = keys.insert(i, k);
    assert forall|x: int, y: int| 0 <= x < y < new.len() implies K::before(
        #[trigger] new[x],
        #[trigger] new[y],
    ) by {
        let ox: int = if x < i { x } else { x - 1 };
        let oy: int = if y < i { y } else { y - 1 };
        if x == i {
            assert(new[y] == keys[oy]);
        } else if y == i {
            assert(new[x] == keys[ox]);
        } else {
            assert(new[x] == keys[ox] && new[y] == keys[oy]);
        }
    }
    assert forall|x: K::V| new.contains(x) <==> keys.contains(x) || x == k by {
        if keys.contains(x) {
            let j: int = choose|j: int| 0 <= j < keys.len() && keys[j] == x;
            assert(new[if j < i { j } else { j + 1 }] == x);
        }
        if x == k {
            assert(new[i] == k);
        }
        if new.contains(x) && x != k {
            let j: int = choose|j: int| 0 <= j < new.len() && new[j] == x;
            assert(keys[if j < i { j } else { j - 1 }] == x);
        }
    }
    if keys.contains(k) {
        let j: int = choose|j: int| 0 <= j < keys.len() && keys[j] == k;
        assert(K::before(keys[j], k) || K::before(k, keys[j]));
        K::before_irreflexive(k);
    }
}

/// A set of keys, kept in ascending order.
pub struct OrderedSet<K> {
    keys: Vec<K>,
}

impl<K: OrderedKey> DeepView for OrderedSet<K> {
    type V = Seq<K::V>;

    closed spec fn deep_view(&self) -> Seq<K::V> {
        self.keys.deep_view()
    }
}

impl<K: OrderedKey> OrderedSet<K> {
    /// The keys stand in ascending order, so none occurs twice.
    pub open spec fn wf(&self) -> bool {
        ascending::<K>(self.deep_view())
    }

    /// The empty set.
    pub fn new() -> (s: Self)
        ensures
            s.wf(),
            s.deep_view() == Seq::<K::V>::empty(),
    {
        let s: Self = OrderedSet { keys: Vec::new() };
        assert(s.deep_view() =~= Seq::<K::V>::empty());
        s
    }

    /// The keys, in ascending order.
    pub fn keys(&self) -> (r: &Vec<K>)
        ensures
            r.deep_view() == self.deep_view(),
    {
        &self.keys
    }

    /// The position of `k`, or the one where it belongs, and whether it is there.
    fn locate(&self, k: &K) -> (r: (usize, bool))
        requires
            self.wf(),
        ensures
            r.0 <= self.deep_view().len(),
            self.deep_view().len() == self.keys@.len(),
            forall|j: int| 0 <= j < r.0 ==> K::before(#[trigger] self.deep_view()[j], k.deep_view()),
            r.1 ==> r.0 < self.deep_view().len() && self.deep_view()[r.0 as int] == k.deep_view(),
            !r.1 ==> forall|j: int|
                r.0 <= j < self.deep_view().len() ==> K::before(
                    k.deep_view(),
                    #[trigger] self.deep_view()[j],
                ),
            r.1 == self.deep_view().contains(k.deep_view()),
    {
        let ghost keys = self.deep_view();
        let ghost kv = k.deep_view();
        let mut lo: usize = 0;
        let mut hi: usize = self.keys.len();
        while lo < hi
            invariant
                keys == self.deep_view(),
                keys.len() == self.keys@.len(),
                kv == k.deep_view(),
                ascending::<K>(keys),
                lo <= hi <= keys.len(),
                forall|j: int| 0 <= j < lo ==> K::before(#[trigger] keys[j], kv),
                forall|j: int| hi <= j < keys.len() ==> !K::before(#[trigger] keys[j], kv),
            decreases hi - lo,
        {
            let mid: usize = lo + (hi - lo) / 2;
            if self.keys[mid].is_before(k) {
                assert forall|j: int| 0 <= j < mid + 1 implies K::before(
                    #[trigger] keys[j],
                    kv,
                ) by {
                    if j < mid {
                        K::before_transitive(keys[j], keys[mid as int], kv);
                    }
                }
                lo = mid + 1;
            } else {
                assert forall|j: int| mid <= j < keys.len() implies !K::before(
                    #[trigger] keys[j],
                    kv,
                ) by {
                    if j > mid && K::before(keys[j], kv) {
                        K::before_transitive(keys[mid as int], keys[j], kv);
                    }
                }
                hi = mid;
            }
        }
        if lo < self.keys.len() && !k.is_before(&self.keys[lo]) {
            proof {
                K::before_total(keys[lo as int], kv);
                assert(keys.contains(kv));
            }
            (lo, true)
        } else {
            proof {
                assert forall|j: int| lo <= j < keys.len() implies K::before(
                    kv,
                    #[trigger] keys[j],
                ) by {
                    if j > lo {
                        K::before_transitive(kv, keys[lo as int], keys[j]);
                    }
                }
                if keys.contains(kv) {
                    let j: int = choose|j: int| 0 <= j < keys.len() && keys[j] == kv;
                    K::before_irreflexive(kv);
                }
            }
            (lo, false)
        }
    }

    /// Whether `k` is in the set.
    pub fn contains(&self, k: &K) -> (r: bool)
        requires
            self.wf(),
        ensures
            r == self.deep_view().contains(k.deep_view()),
    {
        self.locate(k).1
    }

    /// Adds `k`; tells whether it was new.
    pub fn insert(&mut self, k: K) -> (r: bool)
        requires
            old(self).wf(),
        ensures
            final(self).wf(),
            r == !old(self).deep_view().contains(k.deep_view()),
            !r ==> final(self).deep_view() == old(self).deep_view(),
            r ==> final(self).deep_view().len() == old(self).deep_view().len() + 1,
            forall|x: K::V|
                final(self).deep_view().contains(x) <==> old(self).deep_view().contains(x) || x
                    == k.deep_view(),
    {
        let (i, found) = self.locate(&k);
        if found {
            return false;
        }
        let ghost before = self.deep_view();
        let ghost kv = k.deep_view();
        self.keys.insert(i, k);
        proof {
            lemma_ascending_insert::<K>(before, i as int, kv);
            assert(self.deep_view() =~= before.insert(i as int, kv));
        }
        true
    }
}

/// The keys of some entries.
pub open spec fn keys_of<A, B>(entries: Seq<(A, B)>) -> Seq<A> {
    entries.map_values(|e: (A, B)| e.0)
}

/// The map that entries with distinct keys stand for.
pub open spec fn map_of<A, B>(entries: Seq<(A, B)>) -> Map<A, B> {
    Map::new(
        |k: A| keys_of(entries).contains(k),
        |k: A| entries[keys_of(entries).index_of(k)].1,
    )
}

/// Each entry is found under its key.
pub proof fn lemma_map_of_entry<A, B>(entries: Seq<(A, B)>, i: int)
    requires
        keys_of(entries).no_duplicates(),
        0 <= i < entries.len(),
    ensures
        map_of(entries).contains_key(entries[i].0),
        map_of(entries)[entries[i].0] == entries[i].1,
{
    let keys = keys_of(entries);
    assert(keys[i] == entries[i].0);
    assert(keys.contains(keys[i]));
    let j: int = keys.index_of(keys[i]);
    assert(0 <= j < keys.len() && keys[j] == keys[i]);
}

/// Entries with distinct keys make up a map when each entry is in it, and nothing else is.
proof fn lemma_map_of_is<A, B>(entries: Seq<(A, B)>, m: Map<A, B>)
    requires
        keys_of(entries).no_duplicates(),
        forall|i: int|
            0 <= i < entries.len() ==> m.contains_key((#[trigger] entries[i]).0) && m[entries[i].0]
                == entries[i].1,
        forall|k: A| #[trigger] m.contains_key(k) ==> keys_of(entries).contains(k),
    ensures
        map_of(entries) == m,
{
    let keys = keys_of(entries);
    assert forall|k: A| map_of(entries).contains_key(k) <==> m.contains_key(k) by {
        if keys.contains(k) {
            let i: int = choose|i: int| 0 <= i < keys.len() && keys[i] == k;
            assert(entries[i].0 == k);
        }
    }
    assert forall|k: A| #[trigger] map_of(entries).contains_key(k) implies map_of(entries)[k]
        == m[k] by {
        let i: int = choose|i: int| 0 <= i < keys.len() && keys[i] == k;
        assert(entries[i].0 == k);
        lemma_map_of_entry(entries, i);
    }
    assert(map_of(entries) =~= m);
}

proof fn lemma_map_of_insert<A, B>(entries: Seq<(A, B)>, i: int, k: A, v: B)
    requires
        keys_of(entries).no_duplicates(),
        0 <= i <= entries.len(),
        !keys_of(entries).contains(k),
    ensures
        keys_of(entries.insert(i, (k, v))) == keys_of(entries).insert(i, k),
        keys_of(entries.insert(i, (k, v))).no_duplicates(),
        map_of(entries.insert(i, (k, v))) == map_of(entries).insert(k, v),
{
    let new = entries.insert(i, (k, v));
    let keys = keys_of(entries);
    assert(keys_of(new) =~= keys.insert(i, k));
    assert forall|x: int, y: int| 0 <= x < keys_of(new).len() && 0 <= y < keys_of(new).len() && x
        != y implies keys_of(new)[x] != keys_of(new)[y] by {
        if x == i {
            assert(keys_of(new)[y] == keys[if y < i { y } else { y - 1 }]);
        } else if y == i {
            assert(keys_of(new)[x] == keys[if x < i { x } else { x - 1 }]);
        } else {
            assert(keys_of(new)[x] == keys[if x < i { x } else { x - 1 }]);
            assert(keys_of(new)[y] == keys[if y < i { y } else { y - 1 }]);
        }
    }
    let m = map_of(entries).insert(k, v);
    assert forall|j: int| 0 <= j < new.len() implies m.contains_key((#[trigger] new[j]).0)
        && m[new[j].0] == new[j].1 by {
        if j != i {
            let o: int = if j < i { j } else { j - 1 };
            assert(new[j] == entries[o]);
            lemma_map_of_entry(entries, o);
            assert(keys[o] == entries[o].0);
        }
    }
    assert forall|x: A| #[trigger] m.contains_key(x) implies keys_of(new).contains(x) by {
        if x == k {
            assert(keys_of(new)[i] == k);
        } else {
            let o: int = choose|o: int| 0 <= o < keys.len() && keys[o] == x;
            assert(keys_of(new)[if o < i { o } else { o + 1 }] == x);
        }
    }
    lemma_map_of_is(new, m);
}

proof fn lemma_map_of_update<A, B>(entries: Seq<(A, B)>, i: int, v: B)
    requires
        keys_of(entries).no_duplicates(),
        0 <= i < entries.len(),
    ensures
        keys_of(entries.update(i, (entries[i].0, v))) == keys_of(entries),
        map_of(entries.update(i, (entries[i].0, v))) == map_of(entries).insert(entries[i].0, v),
{
    let k = entries[i].0;
    let new = entries.update(i, (k, v));
    let keys = keys_of(entries);
    assert(keys_of(new) =~= keys);
    let m = map_of(entries).insert(k, v);
    assert forall|j: int| 0 <= j < new.len() implies m.contains_key((#[trigger] new[j]).0)
        && m[new[j].0] == new[j].1 by {
        if j != i {
            lemma_map_of_entry(entries, j);
            assert(keys[j] == entries[j].0);
            assert(keys[i] == k);
        }
    }
    assert forall|x: A| #[trigger] m.contains_key(x) implies keys_of(new).contains(x) by {
        if x == k {
            assert(keys_of(new)[i] == k);
        }
    }
    lemma_map_of_is(new, m);
}

/// No key occurs twice among keys in strictly ascending order.
pub proof fn lemma_ascending_distinct<K: OrderedKey>(keys: Seq<K::V>)
    requires
        ascending::<K>(keys),
    ensures
        keys.no_duplicates(),
{
    assert forall|i: int, j: int| 0 <= i < keys.len() && 0 <= j < keys.len() && i
        != j implies keys[i] != keys[j] by {
        K::before_irreflexive(keys[i]);
        if i < j {
            assert(K::before(keys[i], keys[j]));
        } else {
            assert(K::before(keys[j], keys[i]));
        }
    }
}

/// A map whose entries are kept in ascending order of their keys.
pub struct OrderedMap<K, T> {
    keys: OrderedSet<K>,
    values: Vec<T>,
}

impl<K: OrderedKey, T: DeepView> DeepView for OrderedMap<K, T> {
    type V = Seq<(K::V, T::V)>;

    closed spec fn deep_view(&self) -> Seq<(K::V, T::V)> {
        Seq::new(
            self.keys.deep_view().len(),
            |i: int| (self.keys.deep_view()[i], self.values.deep_view()[i]),
        )
    }
}

impl<K: OrderedKey, T: DeepView> OrderedMap<K, T> {
    /// Each key has one value, and the keys stand in ascending order.
    pub closed spec fn wf(&self) -> bool {
        &&& self.keys.wf()
        &&& self.values@.len() == self.keys.deep_view().len()
    }

    /// What the map holds under each key.
    pub open spec fn as_map(&self) -> Map<K::V, T::V> {
        map_of(self.deep_view())
    }

    /// The entries of a map stand in ascending order of their keys, so no key occurs twice.
    pub proof fn lemma_entries(&self)
        requires
            self.wf(),
        ensures
            ascending::<K>(keys_of(self.deep_view())),
            keys_of(self.deep_view()).no_duplicates(),
    {
        assert(keys_of(self.deep_view()) =~= self.keys.deep_view());
        lemma_ascending_distinct::<K>(self.keys.deep_view());
    }

    /// The empty map.
    pub fn new() -> (m: Self)
        ensures
            m.wf(),
            m.deep_view() == Seq::<(K::V, T::V)>::empty(),
            m.as_map() == Map::<K::V, T::V>::empty(),
    {
        let m: Self = OrderedMap { keys: OrderedSet::new(), values: Vec::new() };
        assert(m.deep_view() =~= Seq::<(K::V, T::V)>::empty());
        assert(m.as_map() =~= Map::<K::V, T::V>::empty());
        m
    }

    /// The keys, in ascending order.
    pub fn keys(&self) -> (r: &Vec<K>)
        requires
            self.wf(),
        ensures
            r.deep_view() == keys_of(self.deep_view()),
    {
        assert(keys_of(self.deep_view()) =~= self.keys.deep_view());
        self.keys.keys()
    }

    /// The values, in ascending order of their keys.
    pub fn values(&self) -> (r: &Vec<T>)
        requires
            self.wf(),
        ensures
            r.deep_view() == self.deep_view().map_values(|e: (K::V, T::V)| e.1),
    {
        assert(self.deep_view().map_values(|e: (K::V, T::V)| e.1) =~= self.values.deep_view());
        &self.values
    }

    /// What the map holds under `k`.
    pub fn get(&self, k: &K) -> (r: Option<&T>)
        requires
            self.wf(),
        ensures
            match r {
                Some(v) => self.as_map().contains_key(k.deep_view()) && v.deep_view()
                    == self.as_map()[k.deep_view()],
                None => !self.as_map().contains_key(k.deep_view()),
            },
    {
        let (i, found) = self.keys.locate(k);
        proof {
            self.lemma_entries();
            assert(keys_of(self.deep_view()) =~= self.keys.deep_view());
        }
        if found {
            proof {
                lemma_map_of_entry(self.deep_view(), i as int);
            }
            Some(&self.values[i])
        } else {
            None
        }
    }

    /// Puts `v` under `k`, in place of what stood there.
    pub fn insert(&mut self, k: K, v: T)
        requires
            old(self).wf(),
        ensures
            final(self).wf(),
            final(self).as_map() == old(self).as_map().insert(k.deep_view(), v.deep_view()),
    {
        let (i, found) = self.keys.locate(&k);
        let ghost before = self.deep_view();
        let ghost kv = k.deep_view();
        let ghost vv = v.deep_view();
        proof {
            self.lemma_entries();
            assert(keys_of(before) =~= self.keys.deep_view());
        }
        if found {
            self.values.set(i, v);
            proof {
                lemma_map_of_update(before, i as int, vv);
                assert(self.deep_view() =~= before.update(i as int, (kv, vv)));
            }
        } else {
            proof {
                lemma_ascending_insert::<K>(self.keys.deep_view(), i as int, kv);
                lemma_map_of_insert(before, i as int, kv, vv);
            }
            let ghost keys_before = self.keys.deep_view();
            self.keys.keys.insert(i, k);
            self.values.insert(i, v);
            proof {
                assert(self.keys.deep_view() =~= keys_before.insert(i as int, kv));
                assert(self.deep_view() =~= before.insert(i as int, (kv, vv)));
            }
        }
    }

    /// Puts `v` under `k` unless something stands there.
    pub fn insert_if_absent(&mut self, k: K, v: T)
        requires
            old(self).wf(),
        ensures
            final(self).wf(),
            final(self).as_map() == (if old(self).as_map().contains_key(k.deep_view()) {
                old(self).as_map()
            } else {
                old(self).as_map().insert(k.deep_view(), v.deep_view())
            }),
    {
        if self.get(&k).is_none() {
            self.insert(k, v);
        }
    }
}

/// Where a key belongs among keys in ascending order that lack it.
proof fn lemma_place_of<K: OrderedKey>(keys: Seq<K::V>, k: K::V) -> (i: int)
    requires
        ascending::<K>(keys),
        !keys.contains(k),
    ensures
        0 <= i <= keys.len(),
        forall|j: int| 0 <= j < i ==> K::before(#[trigger] keys[j], k),
        forall|j: int| i <= j < keys.len() ==> K::before(k, #[trigger] keys[j]),
    decreases keys.len(),
{
    if keys.len() == 0 {
        0
    } else {
        let last = keys[keys.len() - 1];
        K::before_total(last, k);
        assert(keys.contains(last));
        if K::before(last, k) {
            assert forall|j: int| 0 <= j < keys.len() implies K::before(#[trigger] keys[j], k) by {
                if j < keys.len() - 1 {
                    K::before_transitive(keys[j], last, k);
                }
            }
            keys.len() as int
        } else {
            let front = keys.drop_last();
            assert forall|j: int| 0 <= j < front.len() implies front[j] != k by {
                assert(keys.contains(keys[j]));
            }
            let i = lemma_place_of::<K>(front, k);
            assert forall|j: int| 0 <= j < i implies K::before(#[trigger] keys[j], k) by {
                assert(front[j] == keys[j]);
            }
            assert forall|j: int| i <= j < keys.len() implies K::before(k, #[trigger] keys[j]) by {
                if j < front.len() {
                    assert(front[j] == keys[j]);
                }
            }
            i
        }
    }
}

/// Any keys of a list can be put into ascending order.
pub proof fn lemma_ascending_exists<K: OrderedKey>(
    all: Seq<K::V>,
    p: spec_fn(K::V) -> bool,
) -> (keys: Seq<K::V>)
    ensures
        ascending::<K>(keys),
        forall|k: K::V| #[trigger] keys.contains(k) <==> all.contains(k) && p(k),
    decreases all.len(),
{
    if all.len() == 0 {
        Seq::empty()
    } else {
        let front = all.drop_last();
        let last = all.last();
        let rest = lemma_ascending_exists::<K>(front, p);
        assert(front.push(last) =~= all);
        assert forall|k: K::V| #[trigger] all.contains(k) <==> front.contains(k) || k == last by {
            if front.contains(k) {
                let i: int = choose|i: int| 0 <= i < front.len() && front[i] == k;
                assert(all[i] == k);
            }
            if k == last {
                assert(all[all.len() - 1] == k);
            }
            if all.contains(k) && k != last {
                let i: int = choose|i: int| 0 <= i < all.len() && all[i] == k;
                assert(front[i] == k);
            }
        }
        if p(last) && !rest.contains(last) {
            let i = lemma_place_of::<K>(rest, last);
            lemma_ascending_insert::<K>(rest, i, last);
            let keys = rest.insert(i, last);
            assert forall|k: K::V| #[trigger] keys.contains(k) <==> all.contains(k) && p(k) by {
                assert(rest.contains(k) <==> front.contains(k) && p(k));
            }
            keys
        } else {
            assert forall|k: K::V| #[trigger] rest.contains(k) <==> all.contains(k) && p(k) by {
                assert(rest.contains(last) <==> front.contains(last) && p(last));
            }
            rest
        }
    }
}

} // verus!
