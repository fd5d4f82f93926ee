//! A map that keeps its keys in order and each key once.

use vstd::prelude::*;

use crate::text::{
    is_text_before, law_text_order_irreflexive, law_text_order_total, law_text_order_transitive,
    text_before,
};

verus! {

/// A key with a strict total order on what it stands for.
pub trait SortKey: View + Sized {
    /// Whether one key stands before another.
    spec fn precedes(a: Self::V, b: Self::V) -> bool;

    /// No key stands before itself.
    proof fn order_irreflexive(a: Self::V)
        ensures
            !Self::precedes(a, a),
    ;

    /// The order carries over.
    proof fn order_transitive(a: Self::V, b: Self::V, c: Self::V)
        requires
            Self::precedes(a, b),
            Self::precedes(b, c),
        ensures
            Self::precedes(a, c),
    ;

    /// Of two different keys, one stands before the other.
    proof fn order_total(a: Self::V, b: Self::V)
        ensures
            a == b || Self::precedes(a, b) || Self::precedes(b, a),
    ;

    /// Whether this key stands before another.
    fn is_before(&self, other: &Self) -> (before: bool)
        ensures
            before == Self::precedes(self@, other@),
    ;
}

impl SortKey for String {
    open spec fn precedes(a: Seq<char>, b: Seq<char>) -> bool {
        text_before(a, b)
    }

    proof fn order_irreflexive(a: Seq<char>) {
        law_text_order_irreflexive(a);
    }

    proof fn order_transitive(a: Seq<char>, b: Seq<char>, c: Seq<char>) {
        law_text_order_transitive(a, b, c);
    }

    proof fn order_total(a: Seq<char>, b: Seq<char>) {
        law_text_order_total(a, b);
    }

    fn is_before(&self, other: &String) -> (before: bool) {
        is_text_before(self.as_str(), other.as_str())
    }
}

impl SortKey for u32 {
    open spec fn precedes(a: u32, b: u32) -> bool {
        a < b
    }

    proof fn order_irreflexive(a: u32) {
    }

    proof fn order_transitive(a: u32, b: u32, c: u32) {
    }

    proof fn order_total(a: u32, b: u32) {
    }

    fn is_before(&self, other: &u32) -> (before: bool) {
        *self < *other
    }
}

impl SortKey for usize {
    open spec fn precedes(a: usize, b: usize) -> bool {
        a < b
    }

    proof fn order_irreflexive(a: usize) {
    }

    proof fn order_transitive(a: usize, b: usize, c: usize) {
    }

    proof fn order_total(a: usize, b: usize) {
    }

    fn is_before(&self, other: &usize) -> (before: bool) {
        *self < *other
    }
}

/// Whether the keys of some entries stand in order, each once.
pub open spec fn in_order<K: SortKey, W>(pairs: Seq<(K::V, W)>) -> bool {
    forall|i: int, j: int|
        0 <= i < j < pairs.len() ==> K::precedes((#[trigger] pairs[i]).0, (#[trigger] pairs[j]).0)
}

/// Whether a key is among some keys.
pub open spec fn is_listed<K: View>(keys: Seq<K>, key: K::V) -> bool {
    exists|i: int| 0 <= i < keys.len() && (#[trigger] keys[i])@ == key
}

/// The map from the keys of some entries to their values; of entries with one
/// key, the last counts.
pub open spec fn pairs_map<A, W>(pairs: Seq<(A, W)>) -> Map<A, W>
    decreases pairs.len(),
{
    if pairs.len() == 0 {
        Map::empty()
    } else {
        pairs_map(pairs.drop_last()).insert(pairs.last().0, pairs.last().1)
    }
}

/// A map from keys to values, with its entries in the order of the keys.
#[derive(Debug)]
pub struct SortedMap<K: SortKey, V: View> {
    entries: Vec<(K, V)>,
}

impl<K: SortKey, V: View> View for SortedMap<K, V> {
    type V = Map<K::V, V::V>;

    open spec fn view(&self) -> Map<K::V, V::V> {
        pairs_map(self.pairs())
    }
}

spec fn entry_views<K: View, V: View>(entries: Seq<(K, V)>) -> Seq<(K::V, V::V)> {
    Seq::new(entries.len(), |i: int| (entries[i].0@, entries[i].1@))
}

/// The keys of the map are those of the entries.
pub proof fn lemma_pairs_has<A, W>(pairs: Seq<(A, W)>, key: A)
    ensures
        pairs_map(pairs).dom().contains(key) <==> exists|i: int|
            0 <= i < pairs.len() && (#[trigger] pairs[i]).0 == key,
    decreases pairs.len(),
{
    if pairs.len() > 0 {
        lemma_pairs_has(pairs.drop_last(), key);
        if pairs_map(pairs).dom().contains(key) {
            if key == pairs.last().0 {
                assert(pairs[pairs.len() - 1].0 == key);
            } else {
                let i = choose|i: int|
                    0 <= i < pairs.drop_last().len() && (#[trigger] pairs.drop_last()[i]).0 == key;
                assert(pairs[i].0 == key);
            }
        }
        if exists|i: int| 0 <= i < pairs.len() && (#[trigger] pairs[i]).0 == key {
            let i = choose|i: int| 0 <= i < pairs.len() && (#[trigger] pairs[i]).0 == key;
            if i < pairs.len() - 1 {
                assert(pairs.drop_last()[i].0 == key);
            }
        }
    }
}

proof fn lemma_pairs_get<K: SortKey, W>(pairs: Seq<(K::V, W)>, i: int)
    requires
        in_order::<K, W>(pairs),
        0 <= i < pairs.len(),
    ensures
        pairs_map(pairs).dom().contains(pairs[i].0),
        pairs_map(pairs)[pairs[i].0] == pairs[i].1,
    decreases pairs.len(),
{
    if i < pairs.len() - 1 {
        K::order_irreflexive(pairs[i].0);
        assert(K::precedes(pairs[i].0, pairs[pairs.len() - 1].0));
        lemma_drop_last_in_order::<K, W>(pairs);
        lemma_pairs_get::<K, W>(pairs.drop_last(), i);
        assert(pairs.drop_last()[i] == pairs[i]);
    }
}

proof fn lemma_drop_last_in_order<K: SortKey, W>(pairs: Seq<(K::V, W)>)
    requires
        in_order::<K, W>(pairs),
        pairs.len() > 0,
    ensures
        in_order::<K, W>(pairs.drop_last()),
{
    let front = pairs.drop_last();
    assert forall|i: int, j: int| 0 <= i < j < front.len() implies K::precedes(
        (#[trigger] front[i]).0,
        (#[trigger] front[j]).0,
    ) by {
        assert(K::precedes(pairs[i].0, pairs[j].0));
    }
}

proof fn lemma_last_is_new<K: SortKey, W>(pairs: Seq<(K::V, W)>)
    requires
        in_order::<K, W>(pairs),
        pairs.len() > 0,
    ensures
        !pairs_map(pairs.drop_last()).dom().contains(pairs.last().0),
{
    let front = pairs.drop_last();
    let key = pairs.last().0;
    lemma_pairs_has(front, key);
    if pairs_map(front).dom().contains(key) {
        let i = choose|i: int| 0 <= i < front.len() && (#[trigger] front[i]).0 == key;
        assert(K::precedes(pairs[i].0, pairs[pairs.len() - 1].0));
        K::order_irreflexive(key);
    }
}

proof fn lemma_pairs_count<K: SortKey, W>(pairs: Seq<(K::V, W)>)
    requires
        in_order::<K, W>(pairs),
    ensures
        pairs_map(pairs).dom().finite(),
        pairs_map(pairs).dom().len() == pairs.len(),
    decreases pairs.len(),
{
    if pairs.len() > 0 {
        lemma_drop_last_in_order::<K, W>(pairs);
        lemma_pairs_count::<K, W>(pairs.drop_last());
        lemma_last_is_new::<K, W>(pairs);
        assert(pairs_map(pairs).dom() =~= pairs_map(pairs.drop_last()).dom().insert(
            pairs.last().0,
        ));
    } else {
        assert(pairs_map(pairs).dom() =~= Set::empty());
    }
}

/// What a map holds decides its entries and their order.
pub proof fn law_contents_decide_entries<K: SortKey, W>(a: Seq<(K::V, W)>, b: Seq<(K::V, W)>)
    requires
        in_order::<K, W>(a),
        in_order::<K, W>(b),
        pairs_map(a) == pairs_map(b),
    ensures
        a == b,
    decreases a.len(),
{
    lemma_pairs_count::<K, W>(a);
    lemma_pairs_count::<K, W>(b);
    if a.len() == 0 {
        assert(a =~= b);
    } else {
        let last = a.len() - 1;
        lemma_pairs_get::<K, W>(a, last);
        lemma_pairs_get::<K, W>(b, last);
        lemma_pairs_has(a, b[last].0);
        lemma_pairs_has(b, a[last].0);
        let i = choose|i: int| 0 <= i < a.len() && (#[trigger] a[i]).0 == b[last].0;
        let j = choose|j: int| 0 <= j < b.len() && (#[trigger] b[j]).0 == a[last].0;
        if i < last && j < last {
            assert(K::precedes(a[i].0, a[last].0));
            assert(K::precedes(b[j].0, b[last].0));
            K::order_transitive(a[last].0, b[last].0, a[last].0);
            K::order_irreflexive(a[last].0);
        }
        assert(a[last] == b[last]);
        lemma_last_is_new::<K, W>(a);
        lemma_last_is_new::<K, W>(b);
        lemma_drop_last_in_order::<K, W>(a);
        lemma_drop_last_in_order::<K, W>(b);
        assert(pairs_map(a.drop_last()) =~= pairs_map(a).remove(a.last().0));
        assert(pairs_map(b.drop_last()) =~= pairs_map(b).remove(b.last().0));
        law_contents_decide_entries::<K, W>(a.drop_last(), b.drop_last());
        assert(a =~= a.drop_last().push(a.last()));
        assert(b =~= b.drop_last().push(b.last()));
    }
}

proof fn lemma_same_entries<K: SortKey, W>(pairs: Seq<(K::V, W)>, map: Map<K::V, W>)
    requires
        in_order::<K, W>(pairs),
        forall|i: int|
            0 <= i < pairs.len() ==> map.dom().contains((#[trigger] pairs[i]).0) && map[pairs[i].0]
                == pairs[i].1,
        forall|key: K::V| #[trigger]
            map.dom().contains(key) ==> exists|i: int|
                0 <= i < pairs.len() && (#[trigger] pairs[i]).0 == key,
    ensures
        pairs_map(pairs) == map,
{
    assert forall|key: K::V| #[trigger] pairs_map(pairs).dom().contains(key) <==> map.dom().contains(
        key,
    ) by {
        lemma_pairs_has(pairs, key);
    }
    assert forall|key: K::V| #[trigger] pairs_map(pairs).dom().contains(key) implies pairs_map(
        pairs,
    )[key] == map[key] by {
        lemma_pairs_has(pairs, key);
        let i = choose|i: int| 0 <= i < pairs.len() && (#[trigger] pairs[i]).0 == key;
        lemma_pairs_get::<K, W>(pairs, i);
    }
    assert(pairs_map(pairs) =~= map);
}

impl<K: SortKey, V: View> SortedMap<K, V> {
    #[verifier::type_invariant]
    spec fn well_formed(self) -> bool {
        in_order::<K, V::V>(entry_views(self.entries@))
    }

    /// The entries, in the order of the keys.
    pub closed spec fn pairs(self) -> Seq<(K::V, V::V)> {
        entry_views(self.entries@)
    }

    /// A map without entries.
    pub fn new() -> (map: Self)
        ensures
            map.pairs() == Seq::<(K::V, V::V)>::empty(),
            map@ == Map::<K::V, V::V>::empty(),
    {
        let map = SortedMap { entries: Vec::new() };
        proof {
            assert(map.pairs() =~= Seq::<(K::V, V::V)>::empty());
        }
        map
    }

    /// How many entries there are; their keys stand in order, each once.
    pub fn len(&self) -> (count: usize)
        ensures
            count == self.pairs().len(),
            in_order::<K, V::V>(self.pairs()),
            self@.dom().finite(),
            count == self@.dom().len(),
    {
        proof {
            use_type_invariant(self);
            lemma_pairs_count::<K, V::V>(self.pairs());
        }
        self.entries.len()
    }

    /// The key of the entry at a position.
    pub fn key_at(&self, i: usize) -> (key: &K)
        requires
            i < self.pairs().len(),
        ensures
            key@ == self.pairs()[i as int].0,
            self@.dom().contains(key@),
    {
        proof {
            use_type_invariant(self);
            lemma_pairs_get::<K, V::V>(self.pairs(), i as int);
        }
        &self.entries[i].0
    }

    /// The value of the entry at a position.
    pub fn value_at(&self, i: usize) -> (value: &V)
        requires
            i < self.pairs().len(),
        ensures
            value@ == self.pairs()[i as int].1,
            self@[self.pairs()[i as int].0] == value@,
    {
        proof {
            use_type_invariant(self);
            lemma_pairs_get::<K, V::V>(self.pairs(), i as int);
        }
        &self.entries[i].1
    }

    /// The position of the first entry whose key does not stand before `key`.
    fn place_of(&self, key: &K) -> (at: usize)
        ensures
            at <= self.pairs().len(),
            forall|i: int| 0 <= i < at ==> K::precedes((#[trigger] self.pairs()[i]).0, key@),
            at < self.pairs().len() ==> !K::precedes(self.pairs()[at as int].0, key@),
    {
        let mut at: usize = 0;
        while at < self.entries.len() && self.entries[at].0.is_before(key)
            invariant
                at <= self.entries@.len(),
                forall|i: int| 0 <= i < at ==> K::precedes((#[trigger] self.pairs()[i]).0, key@),
            decreases self.entries@.len() - at,
        {
            proof {
                assert(self.pairs()[at as int].0 == self.entries@[at as int].0@);
            }
            at += 1;
        }
        proof {
            if at < self.entries@.len() {
                assert(self.pairs()[at as int].0 == self.entries@[at as int].0@);
            }
        }
        at
    }

    proof fn lemma_absent(&self, at: int, key: K::V)
        requires
            in_order::<K, V::V>(self.pairs()),
            0 <= at <= self.pairs().len(),
            forall|i: int| 0 <= i < at ==> K::precedes((#[trigger] self.pairs()[i]).0, key),
            at < self.pairs().len() ==> K::precedes(key, self.pairs()[at].0),
        ensures
            forall|i: int| at <= i < self.pairs().len() ==> K::precedes(key, (#[trigger] self.pairs()[i]).0),
            !self@.dom().contains(key),
    {
        let pairs = self.pairs();
        assert forall|i: int| at <= i < pairs.len() implies K::precedes(
            key,
            (#[trigger] pairs[i]).0,
        ) by {
            if i > at {
                assert(K::precedes(pairs[at].0, pairs[i].0));
                K::order_transitive(key, pairs[at].0, pairs[i].0);
            }
        }
        lemma_pairs_has(pairs, key);
        if exists|i: int| 0 <= i < pairs.len() && (#[trigger] pairs[i]).0 == key {
            let i = choose|i: int| 0 <= i < pairs.len() && (#[trigger] pairs[i]).0 == key;
            K::order_irreflexive(key);
        }
    }

    /// The value under a key.
    pub fn get(&self, key: &K) -> (found: Option<&V>)
        ensures
            match found {
                Some(value) => self@.dom().contains(key@) && self@[key@] == value@,
                None => !self@.dom().contains(key@),
            },
    {
        proof {
            use_type_invariant(self);
        }
        let at = self.place_of(key);
        if at < self.entries.len() {
            if !key.is_before(&self.entries[at].0) {
                proof {
                    assert(self.pairs()[at as int].0 == self.entries@[at as int].0@);
                    K::order_total(self.pairs()[at as int].0, key@);
                    lemma_pairs_get::<K, V::V>(self.pairs(), at as int);
                }
                return Some(&self.entries[at].1);
            }
            proof {
                assert(self.pairs()[at as int].0 == self.entries@[at as int].0@);
            }
        }
        proof {
            self.lemma_absent(at as int, key@);
        }
        None
    }

    /// Whether there is an entry under a key.
    pub fn contains_key(&self, key: &K) -> (has: bool)
        ensures
            has == self@.dom().contains(key@),
    {
        match self.get(key) {
            Some(_) => true,
            None => false,
        }
    }

    /// Puts a value under a key, in place of what was there.
    pub fn insert(&mut self, key: K, value: V)
        ensures
            final(self)@ == old(self)@.insert(key@, value@),
    {
        proof {
            use_type_invariant(&*self);
        }
        let at = self.place_of(&key);
        let ghost pairs = self.pairs();
        let ghost before = self@;
        let present = at < self.entries.len() && !key.is_before(&self.entries[at].0);
        proof {
            if at < self.entries@.len() {
                assert(self.pairs()[at as int].0 == self.entries@[at as int].0@);
            }
            if present {
                K::order_total(pairs[at as int].0, key@);
            } else {
                self.lemma_absent(at as int, key@);
            }
        }
        let ghost new_pairs = if present {
            pairs.update(at as int, (key@, value@))
        } else {
            pairs.insert(at as int, (key@, value@))
        };
        let ghost (k, v) = (key@, value@);
        let mut entries: Vec<(K, V)> = Vec::new();
        std::mem::swap(&mut entries, &mut self.entries);
        if present {
            entries.remove(at);
        }
        entries.insert(at, (key, value));
        proof {
            assert(entry_views(entries@) =~= new_pairs);
            assert forall|i: int, j: int| 0 <= i < j < new_pairs.len() implies K::precedes(
                (#[trigger] new_pairs[i]).0,
                (#[trigger] new_pairs[j]).0,
            ) by {
                let a = if present || i < at {
                    i
                } else {
                    i - 1
                };
                let b = if present || j < at {
                    j
                } else {
                    j - 1
                };
                if i != at && j != at {
                    assert(K::precedes(pairs[a].0, pairs[b].0));
                } else if i == at {
                    if present {
                        assert(K::precedes(pairs[at as int].0, pairs[j].0));
                    } else {
                        assert(K::precedes(k, pairs[j - 1].0));
                    }
                } else {
                    assert(K::precedes(pairs[i].0, k));
                }
            }
            let map = before.insert(k, v);
            assert forall|i: int| 0 <= i < new_pairs.len() implies map.dom().contains(
                (#[trigger] new_pairs[i]).0,
            ) && map[new_pairs[i].0] == new_pairs[i].1 by {
                if i != at {
                    let a = if present || i < at {
                        i
                    } else {
                        i - 1
                    };
                    lemma_pairs_get::<K, V::V>(pairs, a);
                    K::order_irreflexive(k);
                    assert(K::precedes(new_pairs[i].0, new_pairs[at as int].0) || K::precedes(
                        new_pairs[at as int].0,
                        new_pairs[i].0,
                    ));
                }
            }
            assert forall|other: K::V| #[trigger] map.dom().contains(other) implies exists|i: int|
                0 <= i < new_pairs.len() && (#[trigger] new_pairs[i]).0 == other by {
                if other == k {
                    assert(new_pairs[at as int].0 == other);
                } else {
                    lemma_pairs_has(pairs, other);
                    let a = choose|a: int| 0 <= a < pairs.len() && (#[trigger] pairs[a]).0 == other;
                    if present || a < at {
                        assert(new_pairs[a].0 == other);
                    } else {
                        assert(new_pairs[a + 1].0 == other);
                    }
                }
            }
            lemma_same_entries::<K, V::V>(new_pairs, map);
        }
        self.entries = entries;
    }

    /// Takes the entry under a key away, where there is one.
    pub fn remove(&mut self, key: &K)
        ensures
            final(self)@ == old(self)@.remove(key@),
    {
        proof {
            use_type_invariant(&*self);
        }
        let at = self.place_of(key);
        let ghost pairs = self.pairs();
        let ghost before = self@;
        let present = at < self.entries.len() && !key.is_before(&self.entries[at].0);
        proof {
            if at < self.entries@.len() {
                assert(self.pairs()[at as int].0 == self.entries@[at as int].0@);
            }
            if present {
                K::order_total(pairs[at as int].0, key@);
            } else {
                self.lemma_absent(at as int, key@);
                assert(before.remove(key@) =~= before);
            }
        }
        if present {
            let ghost new_pairs = pairs.remove(at as int);
            let mut entries: Vec<(K, V)> = Vec::new();
            std::mem::swap(&mut entries, &mut self.entries);
            entries.remove(at);
            proof {
                assert(entry_views(entries@) =~= new_pairs);
                assert forall|i: int, j: int| 0 <= i < j < new_pairs.len() implies K::precedes(
                    (#[trigger] new_pairs[i]).0,
                    (#[trigger] new_pairs[j]).0,
                ) by {
                    let a = if i < at {
                        i
                    } else {
                        i + 1
                    };
                    let b = if j < at {
                        j
                    } else {
                        j + 1
                    };
                    assert(K::precedes(pairs[a].0, pairs[b].0));
                }
                let map = before.remove(key@);
                assert forall|i: int| 0 <= i < new_pairs.len() implies map.dom().contains(
                    (#[trigger] new_pairs[i]).0,
                ) && map[new_pairs[i].0] == new_pairs[i].1 by {
                    let a = if i < at {
                        i
                    } else {
                        i + 1
                    };
                    lemma_pairs_get::<K, V::V>(pairs, a);
                    K::order_irreflexive(key@);
                    assert(K::precedes(pairs[a].0, pairs[at as int].0) || K::precedes(
                        pairs[at as int].0,
                        pairs[a].0,
                    ));
                }
                assert forall|other: K::V| #[trigger] map.dom().contains(other) implies exists|
                    i: int,
                |
                    0 <= i < new_pairs.len() && (#[trigger] new_pairs[i]).0 == other by {
                    lemma_pairs_has(pairs, other);
                    let a = choose|a: int| 0 <= a < pairs.len() && (#[trigger] pairs[a]).0 == other;
                    if a < at {
                        assert(new_pairs[a].0 == other);
                    } else {
                        assert(new_pairs[a - 1].0 == other);
                    }
                }
                lemma_same_entries::<K, V::V>(new_pairs, map);
            }
            self.entries = entries;
        }
    }
}

impl<K: SortKey, V: View> SortedMap<K, V> {
    /// Takes the entries under some keys away.
    pub fn remove_all(&mut self, keys: &Vec<K>)
        ensures
            final(self)@ == old(self)@.filter_keys(|key: K::V| !is_listed(keys@, key)),
    {
        let ghost before = self@;
        let mut i: usize = 0;
        proof {
            assert(self@ =~= before.filter_keys(|key: K::V| !is_listed(keys@.take(0), key)));
        }
        while i < keys.len()
            invariant
                i <= keys@.len(),
                self@ == before.filter_keys(|key: K::V| !is_listed(keys@.take(i as int), key)),
            decreases keys@.len() - i,
        {
            let ghost kept = self@;
            let ghost listed = keys@.take(i as int);
            let ghost more = keys@.take(i + 1);
            self.remove(&keys[i]);
            proof {
                assert forall|key: K::V| #[trigger] is_listed(more, key) <==> is_listed(
                    listed,
                    key,
                ) || key == keys@[i as int]@ by {
                    if is_listed(listed, key) {
                        let j = choose|j: int| 0 <= j < listed.len() && (#[trigger] listed[j])@ == key;
                        assert(more[j]@ == key);
                    }
                    if key == keys@[i as int]@ {
                        assert(more[i as int]@ == key);
                    }
                    if is_listed(more, key) {
                        let j = choose|j: int| 0 <= j < more.len() && (#[trigger] more[j])@ == key;
                        if j < i {
                            assert(listed[j]@ == key);
                        }
                    }
                }
                assert(self@ =~= before.filter_keys(|key: K::V| !is_listed(more, key)));
            }
            i += 1;
        }
        proof {
            assert(keys@.take(i as int) =~= keys@);
        }
    }
}

impl<V: View> SortedMap<String, V> {
    /// The value under a text.
    pub fn find(&self, key: &str) -> (found: Option<&V>)
        ensures
            match found {
                Some(value) => self@.dom().contains(key@) && self@[key@] == value@,
                None => !self@.dom().contains(key@),
            },
    {
        let owned = key.to_owned();
        self.get(&owned)
    }
}

/// Whether a clone of a value always says what the value says.
pub open spec fn clones_agree<T: View + Clone>() -> bool {
    forall|value: T, copy: T| #[trigger] cloned::<T>(value, copy) ==> copy@ == value@
}

impl<K: SortKey + Clone, V: View + Clone> Clone for SortedMap<K, V> {
    /// The map with a clone of each entry.
    fn clone(&self) -> (copy: Self)
        ensures
            clones_agree::<K>() && clones_agree::<V>() ==> copy@ == self@,
    {
        let mut copy: SortedMap<K, V> = SortedMap::new();
        let ghost pairs = self.pairs();
        let ghost agree = clones_agree::<K>() && clones_agree::<V>();
        let count = self.entries.len();
        let mut i: usize = 0;
        proof {
            assert(copy@ =~= pairs_map(pairs.take(0)));
        }
        while i < count
            invariant
                i <= count == self.entries@.len(),
                pairs == self.pairs(),
                agree == (clones_agree::<K>() && clones_agree::<V>()),
                agree ==> copy@ == pairs_map(pairs.take(i as int)),
            decreases count - i,
        {
            let key = self.entries[i].0.clone();
            let value = self.entries[i].1.clone();
            proof {
                assert(cloned::<K>(self.entries@[i as int].0, key));
                assert(cloned::<V>(self.entries@[i as int].1, value));
                assert(pairs.take(i + 1).drop_last() =~= pairs.take(i as int));
                assert(pairs.take(i + 1).last() == pairs[i as int]);
            }
            copy.insert(key, value);
            i += 1;
        }
        proof {
            assert(pairs.take(i as int) =~= pairs);
        }
        copy
    }
}

/// Of entries with one key the last gives the value.
pub proof fn law_last_entry_counts<A, W>(pairs: Seq<(A, W)>, i: int)
    requires
        0 <= i < pairs.len(),
        forall|j: int| i < j < pairs.len() ==> (#[trigger] pairs[j]).0 != pairs[i].0,
    ensures
        pairs_map(pairs).dom().contains(pairs[i].0),
        pairs_map(pairs)[pairs[i].0] == pairs[i].1,
    decreases pairs.len(),
{
    let front = pairs.drop_last();
    if i < front.len() {
        assert(front[i] == pairs[i]);
        assert forall|j: int| i < j < front.len() implies (#[trigger] front[j]).0 != front[i].0 by {
            assert(front[j] == pairs[j]);
        }
        law_last_entry_counts(front, i);
        assert(pairs[pairs.len() - 1].0 != pairs[i].0);
    }
}

/// A key is listed where it stands among the keys, and nowhere else.
pub proof fn law_listed_keys<K: View>(keys: Seq<K>, key: K::V, i: int)
    ensures
        0 <= i < keys.len() ==> is_listed(keys, keys[i]@),
        (forall|j: int| 0 <= j < keys.len() ==> (#[trigger] keys[j])@ != key) ==> !is_listed(
            keys,
            key,
        ),
{
}

} // verus!
