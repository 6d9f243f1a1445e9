//! Maps keyed by text, kept in key order.
//!
//! Keys are ordered by character. In maps keyed by paths the separator stands
//! before all other characters, so that paths are ordered by component.

use crate::text::{chars_of, list_contains, same_text, texts};
use vstd::prelude::*;

verus! {

/// How two texts stand to each other.
#[derive(Debug, Clone, Copy, PartialEq, Eq, Structural)]
pub enum TextOrder {
    Before,
    Same,
    After,
}

/// The order of characters; with `paths`, the path separator comes first.
pub open spec fn char_less(paths: bool, a: char, b: char) -> bool {
    if paths && (a == '/' || b == '/') {
        a == '/' && b != '/'
    } else {
        (a as int) < (b as int)
    }
}

/// Lexicographic order by character.
pub open spec fn text_less(paths: bool, a: Seq<char>, b: Seq<char>) -> bool
    decreases a.len(),
{
    if b.len() == 0 {
        false
    } else if a.len() == 0 {
        true
    } else if a[0] == b[0] {
        text_less(paths, a.skip(1), b.skip(1))
    } else {
        char_less(paths, a[0], b[0])
    }
}

pub proof fn text_less_irreflexive(paths: bool, a: Seq<char>)
    ensures
        !text_less(paths, a, a),
    decreases a.len(),
{
    if a.len() > 0 {
        text_less_irreflexive(paths, a.skip(1));
    }
}

pub proof fn text_less_transitive(paths: bool, a: Seq<char>, b: Seq<char>, c: Seq<char>)
    requires
        text_less(paths, a, b),
        text_less(paths, b, c),
    ensures
        text_less(paths, a, c),
    decreases a.len(),
{
    if a.len() > 0 && a[0] == b[0] && b[0] == c[0] {
        text_less_transitive(paths, a.skip(1), b.skip(1), c.skip(1));
    }
}

pub proof fn text_less_total(paths: bool, a: Seq<char>, b: Seq<char>)
    ensures
        text_less(paths, a, b) || a == b || text_less(paths, b, a),
    decreases a.len(),
{
    if a.len() > 0 && b.len() > 0 && a[0] == b[0] {
        text_less_total(paths, a.skip(1), b.skip(1));
        if a.skip(1) == b.skip(1) {
            assert(a =~= seq![a[0]] + a.skip(1));
            assert(b =~= seq![b[0]] + b.skip(1));
        }
    } else if a.len() == 0 && b.len() == 0 {
        assert(a =~= b);
    }
}

/// Every key stands strictly before the keys after it.
pub open spec fn in_key_order(paths: bool, keys: Seq<Seq<char>>) -> bool {
    forall|i: int, j: int| 0 <= i < j < keys.len() ==> text_less(paths, #[trigger] keys[i], #[trigger] keys[j])
}

/// Keys in strict order are all different.
pub proof fn key_order_is_distinct(paths: bool, keys: Seq<Seq<char>>)
    requires
        in_key_order(paths, keys),
    ensures
        keys.no_duplicates(),
{
    assert forall|i: int, j: int| 0 <= i < keys.len() && 0 <= j < keys.len() && i != j implies keys[i]
        != keys[j] by {
        text_less_irreflexive(paths, keys[i]);
        if i < j {
            assert(text_less(paths, keys[i], keys[j]));
        } else {
            assert(text_less(paths, keys[j], keys[i]));
        }
    }
}

fn before_in_order(paths: bool, a: char, b: char) -> (r: bool)
    ensures
        r == char_less(paths, a, b),
{
    if paths && (a == '/' || b == '/') {
        a == '/' && b != '/'
    } else {
        a < b
    }
}

pub fn order_of(paths: bool, a: &str, b: &str) -> (r: TextOrder)
    ensures
        r == TextOrder::Before <==> text_less(paths, a@, b@),
        r == TextOrder::Same <==> a@ == b@,
        r == TextOrder::After <==> text_less(paths, b@, a@),
{
    let x = chars_of(a);
    let y = chars_of(b);
    proof {
        text_less_irreflexive(paths, a@);
        assert(a@.skip(0) =~= a@);
        assert(b@.skip(0) =~= b@);
        if text_less(paths, a@, b@) && text_less(paths, b@, a@) {
            text_less_transitive(paths, a@, b@, a@);
        }
    }
    let mut i: usize = 0;
    while i < x.len() && i < y.len() && x[i] == y[i]
        invariant
            i <= x@.len(),
            i <= y@.len(),
            x@ == a@,
            y@ == b@,
            forall|k: int| 0 <= k < i ==> a@[k] == b@[k],
            text_less(paths, a@, b@) == text_less(paths, a@.skip(i as int), b@.skip(i as int)),
            text_less(paths, b@, a@) == text_less(paths, b@.skip(i as int), a@.skip(i as int)),
        decreases x@.len() - i,
    {
        assert(a@.skip(i as int).skip(1) =~= a@.skip(i + 1));
        assert(b@.skip(i as int).skip(1) =~= b@.skip(i + 1));
        i = i + 1;
    }
    if i == x.len() && i == y.len() {
        assert(a@ =~= b@);
        TextOrder::Same
    } else if i == x.len() {
        TextOrder::Before
    } else if i == y.len() {
        TextOrder::After
    } else if before_in_order(paths, x[i], y[i]) {
        TextOrder::Before
    } else {
        TextOrder::After
    }
}

/// A map from text to values. Its entries stand in key order.
#[derive(Debug)]
pub struct OrderedMap<V, const PATHS: bool> {
    entries: Vec<(String, V)>,
}

/// A map ordered by character.
pub type TextMap<V> = OrderedMap<V, false>;

/// A map keyed by paths, ordered by component. A path stands under the one spelling that
/// [`crate::paths::path_spelt`] gives it.
pub type PathMap<V> = OrderedMap<V, true>;

impl<V, const PATHS: bool> OrderedMap<V, PATHS> {
    /// The keys, in order.
    pub closed spec fn keys(&self) -> Seq<Seq<char>> {
        Seq::new(self.entries@.len(), |i: int| self.entries@[i].0@)
    }

    /// The values, in key order.
    pub closed spec fn values(&self) -> Seq<V> {
        Seq::new(self.entries@.len(), |i: int| self.entries@[i].1)
    }

    /// The mapping.
    pub open spec fn view(&self) -> Map<Seq<char>, V> {
        Map::new(
            |k: Seq<char>| self.keys().contains(k),
            |k: Seq<char>| self.values()[self.keys().index_of(k)],
        )
    }

    #[verifier::type_invariant]
    closed spec fn ordered(&self) -> bool {
        in_key_order(PATHS, self.keys())
    }

    proof fn lemma_at(&self, i: int)
        requires
            in_key_order(PATHS, self.keys()),
            0 <= i < self.keys().len(),
        ensures
            self@.dom().contains(self.keys()[i]),
            self@[self.keys()[i]] == self.values()[i],
    {
        key_order_is_distinct(PATHS, self.keys());
        assert(self.keys().contains(self.keys()[i]));
    }

    /// `after` is `before` with `value` under `key`, at position `i`.
    proof fn lemma_insert(before: Self, after: Self, i: int, key: Seq<char>, value: V)
        requires
            in_key_order(PATHS, before.keys()),
            0 <= i <= before.keys().len(),
            forall|k: int| 0 <= k < i ==> text_less(PATHS, #[trigger] before.keys()[k], key),
            ({
                ||| {
                    &&& i < before.keys().len() && before.keys()[i] == key
                    &&& after.keys() == before.keys()
                    &&& after.values() == before.values().update(i, value)
                }
                ||| {
                    &&& i < before.keys().len() ==> text_less(PATHS, key, before.keys()[i])
                    &&& after.keys() == before.keys().insert(i, key)
                    &&& after.values() == before.values().insert(i, value)
                }
            }),
        ensures
            in_key_order(PATHS, after.keys()),
            after@ == before@.insert(key, value),
            before@.dom().contains(key) ==> after.keys() == before.keys(),
    {
        let n = before.keys().len() as int;
        let fresh = after.keys().len() == n + 1;
        text_less_irreflexive(PATHS, key);
        if fresh {
            assert forall|k: int| i <= k < n implies text_less(PATHS, 
                key,
                #[trigger] before.keys()[k],
            ) by {
                if k > i {
                    text_less_transitive(PATHS, key, before.keys()[i], before.keys()[k]);
                }
            }
            assert forall|a: int, b: int| 0 <= a < b < n + 1 implies text_less(PATHS, 
                #[trigger] after.keys()[a],
                #[trigger] after.keys()[b],
            ) by {
                let x = if a < i { a } else { a - 1 };
                let y = if b < i { b } else { b - 1 };
                if a != i && b != i {
                    assert(text_less(PATHS, before.keys()[x], before.keys()[y]));
                }
            }
            if before@.dom().contains(key) {
                let k = choose|k: int| 0 <= k < n && before.keys()[k] == key;
                assert(text_less(PATHS, key, key));
            }
        }
        assert(after.values().len() == after.keys().len());
        assert forall|k: Seq<char>| after@.dom().contains(k) == before@.insert(
            key,
            value,
        ).dom().contains(k) by {
            if before.keys().contains(k) {
                let j = choose|j: int| 0 <= j < n && before.keys()[j] == k;
                let x = if fresh && j >= i { j + 1 } else { j };
                assert(after.keys()[x] == k);
            }
            if after.keys().contains(k) && k != key {
                let j = choose|j: int| 0 <= j < after.keys().len() && after.keys()[j] == k;
                let x = if fresh && j > i { j - 1 } else { j };
                assert(before.keys()[x] == k);
            }
            assert(after.keys()[i] == key);
        }
        assert forall|k: Seq<char>| #[trigger] after@.dom().contains(k) implies after@[k]
            == before@.insert(key, value)[k] by {
            let j = choose|j: int| 0 <= j < after.keys().len() && after.keys()[j] == k;
            after.lemma_at(j);
            after.lemma_at(i);
            if k != key {
                let x = if fresh && j > i { j - 1 } else { j };
                before.lemma_at(x);
                assert(before.keys()[x] == k);
            }
        }
        assert(after@ =~= before@.insert(key, value));
    }

    /// The empty map.
    pub fn new() -> (r: OrderedMap<V, PATHS>)
        ensures
            r@ == Map::<Seq<char>, V>::empty(),
            r.keys() == Seq::<Seq<char>>::empty(),
    {
        let r = OrderedMap { entries: Vec::new() };
        assert(r.keys() =~= Seq::<Seq<char>>::empty());
        assert(r@ =~= Map::<Seq<char>, V>::empty());
        r
    }

    /// How many entries the map has.
    pub fn len(&self) -> (r: usize)
        ensures
            r == self.keys().len(),
            self.values().len() == self.keys().len(),
            in_key_order(PATHS, self.keys()),
            self.keys().no_duplicates(),
            forall|k: int|
                0 <= k < self.keys().len() ==> self@.dom().contains(#[trigger] self.keys()[k])
                    && self@[self.keys()[k]] == self.values()[k],
    {
        proof {
            use_type_invariant(self);
            key_order_is_distinct(PATHS, self.keys());
            assert forall|k: int| 0 <= k < self.keys().len() implies self@.dom().contains(
                #[trigger] self.keys()[k],
            ) && self@[self.keys()[k]] == self.values()[k] by {
                self.lemma_at(k);
            }
        }
        self.entries.len()
    }

    pub fn is_empty(&self) -> (r: bool)
        ensures
            r == (self.keys().len() == 0),
            r == (self@ == Map::<Seq<char>, V>::empty()),
    {
        proof {
            use_type_invariant(self);
            if self.keys().len() == 0 {
                assert(self@ =~= Map::<Seq<char>, V>::empty());
            } else {
                self.lemma_at(0);
            }
        }
        self.entries.len() == 0
    }

    /// The key at a position in key order.
    pub fn key_at(&self, i: usize) -> (r: &String)
        requires
            i < self.keys().len(),
        ensures
            r@ == self.keys()[i as int],
    {
        &self.entries[i].0
    }

    /// The value at a position in key order.
    pub fn value_at(&self, i: usize) -> (r: &V)
        requires
            i < self.keys().len(),
        ensures
            *r == self.values()[i as int],
            self@.dom().contains(self.keys()[i as int]),
            self@[self.keys()[i as int]] == *r,
    {
        proof {
            use_type_invariant(self);
            self.lemma_at(i as int);
        }
        &self.entries[i].1
    }

    /// The value under a key.
    pub fn get(&self, key: &str) -> (r: Option<&V>)
        ensures
            match r {
                Some(v) => self@.dom().contains(key@) && self@[key@] == *v,
                None => !self@.dom().contains(key@),
            },
    {
        proof {
            use_type_invariant(self);
        }
        let mut i: usize = 0;
        while i < self.entries.len()
            invariant
                i <= self.entries@.len(),
                in_key_order(PATHS, self.keys()),
                forall|k: int| 0 <= k < i ==> self.keys()[k] != key@,
            decreases self.entries@.len() - i,
        {
            if same_text(self.entries[i].0.as_str(), key) {
                proof {
                    self.lemma_at(i as int);
                }
                return Some(&self.entries[i].1);
            }
            i = i + 1;
        }
        None
    }

    pub fn contains_key(&self, key: &str) -> (r: bool)
        ensures
            r == self@.dom().contains(key@),
    {
        self.get(key).is_some()
    }

    /// Puts a value under a key, in place of the one that was there.
    pub fn insert(&mut self, key: String, value: V)
        ensures
            final(self)@ == old(self)@.insert(key@, value),
            in_key_order(PATHS, final(self).keys()),
            old(self)@.dom().contains(key@) ==> final(self).keys() == old(self).keys(),
    {
        proof {
            use_type_invariant(&*self);
        }
        let ghost before = *self;
        let mut i: usize = 0;
        while i < self.entries.len() && matches!(
            order_of(PATHS, self.entries[i].0.as_str(), key.as_str()),
            TextOrder::Before
        )
            invariant
                *self == before,
                i <= self.entries@.len(),
                forall|k: int| 0 <= k < i ==> text_less(PATHS, #[trigger] self.keys()[k], key@),
            ensures
                *self == before,
                i <= self.entries@.len(),
                forall|k: int| 0 <= k < i ==> text_less(PATHS, #[trigger] self.keys()[k], key@),
                i < self.entries@.len() ==> !text_less(PATHS, self.entries@[i as int].0@, key@),
            decreases self.entries@.len() - i,
        {
            i = i + 1;
        }
        let ghost k = key@;
        let ghost entries = self.entries@;
        let mut next: Vec<(String, V)> = Vec::new();
        std::mem::swap(&mut next, &mut self.entries);
        proof {
            if i < entries.len() {
                text_less_total(PATHS, entries[i as int].0@, k);
            }
        }
        if i < next.len() && same_text(next[i].0.as_str(), key.as_str()) {
            next.set(i, (key, value));
        } else {
            next.insert(i, (key, value));
        }
        proof {
            let after = OrderedMap { entries: next };
            if next@.len() == entries.len() {
                assert(after.keys() =~= before.keys());
                assert(after.values() =~= before.values().update(i as int, value));
            } else {
                assert(after.keys() =~= before.keys().insert(i as int, k));
                assert(after.values() =~= before.values().insert(i as int, value));
            }
            Self::lemma_insert(before, after, i as int, k, value);
        }
        *self = OrderedMap { entries: next };
    }

    /// Takes the value under a key out of the map.
    pub fn remove(&mut self, key: &str) -> (r: Option<V>)
        ensures
            match r {
                Some(v) => old(self)@.dom().contains(key@) && v == old(self)@[key@] && final(self)@
                    == old(self)@.remove(key@),
                None => !old(self)@.dom().contains(key@) && *final(self) == *old(self),
            },
    {
        proof {
            use_type_invariant(&*self);
        }
        let ghost before = *self;
        let mut i: usize = 0;
        while i < self.entries.len() && !same_text(self.entries[i].0.as_str(), key)
            invariant
                *self == before,
                i <= self.entries@.len(),
                forall|k: int| 0 <= k < i ==> self.keys()[k] != key@,
            ensures
                *self == before,
                i <= self.entries@.len(),
                forall|k: int| 0 <= k < i ==> self.keys()[k] != key@,
                i < self.entries@.len() ==> self.entries@[i as int].0@ == key@,
            decreases self.entries@.len() - i,
        {
            i = i + 1;
        }
        if i >= self.entries.len() {
            return None;
        }
        let mut next: Vec<(String, V)> = Vec::new();
        std::mem::swap(&mut next, &mut self.entries);
        let entry = next.remove(i);
        proof {
            let after: Self = OrderedMap { entries: next };
            assert(after.keys() =~= before.keys().remove(i as int));
            assert(after.values() =~= before.values().remove(i as int));
            Self::lemma_remove(before, after, i as int);
        }
        *self = OrderedMap { entries: next };
        Some(entry.1)
    }

    /// Keeps the entries under the given keys, and no others.
    pub fn retain(&mut self, keys: &Vec<String>)
        ensures
            final(self)@ == kept(old(self)@, texts(keys@)),
    {
        proof {
            use_type_invariant(&*self);
        }
        let ghost before = *self;
        let ghost allowed = texts(keys@);
        let mut rest: Vec<(String, V)> = Vec::new();
        std::mem::swap(&mut rest, &mut self.entries);
        let total: usize = rest.len();
        let mut out: Self = OrderedMap::new();
        let mut i: usize = 0;
        while i < total
            invariant
                i <= total,
                total == before.entries@.len(),
                in_key_order(PATHS, before.keys()),
                rest@ == before.entries@.skip(i as int),
                allowed == texts(keys@),
                forall|k: Seq<char>|
                    #![trigger out@.dom().contains(k)]
                    out@.dom().contains(k) <==> before.keys().take(i as int).contains(k)
                        && allowed.contains(k),
                forall|k: Seq<char>|
                    #![trigger out@[k]]
                    out@.dom().contains(k) ==> out@[k] == before@[k],
            decreases total - i,
        {
            let ghost prior = out@;
            let entry = rest.remove(0);
            assert(entry == before.entries@[i as int]);
            assert(rest@ =~= before.entries@.skip(i + 1));
            let ghost key = entry.0@;
            proof {
                before.lemma_at(i as int);
                assert(before.keys()[i as int] == key);
                assert(before.keys().take(i + 1) =~= before.keys().take(i as int).push(key));
                assert forall|k: Seq<char>| #[trigger]
                    before.keys().take(i + 1).contains(k) <==> before.keys().take(
                        i as int,
                    ).contains(k) || k == key by {
                    let longer = before.keys().take(i + 1);
                    let shorter = before.keys().take(i as int);
                    if shorter.contains(k) {
                        let j = choose|j: int| 0 <= j < shorter.len() && shorter[j] == k;
                        assert(longer[j] == k);
                    }
                    assert(longer[i as int] == key);
                }
            }
            if list_contains(keys, entry.0.as_str()) {
                out.insert(entry.0, entry.1);
                assert(out@ == prior.insert(key, entry.1));
            }
            i = i + 1;
        }
        proof {
            assert(before.keys().take(total as int) =~= before.keys());
            assert(out@ =~= kept(before@, allowed));
        }
        *self = out;
    }

    /// Takes all entries of another map over, in place of those under the same keys.
    pub fn absorb(&mut self, more: OrderedMap<V, PATHS>)
        ensures
            final(self)@ == old(self)@.union_prefer_right(more@),
    {
        proof {
            use_type_invariant(&more);
        }
        let ghost before = self@;
        let ghost added = more;
        let mut rest: Vec<(String, V)> = more.entries;
        let total: usize = rest.len();
        let mut i: usize = 0;
        assert(self@ =~= before);
        while i < total
            invariant
                i <= total,
                total == added.entries@.len(),
                in_key_order(PATHS, added.keys()),
                rest@ == added.entries@.skip(i as int),
                forall|k: Seq<char>|
                    #![trigger self@.dom().contains(k)]
                    self@.dom().contains(k) <==> before.dom().contains(k) || added.keys().take(
                        i as int,
                    ).contains(k),
                forall|k: Seq<char>|
                    #![trigger self@[k]]
                    self@.dom().contains(k) ==> self@[k] == if added.keys().take(i as int).contains(k) {
                        added@[k]
                    } else {
                        before[k]
                    },
            decreases total - i,
        {
            let ghost prior = self@;
            let entry = rest.remove(0);
            assert(entry == added.entries@[i as int]);
            assert(rest@ =~= added.entries@.skip(i + 1));
            let ghost key = entry.0@;
            proof {
                added.lemma_at(i as int);
                assert(added.keys()[i as int] == key);
                assert forall|k: Seq<char>| #[trigger]
                    added.keys().take(i + 1).contains(k) <==> added.keys().take(i as int).contains(k)
                        || k == key by {
                    let longer = added.keys().take(i + 1);
                    let shorter = added.keys().take(i as int);
                    assert(longer =~= shorter.push(key));
                    if shorter.contains(k) {
                        let j = choose|j: int| 0 <= j < shorter.len() && shorter[j] == k;
                        assert(longer[j] == k);
                    }
                    assert(longer[i as int] == key);
                }
            }
            self.insert(entry.0, entry.1);
            assert(self@ == prior.insert(key, entry.1));
            i = i + 1;
        }
        proof {
            assert(added.keys().take(total as int) =~= added.keys());
            assert(self@ =~= before.union_prefer_right(added@));
        }
    }

    proof fn lemma_remove(before: Self, after: Self, i: int)
        requires
            in_key_order(PATHS, before.keys()),
            0 <= i < before.keys().len(),
            after.keys() == before.keys().remove(i),
            after.values() == before.values().remove(i),
        ensures
            in_key_order(PATHS, after.keys()),
            after@ == before@.remove(before.keys()[i]),
            before@.dom().contains(before.keys()[i]),
            before@[before.keys()[i]] == before.values()[i],
    {
        let n = before.keys().len() as int;
        let key = before.keys()[i];
        before.lemma_at(i);
        key_order_is_distinct(PATHS, before.keys());
        assert forall|a: int, b: int| 0 <= a < b < n - 1 implies text_less(
            PATHS,
            #[trigger] after.keys()[a],
            #[trigger] after.keys()[b],
        ) by {
            let x = if a < i { a } else { a + 1 };
            let y = if b < i { b } else { b + 1 };
            assert(text_less(PATHS, before.keys()[x], before.keys()[y]));
        }
        assert forall|k: Seq<char>|
            after@.dom().contains(k) == before@.remove(key).dom().contains(k) by {
            if before.keys().contains(k) && k != key {
                let j = choose|j: int| 0 <= j < n && before.keys()[j] == k;
                let x = if j < i { j } else { j - 1 };
                assert(after.keys()[x] == k);
            }
            if after.keys().contains(k) {
                let j = choose|j: int| 0 <= j < n - 1 && after.keys()[j] == k;
                let x = if j < i { j } else { j + 1 };
                assert(before.keys()[x] == k);
            }
        }
        assert forall|k: Seq<char>| #[trigger] after@.dom().contains(k) implies after@[k]
            == before@.remove(key)[k] by {
            let j = choose|j: int| 0 <= j < after.keys().len() && after.keys()[j] == k;
            after.lemma_at(j);
            let x = if j < i { j } else { j + 1 };
            before.lemma_at(x);
        }
        assert(after@ =~= before@.remove(key));
    }
}

/// The entries under the given keys.
pub open spec fn kept<V>(m: Map<Seq<char>, V>, keys: Seq<Seq<char>>) -> Map<Seq<char>, V> {
    Map::new(|k: Seq<char>| m.dom().contains(k) && keys.contains(k), |k: Seq<char>| m[k])
}

/// Adds an item at the end of the list under a key; a missing list begins empty.
pub fn push_to<T, const PATHS: bool>(
    map: &mut OrderedMap<Vec<T>, PATHS>,
    key: String,
    item: T,
)
    ensures
        final(map)@.dom() == old(map)@.dom().insert(key@),
        final(map)@[key@]@ == (if old(map)@.dom().contains(key@) {
            old(map)@[key@]@
        } else {
            Seq::empty()
        }).push(item),
        forall|k: Seq<char>|
            k != key@ && old(map)@.dom().contains(k) ==> #[trigger] final(map)@[k] == old(map)@[k],
{
    let mut list = match map.remove(key.as_str()) {
        Some(v) => v,
        None => Vec::new(),
    };
    list.push(item);
    let ghost before = old(map)@;
    map.insert(key, list);
    assert(map@.dom() =~= before.dom().insert(key@));
}

/// The first character in which two texts differ decides which one comes first: by its number,
/// and in paths the separator before all others.
pub proof fn the_first_different_character_decides(
    front: Seq<char>,
    x: char,
    y: char,
    a: Seq<char>,
    b: Seq<char>,
)
    requires
        x != y,
    ensures
        text_less(false, front + seq![x] + a, front + seq![y] + b) <==> (x as int) < (y as int),
        text_less(true, front + seq![x] + a, front + seq![y] + b) <==> x == '/' || (y != '/' && (
        x as int) < (y as int)),
    decreases front.len(),
{
    let s = front + seq![x] + a;
    let t = front + seq![y] + b;
    if front.len() > 0 {
        let rest = front.skip(1);
        assert(s[0] == front[0] && t[0] == front[0]);
        assert(s.skip(1) =~= rest + seq![x] + a);
        assert(t.skip(1) =~= rest + seq![y] + b);
        the_first_different_character_decides(rest, x, y, a, b);
    } else {
        assert(s[0] == x && t[0] == y);
    }
}

/// The beginning of a text comes before the text.
pub proof fn beginnings_come_first(paths: bool, a: Seq<char>, b: Seq<char>)
    ensures
        text_less(paths, a, a + b) <==> b.len() > 0,
        !text_less(paths, a + b, a),
    decreases a.len(),
{
    let s = a + b;
    if a.len() > 0 {
        assert(s[0] == a[0]);
        assert(s.skip(1) =~= a.skip(1) + b);
        beginnings_come_first(paths, a.skip(1), b);
    } else {
        assert(s =~= b);
    }
}

} // verus!
