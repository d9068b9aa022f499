//! Ordered containers keyed by text: a set of strings and a map from strings
//! to values, both kept in ascending order of their keys at all times.

use vstd::prelude::*;
use crate::text::{ascending, compare, precedes, Rank};
use crate::text::{lemma_precedes_asymmetric, lemma_precedes_irreflexive, lemma_precedes_transitive};

verus! {

/// The texts of a sequence of strings.
pub open spec fn texts(items: Seq<String>) -> Seq<Seq<char>> {
    Seq::new(items.len(), |i: int| items[i]@)
}

/// In an ascending sequence a text stands at one place only.
pub proof fn lemma_ascending_distinct(s: Seq<Seq<char>>, i: int, j: int)
    requires
        ascending(s),
        0 <= i < s.len(),
        0 <= j < s.len(),
        s[i] == s[j],
    ensures
        i == j,
{
    if i < j {
        lemma_precedes_asymmetric(s[i], s[j]);
    } else if j < i {
        lemma_precedes_asymmetric(s[j], s[i]);
    }
}

/// Putting `t` where everything before it precedes it and it precedes
/// everything after keeps a sequence ascending.
pub proof fn lemma_insert_ascending(s: Seq<Seq<char>>, p: int, t: Seq<char>)
    requires
        ascending(s),
        0 <= p <= s.len(),
        forall|i: int| 0 <= i < p ==> precedes(#[trigger] s[i], t),
        forall|i: int| p <= i < s.len() ==> precedes(t, #[trigger] s[i]),
    ensures
        ascending(s.insert(p, t)),
        s.insert(p, t).to_set() == s.to_set().insert(t),
{
    let n = s.insert(p, t);
    assert forall|i: int, j: int| 0 <= i < j < n.len() implies precedes(
        #[trigger] n[i],
        #[trigger] n[j],
    ) by {
        if i < p {
            assert(n[i] == s[i]);
        } else if i > p {
            assert(n[i] == s[i - 1]);
        }
        if j < p {
            assert(n[j] == s[j]);
        } else if j > p {
            assert(n[j] == s[j - 1]);
        }
    }
    assert forall|x: Seq<char>| n.to_set().contains(x) <==> s.to_set().insert(t).contains(
        x,
    ) by {
        if n.to_set().contains(x) {
            let i = choose|i: int| 0 <= i < n.len() && n[i] == x;
            if i < p {
                assert(s[i] == x);
            } else if i > p {
                assert(s[i - 1] == x);
            }
        }
        if s.to_set().contains(x) {
            let i = choose|i: int| 0 <= i < s.len() && s[i] == x;
            if i < p {
                assert(n[i] == x);
            } else {
                assert(n[i + 1] == x);
            }
        }
        if x == t {
            assert(n[p] == x);
        }
    }
    assert(n.to_set() =~= s.to_set().insert(t));
}

/// `key` stands among the first `i` of `keys`.
pub open spec fn among(keys: Seq<Seq<char>>, key: Seq<char>, i: int) -> bool {
    exists|a: int| 0 <= a < i && a < keys.len() && #[trigger] keys[a] == key
}

/// Among the first `i + 1` keys stand the first `i` and the one at place `i`.
pub proof fn lemma_among_step(keys: Seq<Seq<char>>, i: int, i1: int)
    requires
        0 <= i < keys.len(),
        i1 == i + 1,
    ensures
        forall|key: Seq<char>| #[trigger]
            among(keys, key, i1) <==> among(keys, key, i) || key == keys[i],
{
    assert forall|key: Seq<char>| #[trigger]
        among(keys, key, i1) <==> among(keys, key, i) || key == keys[i] by {
        if among(keys, key, i1) {
            let a = choose|a: int| 0 <= a < i1 && a < keys.len() && #[trigger] keys[a] == key;
            if a < i {
                assert(among(keys, key, i));
            }
        }
        if among(keys, key, i) {
            let a = choose|a: int| 0 <= a < i && a < keys.len() && #[trigger] keys[a] == key;
            assert(among(keys, key, i1));
        }
        if key == keys[i] {
            assert(among(keys, key, i1));
        }
    }
}

/// Where `key` stands, or would stand, in the ascending sequence `keys`.
pub open spec fn place_of(keys: Seq<Seq<char>>, key: Seq<char>, p: int, found: bool) -> bool {
    &&& 0 <= p <= keys.len()
    &&& forall|i: int| 0 <= i < p ==> precedes(#[trigger] keys[i], key)
    &&& found ==> p < keys.len() && keys[p] == key
    &&& !found ==> forall|i: int| p <= i < keys.len() ==> precedes(key, #[trigger] keys[i])
}

/// If `key` has no place among `keys`, it is not one of them.
pub proof fn lemma_place_absent(keys: Seq<Seq<char>>, key: Seq<char>, p: int)
    requires
        place_of(keys, key, p, false),
    ensures
        !keys.contains(key),
{
    if keys.contains(key) {
        let i = choose|i: int| 0 <= i < keys.len() && keys[i] == key;
        lemma_precedes_irreflexive(key);
    }
}

/// Finds the place of `key` among the ascending `items` by bisection.
fn locate(items: &Vec<String>, key: &str) -> (r: (usize, bool))
    requires
        ascending(texts(items@)),
    ensures
        place_of(texts(items@), key@, r.0 as int, r.1),
        r.1 == texts(items@).contains(key@),
{
    let ghost keys = texts(items@);
    let mut lo: usize = 0;
    let mut hi: usize = items.len();
    while lo < hi
        invariant
            keys == texts(items@),
            ascending(keys),
            0 <= lo <= hi <= items.len(),
            forall|i: int| 0 <= i < lo ==> precedes(#[trigger] keys[i], key@),
            forall|i: int| hi <= i < keys.len() ==> precedes(key@, #[trigger] keys[i]),
        decreases hi - lo,
    {
        let mid: usize = lo + (hi - lo) / 2;
        match compare(items[mid].as_str(), key) {
            Rank::Same => {
                assert(keys[mid as int] == key@);
                return (mid, true);
            },
            Rank::Before => {
                assert forall|i: int| 0 <= i < mid + 1 implies precedes(
                    #[trigger] keys[i],
                    key@,
                ) by {
                    if i < mid {
                        lemma_precedes_transitive(keys[i], keys[mid as int], key@);
                    }
                }
                lo = mid + 1;
            },
            Rank::After => {
                assert forall|i: int| mid <= i < keys.len() implies precedes(
                    key@,
                    #[trigger] keys[i],
                ) by {
                    if i > mid {
                        lemma_precedes_transitive(key@, keys[mid as int], keys[i]);
                    }
                }
                hi = mid;
            },
        }
    }
    proof {
        lemma_place_absent(keys, key@, lo as int);
    }
    (lo, false)
}

/// A set of strings, kept in ascending order.
#[derive(Debug)]
pub struct TextSet {
    items: Vec<String>,
}

impl View for TextSet {
    type V = Set<Seq<char>>;

    /// The texts that the set holds.
    closed spec fn view(&self) -> Set<Seq<char>> {
        self.elements().to_set()
    }
}

impl DeepView for TextSet {
    type V = Set<Seq<char>>;

    open spec fn deep_view(&self) -> Set<Seq<char>> {
        self@
    }
}

impl TextSet {
    /// The members never stand out of order.
    #[verifier::type_invariant]
    pub closed spec fn ordered(&self) -> bool {
        ascending(texts(self.items@))
    }

    /// The members in the order in which the set keeps them.
    pub closed spec fn elements(&self) -> Seq<Seq<char>> {
        texts(self.items@)
    }

    /// The set and its sequence of members hold the same texts, and a set
    /// in order holds each of them once, ascending.
    pub proof fn lemma_elements(&self)
        ensures
            self@ == self.elements().to_set(),
            self@.finite(),
            self.ordered() ==> ascending(self.elements()),
            self.ordered() ==> self.elements().no_duplicates(),
            self.ordered() ==> self@.len() == self.elements().len(),
    {
        vstd::seq_lib::seq_to_set_is_finite(self.elements());
        if self.ordered() {
            let s = self.elements();
            assert forall|i: int, j: int| 0 <= i < s.len() && 0 <= j < s.len() && i != j implies s[i]
                != s[j] by {
                if s[i] == s[j] {
                    lemma_ascending_distinct(s, i, j);
                }
            }
            s.unique_seq_to_set();
        }
    }

    /// The empty set.
    pub fn new() -> (r: TextSet)
        ensures
            r@ == Set::<Seq<char>>::empty(),
            r.elements() == Seq::<Seq<char>>::empty(),
    {
        let r = TextSet { items: Vec::new() };
        assert(r.elements() =~= Seq::<Seq<char>>::empty());
        assert(r@ =~= Set::<Seq<char>>::empty());
        r
    }

    /// The number of members.
    pub fn len(&self) -> (n: usize)
        ensures
            n == self.elements().len(),
            n == self@.len(),
            ascending(self.elements()),
    {
        proof {
            use_type_invariant(self);
            self.lemma_elements();
        }
        self.items.len()
    }

    /// The member at place `i` in ascending order.
    pub fn get(&self, i: usize) -> (r: &String)
        requires
            i < self.elements().len(),
        ensures
            r@ == self.elements()[i as int],
            self@.contains(r@),
    {
        assert(self.elements()[i as int] == self.items@[i as int]@);
        &self.items[i]
    }

    /// Adds every member of `other` to the set.
    pub fn extend(&mut self, other: &TextSet)
        ensures
            final(self)@ == old(self)@.union(other@),
    {
        let n = other.len();
        let mut i: usize = 0;
        proof {
            other.lemma_elements();
        }
        while i < n
            invariant
                n == other.elements().len(),
                0 <= i <= n,
                other@ == other.elements().to_set(),
                forall|t: Seq<char>|
                    self@.contains(t) <==> old(self)@.contains(t) || exists|k: int|
                        0 <= k < i && #[trigger] other.elements()[k] == t,
            decreases n - i,
        {
            let ghost before = self@;
            self.insert(other.get(i).as_str());
            proof {
                let added = other.elements()[i as int];
                assert forall|t: Seq<char>|
                    self@.contains(t) <==> old(self)@.contains(t) || exists|k: int|
                        0 <= k < i + 1 && #[trigger] other.elements()[k] == t by {
                    if t == added {
                        assert(other.elements()[i as int] == t);
                    }
                    if exists|k: int| 0 <= k < i + 1 && #[trigger] other.elements()[k] == t {
                        let k = choose|k: int| 0 <= k < i + 1 && #[trigger] other.elements()[k] == t;
                        if k < i {
                            assert(before.contains(t));
                        }
                    }
                }
            }
            i = i + 1;
        }
        proof {
            assert forall|t: Seq<char>| self@.contains(t) <==> old(self)@.union(other@).contains(
                t,
            ) by {
                if other@.contains(t) {
                    let k = other.elements().index_of(t);
                    assert(other.elements()[k] == t);
                }
            }
            assert(self@ =~= old(self)@.union(other@));
        }
    }

    /// The members in ascending order, each copied.
    pub fn to_vec(&self) -> (r: Vec<String>)
        ensures
            r.deep_view() == self.elements(),
            ascending(r.deep_view()),
            r.deep_view().to_set() == self@,
    {
        proof {
            use_type_invariant(self);
        }
        let mut r: Vec<String> = Vec::new();
        let mut i: usize = 0;
        while i < self.items.len()
            invariant
                0 <= i <= self.items.len(),
                r.len() == i,
                forall|k: int| 0 <= k < i ==> r[k]@ == self.items[k]@,
            decreases self.items.len() - i,
        {
            r.push(self.items[i].clone());
            i = i + 1;
        }
        assert(r.deep_view() =~= self.elements());
        r
    }

    /// Tells whether `t` is a member.
    pub fn contains(&self, t: &str) -> (r: bool)
        ensures
            r == self@.contains(t@),
    {
        proof {
            use_type_invariant(self);
        }
        let (_, found) = locate(&self.items, t);
        found
    }

    /// Adds `t` to the set; tells whether it was new.
    pub fn insert(&mut self, t: &str) -> (r: bool)
        ensures
            final(self)@ == old(self)@.insert(t@),
            r == !old(self)@.contains(t@),
            !r ==> final(self).elements() == old(self).elements(),
    {
        proof {
            use_type_invariant(&*self);
        }
        let (p, found) = locate(&self.items, t);
        if found {
            assert(self@ =~= self@.insert(t@));
            false
        } else {
            let ghost before = texts(self.items@);
            let mut items: Vec<String> = Vec::new();
            std::mem::swap(&mut self.items, &mut items);
            items.insert(p, String::from_str(t));
            proof {
                assert(texts(items@) =~= before.insert(p as int, t@));
                lemma_insert_ascending(before, p as int, t@);
            }
            self.items = items;
            true
        }
    }
}

/// A map from strings to values, kept in ascending order of its keys.
#[derive(Debug)]
pub struct TextMap<V> {
    keys: Vec<String>,
    values: Vec<V>,
}

impl<V: DeepView> View for TextMap<V> {
    type V = Map<Seq<char>, V::V>;

    /// The map from each key's text to the model of its value.
    open spec fn view(&self) -> Map<Seq<char>, V::V> {
        Map::new(|k: Seq<char>| self.contains_key(k), |k: Seq<char>| self.value(k).deep_view())
    }
}

impl<V: DeepView> DeepView for TextMap<V> {
    type V = Map<Seq<char>, V::V>;

    open spec fn deep_view(&self) -> Map<Seq<char>, V::V> {
        self@
    }
}

impl<V> TextMap<V> {
    /// The keys never stand out of order, and each has its value.
    #[verifier::type_invariant]
    pub closed spec fn ordered(&self) -> bool {
        &&& ascending(texts(self.keys@))
        &&& self.keys@.len() == self.values@.len()
    }

    /// The keys in ascending order.
    pub closed spec fn keys(&self) -> Seq<Seq<char>> {
        texts(self.keys@)
    }

    /// The values, each at the place of its key.
    pub closed spec fn values(&self) -> Seq<V> {
        self.values@
    }

    /// Whether `k` is a key of the map.
    pub open spec fn contains_key(&self, k: Seq<char>) -> bool {
        self.keys().contains(k)
    }

    /// The value kept under `k`.
    pub open spec fn value(&self, k: Seq<char>) -> V
        recommends
            self.contains_key(k),
    {
        self.values()[self.keys().index_of(k)]
    }

}

impl<V: DeepView> TextMap<V> {
    /// In a map in order, keys ascend, each key has one place, and the value
    /// under a key is the one at that place.
    pub proof fn lemma_entries(&self)
        requires
            self.ordered(),
        ensures
            ascending(self.keys()),
            self.keys().len() == self.values().len(),
            forall|i: int|
                0 <= i < self.keys().len() ==> self.contains_key(#[trigger] self.keys()[i])
                    && self.value(self.keys()[i]) == self.values()[i],
    {
        let s = self.keys();
        assert forall|i: int| 0 <= i < s.len() implies self.contains_key(#[trigger] s[i])
            && self.value(s[i]) == self.values()[i] by {
            let j = s.index_of(s[i]);
            lemma_ascending_distinct(s, i, j);
        }
    }

    /// The keys of a map in order are those of its model, each once.
    pub proof fn lemma_keys(&self)
        requires
            self.ordered(),
        ensures
            ascending(self.keys()),
            self.keys().no_duplicates(),
            self.keys().to_set() == self@.dom(),
            self@.dom().finite(),
            self@.len() == self.keys().len(),
    {
        let s = self.keys();
        assert forall|i: int, j: int| 0 <= i < s.len() && 0 <= j < s.len() && i != j implies s[i]
            != s[j] by {
            if s[i] == s[j] {
                lemma_ascending_distinct(s, i, j);
            }
        }
        assert(s.to_set() =~= self@.dom());
        vstd::seq_lib::seq_to_set_is_finite(s);
        s.unique_seq_to_set();
    }

    /// Changing the value at one place changes the value under the key at
    /// that place and nothing else.
    pub proof fn lemma_update(&self, after: &TextMap<V>, i: int)
        requires
            self.ordered(),
            0 <= i < self.keys().len(),
            after.keys() == self.keys(),
            after.values() == self.values().update(i, after.values()[i]),
        ensures
            after.ordered(),
            after.value(self.keys()[i]) == after.values()[i],
            after@ == self@.insert(self.keys()[i], after.values()[i].deep_view()),
    {
        self.lemma_entries();
        after.lemma_entries();
        assert forall|k: Seq<char>| self.contains_key(k) implies #[trigger] after@[k] == self@.insert(
            self.keys()[i],
            after.values()[i].deep_view(),
        )[k] by {
            let j = self.keys().index_of(k);
            assert(self.keys()[j] == k);
            if j != i {
                assert(k != self.keys()[i]) by {
                    if k == self.keys()[i] {
                        lemma_ascending_distinct(self.keys(), i, j);
                    }
                }
            }
        }
        assert(after@ =~= self@.insert(self.keys()[i], after.values()[i].deep_view()));
    }

    /// The empty map.
    pub fn new() -> (r: TextMap<V>)
        ensures
            r.keys() == Seq::<Seq<char>>::empty(),
            r.values() == Seq::<V>::empty(),
            forall|k: Seq<char>| !r.contains_key(k),
            r@ == Map::<Seq<char>, V::V>::empty(),
    {
        let r = TextMap { keys: Vec::new(), values: Vec::new() };
        assert(r.keys() =~= Seq::<Seq<char>>::empty());
        assert(r@ =~= Map::<Seq<char>, V::V>::empty());
        r
    }

    /// The number of entries.
    pub fn len(&self) -> (n: usize)
        ensures
            n == self.keys().len(),
            n == self.values().len(),
            self.ordered(),
    {
        proof {
            use_type_invariant(self);
        }
        self.keys.len()
    }

    /// The key at place `i` in ascending order.
    pub fn key(&self, i: usize) -> (r: &String)
        requires
            i < self.keys().len(),
        ensures
            r@ == self.keys()[i as int],
            self.contains_key(r@),
    {
        &self.keys[i]
    }

    /// The value at place `i`, which is the value of the key at that place.
    pub fn value_at(&self, i: usize) -> (r: &V)
        requires
            i < self.keys().len(),
        ensures
            *r == self.values()[i as int],
            *r == self.value(self.keys()[i as int]),
    {
        proof {
            use_type_invariant(self);
            self.lemma_entries();
        }
        &self.values[i]
    }

    /// The place of `key`, if the map has it.
    pub fn find(&self, key: &str) -> (r: Option<usize>)
        ensures
            r is Some <==> self.contains_key(key@),
            r matches Some(i) ==> i < self.keys().len() && self.keys()[i as int] == key@,
    {
        proof {
            use_type_invariant(self);
        }
        let (p, found) = locate(&self.keys, key);
        if found {
            Some(p)
        } else {
            None
        }
    }

    /// The value kept under `key`, if the map has it.
    pub fn get(&self, key: &str) -> (r: Option<&V>)
        ensures
            r is Some <==> self.contains_key(key@),
            r matches Some(v) ==> *v == self.value(key@),
    {
        match self.find(key) {
            Some(i) => Some(self.value_at(i)),
            None => None,
        }
    }

    /// Makes sure that `key` has an entry, giving it the value `fresh` where
    /// it had none, and returns the place of the entry.
    pub fn ensure(&mut self, key: &str, fresh: V) -> (i: usize)
        ensures
            final(self).ordered(),
            i <= old(self).keys().len(),
            i < final(self).keys().len(),
            final(self).keys()[i as int] == key@,
            final(self).contains_key(key@),
            forall|k: Seq<char>|
                final(self).contains_key(k) <==> old(self).contains_key(k) || k == key@,
            forall|k: Seq<char>|
                old(self).contains_key(k) ==> #[trigger] final(self).value(k) == old(self).value(k),
            old(self).contains_key(key@) ==> final(self).keys() == old(self).keys()
                && final(self).values() == old(self).values(),
            !old(self).contains_key(key@) ==> final(self).keys() == old(self).keys().insert(
                i as int,
                key@,
            ) && final(self).values() == old(self).values().insert(i as int, fresh)
                && final(self).value(key@) == fresh,
            final(self)@ == if old(self).contains_key(key@) {
                old(self)@
            } else {
                old(self)@.insert(key@, fresh.deep_view())
            },
    {
        proof {
            use_type_invariant(&*self);
        }
        let (p, found) = locate(&self.keys, key);
        if found {
            assert(self@ =~= old(self)@);
            p
        } else {
            let ghost before = *self;
            let mut taken = TextMap { keys: Vec::new(), values: Vec::new() };
            std::mem::swap(self, &mut taken);
            let TextMap { mut keys, mut values } = taken;
            keys.insert(p, String::from_str(key));
            values.insert(p, fresh);
            proof {
                assert(texts(keys@) =~= before.keys().insert(p as int, key@));
                lemma_insert_ascending(before.keys(), p as int, key@);
            }
            *self = TextMap { keys, values };
            proof {
                before.lemma_entries();
                self.lemma_entries();
                let old_keys = before.keys();
                let new_keys = self.keys();
                assert forall|k: Seq<char>| self.contains_key(k) <==> before.contains_key(k) || k
                    == key@ by {
                    assert(new_keys.to_set().contains(k) <==> new_keys.contains(k));
                    assert(old_keys.to_set().contains(k) <==> old_keys.contains(k));
                }
                assert forall|k: Seq<char>| before.contains_key(k) implies #[trigger] self.value(k)
                    == before.value(k) by {
                    let j = old_keys.index_of(k);
                    if j < p {
                        assert(new_keys[j] == k);
                    } else {
                        assert(new_keys[j + 1] == k);
                    }
                }
                assert(new_keys[p as int] == key@);
                assert(self@ =~= before@.insert(key@, fresh.deep_view()));
                use_type_invariant(&*self);
            }
            p
        }
    }

    /// The value at place `i`, to be changed in place.
    pub fn value_mut(&mut self, i: usize) -> (r: &mut V)
        requires
            i < old(self).keys().len(),
        ensures
            *r == old(self).values()[i as int],
            final(self).keys() == old(self).keys(),
            final(self).values() == old(self).values().update(i as int, *final(r)),
    {
        proof {
            use_type_invariant(&*self);
        }
        &mut self.values[i]
    }

    /// Puts `value` under `key`, in place of the value that the key had, if
    /// it had one; returns that value.
    pub fn insert(&mut self, key: &str, value: V) -> (r: Option<V>)
        ensures
            final(self).ordered(),
            final(self)@ == old(self)@.insert(key@, value.deep_view()),
            final(self).value(key@) == value,
            forall|k: Seq<char>|
                final(self).contains_key(k) <==> old(self).contains_key(k) || k == key@,
            forall|k: Seq<char>|
                old(self).contains_key(k) && k != key@ ==> #[trigger] final(self).value(k) == old(
                    self,
                ).value(k),
            r is Some <==> old(self).contains_key(key@),
            r matches Some(v) ==> v == old(self).value(key@),
    {
        proof {
            use_type_invariant(&*self);
            self.lemma_entries();
        }
        let (p, found) = locate(&self.keys, key);
        if found {
            let ghost before = *self;
            let mut held = value;
            let slot = self.value_mut(p);
            std::mem::swap(slot, &mut held);
            proof {
                use_type_invariant(&*self);
                before.lemma_update(&*self, p as int);
                self.lemma_entries();
                assert forall|k: Seq<char>| before.contains_key(k) && k != key@ implies #[trigger]
                    self.value(k) == before.value(k) by {
                    let j = before.keys().index_of(k);
                    assert(before.keys()[j] == k);
                }
            }
            Some(held)
        } else {
            self.ensure(key, value);
            None
        }
    }
}

} // verus!
