//! An ordered map kept as a sorted vector, seen as a mathematical map.
//!
//! The entries are sorted by key and no key occurs twice, so a walk from the
//! first entry to the last visits the keys in ascending order.

use crate::text::text_before;
use vstd::prelude::*;

verus! {

/// A key type with a strict total order on its view.
pub trait OrderedKey: View + Sized {
    /// `a` comes strictly before `b`.
    spec fn less(a: Self::V, b: Self::V) -> bool;

    /// No key comes before itself.
    proof fn less_irreflexive(a: Self::V)
        ensures
            !Self::less(a, a),
    ;

    /// The order is transitive.
    proof fn less_transitive(a: Self::V, b: Self::V, c: Self::V)
        requires
            Self::less(a, b),
            Self::less(b, c),
        ensures
            Self::less(a, c),
    ;

    /// Different keys are ordered one way or the other.
    proof fn less_total(a: Self::V, b: Self::V)
        ensures
            a == b || Self::less(a, b) || Self::less(b, a),
    ;

    /// Whether this key comes strictly before `other`.
    fn before(&self, other: &Self) -> (r: bool)
        ensures
            r == Self::less(self@, other@),
    ;

    /// Whether both keys are the same.
    fn same(&self, other: &Self) -> (r: bool)
        ensures
            r == (self@ == other@),
    ;

    /// A copy of this key.
    fn duplicate(&self) -> (r: Self)
        ensures
            r@ == self@,
    ;
}

impl OrderedKey for String {
    open spec fn less(a: Seq<char>, b: Seq<char>) -> bool {
        crate::text::text_less(a, b)
    }

    proof fn less_irreflexive(a: Seq<char>) {
        crate::text::lemma_text_irreflexive(a);
    }

    proof fn less_transitive(a: Seq<char>, b: Seq<char>, c: Seq<char>) {
        crate::text::lemma_text_transitive(a, b, c);
    }

    proof fn less_total(a: Seq<char>, b: Seq<char>) {
        crate::text::lemma_text_total(a, b);
    }

    fn before(&self, other: &Self) -> (r: bool) {
        text_before(self.as_str(), other.as_str())
    }

    fn same(&self, other: &Self) -> (r: bool) {
        *self == *other
    }

    fn duplicate(&self) -> (r: Self) {
        self.clone()
    }
}

impl OrderedKey for u64 {
    open spec fn less(a: u64, b: u64) -> bool {
        a < b
    }

    proof fn less_irreflexive(a: u64) {
    }

    proof fn less_transitive(a: u64, b: u64, c: u64) {
    }

    proof fn less_total(a: u64, b: u64) {
    }

    fn before(&self, other: &Self) -> (r: bool) {
        *self < *other
    }

    fn same(&self, other: &Self) -> (r: bool) {
        *self == *other
    }

    fn duplicate(&self) -> (r: Self) {
        *self
    }
}

impl OrderedKey for u32 {
    open spec fn less(a: u32, b: u32) -> bool {
        a < b
    }

    proof fn less_irreflexive(a: u32) {
    }

    proof fn less_transitive(a: u32, b: u32, c: u32) {
    }

    proof fn less_total(a: u32, b: u32) {
    }

    fn before(&self, other: &Self) -> (r: bool) {
        *self < *other
    }

    fn same(&self, other: &Self) -> (r: bool) {
        *self == *other
    }

    fn duplicate(&self) -> (r: Self) {
        *self
    }
}

impl OrderedKey for &'static str {
    open spec fn less(a: Seq<char>, b: Seq<char>) -> bool {
        crate::text::text_less(a, b)
    }

    proof fn less_irreflexive(a: Seq<char>) {
        crate::text::lemma_text_irreflexive(a);
    }

    proof fn less_transitive(a: Seq<char>, b: Seq<char>, c: Seq<char>) {
        crate::text::lemma_text_transitive(a, b, c);
    }

    proof fn less_total(a: Seq<char>, b: Seq<char>) {
        crate::text::lemma_text_total(a, b);
    }

    fn before(&self, other: &Self) -> (r: bool) {
        text_before(*self, *other)
    }

    fn same(&self, other: &Self) -> (r: bool) {
        proof {
            crate::text::lemma_text_irreflexive(self@);
            crate::text::lemma_text_total(self@, other@);
        }
        !text_before(*self, *other) && !text_before(*other, *self)
    }

    fn duplicate(&self) -> (r: Self) {
        *self
    }
}

/// Strictly ascending.
pub open spec fn ascending<K: OrderedKey>(s: Seq<K::V>) -> bool {
    forall|i: int, j: int| 0 <= i < j < s.len() ==> K::less(#[trigger] s[i], #[trigger] s[j])
}

/// The members of a finite set, in ascending order.
pub open spec fn ascending_keys<K: OrderedKey>(s: Set<K::V>) -> Seq<K::V> {
    choose|q: Seq<K::V>| ascending::<K>(q) && #[trigger] q.to_set() == s
}

/// An ascending sequence repeats nothing.
pub proof fn lemma_ascending_no_duplicates<K: OrderedKey>(q: Seq<K::V>)
    requires
        ascending::<K>(q),
    ensures
        q.no_duplicates(),
        q.to_set().finite(),
        q.to_set().len() == q.len(),
{
    assert forall|i: int, j: int| 0 <= i < q.len() && 0 <= j < q.len() && i != j implies q[i]
        != q[j] by {
        K::less_irreflexive(q[i]);
        if i < j {
            assert(K::less(q[i], q[j]));
        } else {
            assert(K::less(q[j], q[i]));
        }
    }
    q.unique_seq_to_set();
    vstd::seq_lib::seq_to_set_is_finite(q);
}

/// Two ascending sequences with the same members are equal.
pub proof fn lemma_ascending_unique<K: OrderedKey>(p: Seq<K::V>, q: Seq<K::V>)
    requires
        ascending::<K>(p),
        ascending::<K>(q),
        p.to_set() == q.to_set(),
    ensures
        p == q,
    decreases p.len(),
{
    lemma_ascending_no_duplicates::<K>(p);
    lemma_ascending_no_duplicates::<K>(q);
    if p.len() == 0 {
        assert(p =~= q);
    } else {
        let n = p.len() - 1;
        assert(p.to_set().contains(p[n]));
        assert(q.to_set().contains(q[n]));
        if p[n] != q[n] {
            let i = choose|i: int| 0 <= i < p.len() && p[i] == q[n];
            let j = choose|j: int| 0 <= j < q.len() && q[j] == p[n];
            assert(q.to_set().contains(p[n]));
            assert(p.to_set().contains(q[n]));
            assert(K::less(p[i], p[n]));
            assert(K::less(q[j], q[n]));
            K::less_transitive(p[n], q[n], p[n]);
            K::less_irreflexive(p[n]);
        }
        let a = p.drop_last();
        let b = q.drop_last();
        assert forall|k: K::V| a.to_set().contains(k) == b.to_set().contains(k) by {
            if a.to_set().contains(k) {
                let i = choose|i: int| 0 <= i < a.len() && a[i] == k;
                assert(p[i] == k);
                assert(q.to_set().contains(k)) by {
                    assert(p.to_set().contains(k));
                }
                let j = choose|j: int| 0 <= j < q.len() && q[j] == k;
                assert(b[j] == k);
            }
            if b.to_set().contains(k) {
                let i = choose|i: int| 0 <= i < b.len() && b[i] == k;
                assert(q[i] == k);
                assert(p.to_set().contains(k)) by {
                    assert(q.to_set().contains(k));
                }
                let j = choose|j: int| 0 <= j < p.len() && p[j] == k;
                assert(a[j] == k);
            }
        }
        assert(a.to_set() =~= b.to_set());
        lemma_ascending_unique::<K>(a, b);
        assert(p =~= a.push(p[n]));
        assert(q =~= b.push(q[n]));
    }
}

/// An ascending sequence is the ascending walk of its members.
pub proof fn lemma_ascending_keys<K: OrderedKey>(q: Seq<K::V>)
    requires
        ascending::<K>(q),
    ensures
        ascending_keys::<K>(q.to_set()) == q,
{
    let c = ascending_keys::<K>(q.to_set());
    assert(ascending::<K>(c) && c.to_set() == q.to_set());
    lemma_ascending_unique::<K>(c, q);
}

/// One more member finds its place in an ascending sequence.
proof fn lemma_ascending_insert<K: OrderedKey>(q: Seq<K::V>, x: K::V) -> (r: Seq<K::V>)
    requires
        ascending::<K>(q),
        !q.contains(x),
    ensures
        ascending::<K>(r),
        r.to_set() == q.to_set().insert(x),
    decreases q.len(),
{
    if q.len() == 0 {
        let r = seq![x];
        assert(r.to_set() =~= q.to_set().insert(x)) by {
            assert(r[0] == x);
        }
        r
    } else {
        let last = q.last();
        let rest = q.drop_last();
        assert(q =~= rest.push(last));
        assert(q[q.len() - 1] != x);
        K::less_total(last, x);
        rest.lemma_push_to_set_commute(last);
        if K::less(last, x) {
            assert forall|i: int| 0 <= i < q.len() implies K::less(#[trigger] q[i], x) by {
                if i < q.len() - 1 {
                    assert(K::less(q[i], q[q.len() - 1]));
                    K::less_transitive(q[i], last, x);
                }
            }
            q.lemma_push_to_set_commute(x);
            q.push(x)
        } else {
            assert forall|i: int| 0 <= i < rest.len() implies rest[i] != x by {
                assert(q[i] == rest[i]);
            }
            let r = lemma_ascending_insert::<K>(rest, x);
            assert forall|i: int| 0 <= i < r.len() implies K::less(#[trigger] r[i], last) by {
                assert(r.to_set().contains(r[i]));
                if r[i] != x {
                    assert(rest.to_set().contains(r[i]));
                    let j = choose|j: int| 0 <= j < rest.len() && rest[j] == r[i];
                    assert(K::less(q[j], q[q.len() - 1]));
                }
            }
            r.lemma_push_to_set_commute(last);
            assert(r.push(last).to_set() =~= q.to_set().insert(x));
            r.push(last)
        }
    }
}

/// Every finite set has an ascending walk.
pub proof fn lemma_ascending_walk<K: OrderedKey>(s: Set<K::V>)
    requires
        s.finite(),
    ensures
        ascending::<K>(ascending_keys::<K>(s)),
        ascending_keys::<K>(s).to_set() == s,
        ascending_keys::<K>(s).len() == s.len(),
        ascending_keys::<K>(s).no_duplicates(),
    decreases s.len(),
{
    if s.len() == 0 {
        let q = Seq::<K::V>::empty();
        assert(q.to_set() =~= s);
        lemma_ascending_keys::<K>(q);
        lemma_ascending_no_duplicates::<K>(q);
    } else {
        let x = s.choose();
        lemma_ascending_walk::<K>(s.remove(x));
        let q = ascending_keys::<K>(s.remove(x));
        assert(!q.contains(x)) by {
            if q.contains(x) {
                assert(q.to_set().contains(x));
            }
        }
        let r = lemma_ascending_insert::<K>(q, x);
        assert(r.to_set() =~= s);
        lemma_ascending_keys::<K>(r);
        lemma_ascending_no_duplicates::<K>(r);
    }
}

/// What the elements of a vector show.
pub open spec fn views<T: View>(s: Seq<T>) -> Seq<T::V> {
    Seq::new(s.len(), |i: int| s[i]@)
}

/// A map from `K` to `V`, walked in ascending key order.
#[derive(Debug)]
pub struct OrderedMap<K: OrderedKey, V: View> {
    names: Vec<K>,
    values: Vec<V>,
}

impl<K: OrderedKey, V: View> View for OrderedMap<K, V> {
    type V = Map<K::V, V::V>;

    closed spec fn view(&self) -> Map<K::V, V::V> {
        let names = views(self.names@);
        Map::new(
            |k: K::V| names.contains(k),
            |k: K::V| self.values@[names.index_of(k)]@,
        )
    }
}

impl<K: OrderedKey, V: View> OrderedMap<K, V> {
    #[verifier::type_invariant]
    closed spec fn sorted(&self) -> bool {
        &&& ascending::<K>(views(self.names@))
        &&& self.names@.len() == self.values@.len()
    }

    /// The keys in ascending order.
    pub open spec fn keys(&self) -> Seq<K::V> {
        ascending_keys::<K>(self@.dom())
    }

    proof fn lemma_names(&self)
        requires
            self.sorted(),
        ensures
            self.keys() == views(self.names@),
            self.keys().to_set() == self@.dom(),
            self.keys().len() == self.names@.len(),
            self.keys().no_duplicates(),
            self@.dom().finite(),
            self@.dom().len() == self.keys().len(),
            forall|i: int|
                0 <= i < self.names@.len() ==> {
                    &&& self@.dom().contains(#[trigger] self.names@[i]@)
                    &&& self@[self.names@[i]@] == self.values@[i]@
                },
    {
        let names = views(self.names@);
        assert(names.to_set() =~= self@.dom());
        lemma_ascending_keys::<K>(names);
        lemma_ascending_no_duplicates::<K>(names);
        assert forall|i: int| 0 <= i < self.names@.len() implies {
            &&& self@.dom().contains(#[trigger] self.names@[i]@)
            &&& self@[self.names@[i]@] == self.values@[i]@
        } by {
            assert(names[i] == self.names@[i]@);
            assert(names.contains(names[i]));
            assert(names[names.index_of(names[i])] == names[i]);
        }
    }

    /// The empty map.
    pub fn new() -> (r: Self)
        ensures
            r@ == Map::<K::V, V::V>::empty(),
    {
        let r = OrderedMap { names: Vec::new(), values: Vec::new() };
        assert(r@ =~= Map::<K::V, V::V>::empty());
        r
    }

    /// The number of entries.
    pub fn len(&self) -> (r: usize)
        ensures
            r == self@.len(),
            r == self.keys().len(),
            self@.dom().finite(),
            self.keys().to_set() == self@.dom(),
            self.keys().no_duplicates(),
            ascending::<K>(self.keys()),
    {
        proof {
            use_type_invariant(self);
            self.lemma_names();
        }
        self.names.len()
    }

    /// Whether the map has no entries.
    pub fn is_empty(&self) -> (r: bool)
        ensures
            r == (self@.len() == 0),
            r == self@.is_empty(),
            self@.dom().finite(),
    {
        let n: usize = self.len();
        proof {
            if n == 0 {
                assert(self@.dom() =~= Set::empty());
            }
        }
        n == 0
    }

    /// The first position whose key is not before `key`.
    fn lower_bound(&self, key: &K) -> (r: usize)
        ensures
            r <= self.names@.len(),
            forall|i: int| 0 <= i < r ==> K::less(#[trigger] self.names@[i]@, key@),
            forall|i: int|
                r <= i < self.names@.len() ==> !K::less(#[trigger] self.names@[i]@, key@),
    {
        let mut low: usize = 0;
        let mut high: usize = self.names.len();
        proof {
            use_type_invariant(self);
        }
        while low < high
            invariant
                low <= high <= self.names@.len(),
                ascending::<K>(views(self.names@)),
                forall|i: int| 0 <= i < low ==> K::less(#[trigger] self.names@[i]@, key@),
                forall|i: int|
                    high <= i < self.names@.len() ==> !K::less(#[trigger] self.names@[i]@, key@),
            decreases high - low,
        {
            let middle: usize = low + (high - low) / 2;
            let ghost names = views(self.names@);
            if self.names[middle].before(key) {
                assert forall|i: int| 0 <= i < middle + 1 implies K::less(
                    #[trigger] self.names@[i]@,
                    key@,
                ) by {
                    if i < middle {
                        assert(K::less(names[i], names[middle as int]));
                        K::less_transitive(names[i], names[middle as int], key@);
                    }
                }
                low = middle + 1;
            } else {
                assert forall|i: int| middle <= i < self.names@.len() implies !K::less(
                    #[trigger] self.names@[i]@,
                    key@,
                ) by {
                    if middle < i && K::less(self.names@[i]@, key@) {
                        assert(K::less(names[middle as int], names[i]));
                        K::less_transitive(names[middle as int], names[i], key@);
                    }
                }
                high = middle;
            }
        }
        low
    }

    /// Where `key` stands, if it is there.
    fn position(&self, key: &K) -> (r: Option<usize>)
        ensures
            match r {
                Some(i) => {
                    &&& i < self.names@.len()
                    &&& self.names@[i as int]@ == key@
                    &&& views(self.names@).index_of(key@) == i
                    &&& self@.dom().contains(key@)
                    &&& self@[key@] == self.values@[i as int]@
                },
                None => !self@.dom().contains(key@) && !views(self.names@).contains(key@),
            },
    {
        proof {
            use_type_invariant(self);
            self.lemma_names();
        }
        let at: usize = self.lower_bound(key);
        let ghost names = views(self.names@);
        if at < self.names.len() && self.names[at].same(key) {
            proof {
                let found = names.index_of(key@);
                assert(names[at as int] == key@);
                assert(names.contains(key@));
                assert(names[found] == key@);
            }
            Some(at)
        } else {
            proof {
                if names.contains(key@) {
                    let i = choose|i: int| 0 <= i < names.len() && names[i] == key@;
                    assert(self.names@[i]@ == key@);
                    K::less_irreflexive(key@);
                    assert(at < i);
                    assert(K::less(names[at as int], names[i]));
                }
            }
            None
        }
    }

    /// Whether `key` has an entry.
    pub fn contains_key(&self, key: &K) -> (r: bool)
        ensures
            r == self@.dom().contains(key@),
    {
        self.position(key).is_some()
    }

    /// The value at `key`.
    pub fn get(&self, key: &K) -> (r: Option<&V>)
        ensures
            match r {
                Some(v) => self@.dom().contains(key@) && v@ == self@[key@],
                None => !self@.dom().contains(key@),
            },
    {
        proof {
            use_type_invariant(self);
        }
        match self.position(key) {
            Some(at) => Some(&self.values[at]),
            None => None,
        }
    }

    /// Mutable access to the value at `key`.
    pub fn get_mut(&mut self, key: &K) -> (r: Option<&mut V>)
        ensures
            match r {
                Some(v) => {
                    &&& old(self)@.dom().contains(key@)
                    &&& v@ == old(self)@[key@]
                    &&& final(self)@ =~= old(self)@.insert(key@, final(v)@)
                },
                None => !old(self)@.dom().contains(key@) && *final(self) == *old(self),
            },
    {
        proof {
            use_type_invariant(&*self);
        }
        match self.position(key) {
            Some(at) => {
                let ghost names = views(self.names@);
                assert forall|k: K::V| #[trigger] names.contains(k) && k != key@ implies
                    names.index_of(k) != at by {
                    assert(names[names.index_of(k)] == k);
                }
                Some(&mut self.values[at])
            },
            None => None,
        }
    }

    /// The key at position `i` of the ascending walk.
    pub fn key_at(&self, i: usize) -> (r: &K)
        requires
            i < self@.len(),
        ensures
            r@ == self.keys()[i as int],
            self@.dom().contains(r@),
    {
        proof {
            use_type_invariant(self);
            self.lemma_names();
        }
        &self.names[i]
    }

    /// The value at position `i` of the ascending walk.
    pub fn value_at(&self, i: usize) -> (r: &V)
        requires
            i < self@.len(),
        ensures
            r@ == self@[self.keys()[i as int]],
            self@.dom().contains(self.keys()[i as int]),
    {
        proof {
            use_type_invariant(self);
            self.lemma_names();
            assert(self.names@[i as int]@ == self.keys()[i as int]);
        }
        &self.values[i]
    }

    /// Mutable access to the value at position `i` of the ascending walk.
    pub fn value_at_mut(&mut self, i: usize) -> (r: &mut V)
        requires
            i < old(self)@.len(),
        ensures
            r@ == old(self)@[old(self).keys()[i as int]],
            final(self)@ =~= old(self)@.insert(old(self).keys()[i as int], final(r)@),
            old(self)@.dom().contains(old(self).keys()[i as int]),
    {
        proof {
            use_type_invariant(&*self);
            self.lemma_names();
            let names = views(self.names@);
            assert(self.names@[i as int]@ == names[i as int]);
            assert forall|k: K::V| #[trigger] names.contains(k) && k != names[i as int] implies
                names.index_of(k) != i by {
                assert(names[names.index_of(k)] == k);
            }
            assert(names.contains(names[i as int]));
            assert(names[names.index_of(names[i as int])] == names[i as int]);
        }
        &mut self.values[i]
    }

    /// Puts `value` at `key`, in place of what was there.
    pub fn insert(&mut self, key: K, value: V)
        ensures
            final(self)@ == old(self)@.insert(key@, value@),
    {
        proof {
            use_type_invariant(&*self);
            self.lemma_names();
        }
        let ghost before = self@;
        let ghost old_names = views(self.names@);
        let at: usize = self.lower_bound(&key);
        if at < self.names.len() && self.names[at].same(&key) {
            proof {
                assert(old_names[at as int] == key@);
                assert(old_names.contains(key@));
                assert forall|k: K::V| #[trigger] old_names.contains(k) && k != key@ implies
                    old_names.index_of(k) != at by {
                    assert(old_names[old_names.index_of(k)] == k);
                }
                assert(old_names[old_names.index_of(key@)] == key@);
            }
            self.values[at] = value;
            assert(views(self.names@) =~= old_names);
            assert(self@ =~= before.insert(key@, value@));
        } else {
            let mut whole: Self = OrderedMap::new();
            std::mem::swap(&mut whole, self);
            let mut names = whole.names;
            let mut values = whole.values;
            let ghost v0 = values@;
            let ghost k0 = key@;
            let ghost value0 = value@;
            let ghost n0 = names@;
            names.insert(at, key);
            values.insert(at, value);
            proof {
                let q = views(names@);
                assert(q =~= old_names.insert(at as int, k0));
                assert forall|i: int, j: int| 0 <= i < j < q.len() implies K::less(
                    #[trigger] q[i],
                    #[trigger] q[j],
                ) by {
                    if i == at {
                        assert(q[j] == n0[j - 1]@);
                        assert(!K::less(n0[j - 1]@, k0));
                        K::less_total(n0[j - 1]@, k0);
                        if n0[j - 1]@ == k0 {
                            if j - 1 != at {
                                assert(K::less(old_names[at as int], old_names[j - 1]));
                                assert(!K::less(n0[at as int]@, k0));
                            }
                        }
                    } else if j == at {
                        assert(q[i] == n0[i]@);
                    } else {
                        let x = if i < at { i } else { i - 1 };
                        let y = if j < at { j } else { j - 1 };
                        assert(q[i] == old_names[x]);
                        assert(q[j] == old_names[y]);
                    }
                }
            }
            let ghost n1 = names@;
            let ghost v1 = values@;
            *self = OrderedMap { names, values };
            proof {
                self.lemma_names();
                let q = views(n1);
                assert(self.names@ == n1 && self.values@ == v1);
                assert(n1[at as int]@ == k0);
                assert forall|k: K::V| self@.dom().contains(k) == before.insert(
                    k0,
                    value0,
                ).dom().contains(k) by {
                    if old_names.contains(k) {
                        let i = choose|i: int| 0 <= i < old_names.len() && old_names[i] == k;
                        let x = if i < at { i } else { i + 1 };
                        assert(q[x] == k);
                    }
                    if q.contains(k) && k != k0 {
                        let x = choose|x: int| 0 <= x < q.len() && q[x] == k;
                        let i = if x < at { x } else { x - 1 };
                        assert(old_names[i] == k);
                    }
                    assert(q[at as int] == k0);
                }
                assert forall|k: K::V| self@.dom().contains(k) implies self@[k] == before.insert(
                    k0,
                    value0,
                )[k] by {
                    let x = choose|x: int| 0 <= x < q.len() && q[x] == k;
                    assert(self.names@[x]@ == k);
                    if x != at {
                        let i = if x < at { x } else { x - 1 };
                        assert(old_names[i] == k);
                        assert(n0[i]@ == k);
                        assert(self.values@[x] == v0[i]);
                        assert(q.no_duplicates());
                        assert(q[x] != q[at as int]);
                    }
                }
                assert(self@ =~= before.insert(k0, value0));
            }
        }
    }

    /// Takes the entry at `key` out and hands back its value.
    pub fn remove(&mut self, key: &K) -> (r: Option<V>)
        ensures
            final(self)@ == old(self)@.remove(key@),
            match r {
                Some(v) => old(self)@.dom().contains(key@) && v@ == old(self)@[key@],
                None => !old(self)@.dom().contains(key@),
            },
    {
        proof {
            use_type_invariant(&*self);
            self.lemma_names();
        }
        let ghost before = self@;
        match self.position(key) {
            None => {
                assert(before.remove(key@) =~= before);
                None
            },
            Some(at) => {
                let ghost old_names = views(self.names@);
                let ghost n0 = self.names@;
                let ghost v0 = self.values@;
                let mut whole: Self = OrderedMap::new();
                std::mem::swap(&mut whole, self);
                let mut names = whole.names;
                let mut values = whole.values;
                let _ = names.remove(at);
                let value = values.remove(at);
                proof {
                    let q = views(names@);
                    assert forall|i: int, j: int| 0 <= i < j < q.len() implies K::less(
                        #[trigger] q[i],
                        #[trigger] q[j],
                    ) by {
                        let x = if i < at { i } else { i + 1 };
                        let y = if j < at { j } else { j + 1 };
                        assert(q[i] == old_names[x]);
                        assert(q[j] == old_names[y]);
                    }
                }
                let ghost n1 = names@;
                let ghost v1 = values@;
                *self = OrderedMap { names, values };
                proof {
                    self.lemma_names();
                    let q = views(n1);
                    assert forall|k: K::V| self@.dom().contains(k) == before.remove(
                        key@,
                    ).dom().contains(k) by {
                        if old_names.contains(k) && k != key@ {
                            let i = choose|i: int| 0 <= i < old_names.len() && old_names[i] == k;
                            let x = if i < at { i } else { i - 1 };
                            assert(old_names[at as int] == key@);
                            assert(q[x] == k);
                        }
                        if q.contains(k) {
                            let x = choose|x: int| 0 <= x < q.len() && q[x] == k;
                            let i = if x < at { x } else { x + 1 };
                            assert(old_names[i] == k);
                            assert(old_names[at as int] == key@);
                        }
                    }
                    assert forall|k: K::V| self@.dom().contains(k) implies self@[k]
                        == before.remove(key@)[k] by {
                        let x = choose|x: int| 0 <= x < q.len() && q[x] == k;
                        let i = if x < at { x } else { x + 1 };
                        assert(self.names@[x]@ == k);
                        assert(n0[i]@ == k);
                        assert(self.values@[x] == v0[i]);
                    }
                    assert(self@ =~= before.remove(key@));
                }
                Some(value)
            },
        }
    }

    /// Takes the entries of all `gone` out.
    pub fn remove_all(&mut self, gone: &Vec<K>)
        ensures
            final(self)@ == old(self)@.remove_keys(views(gone@).to_set()),
    {
        let ghost before = self@;
        let ghost names = views(gone@);
        let mut i: usize = 0;
        assert(names.take(0).to_set() =~= Set::empty());
        assert(before.remove_keys(names.take(0).to_set()) =~= before);
        while i < gone.len()
            invariant
                i <= gone@.len(),
                names == views(gone@),
                self@ == before.remove_keys(names.take(i as int).to_set()),
            decreases gone@.len() - i,
        {
            proof {
                let done = names.take(i as int);
                assert(names.take(i + 1) =~= done.push(names[i as int]));
                done.lemma_push_to_set_commute(names[i as int]);
                assert(before.remove_keys(names.take(i + 1).to_set()) =~= before.remove_keys(
                    done.to_set(),
                ).remove(names[i as int]));
            }
            let _ = self.remove(&gone[i]);
            i = i + 1;
        }
        assert(names.take(i as int) =~= names);
    }

    /// The keys, in ascending order.
    pub fn into_keys(self) -> (r: Vec<K>)
        ensures
            views(r@) == self.keys(),
    {
        proof {
            use_type_invariant(&self);
            self.lemma_names();
        }
        self.names
    }

    /// The keys, in ascending order, and this map left as it is.
    pub fn key_list(&self) -> (r: Vec<K>)
        ensures
            views(r@) == self.keys(),
    {
        let n: usize = self.len();
        let mut r: Vec<K> = Vec::new();
        let mut i: usize = 0;
        while i < n
            invariant
                i <= n,
                n == self@.len(),
                n == self.keys().len(),
                r@.len() == i,
                forall|j: int| 0 <= j < i ==> (#[trigger] r@[j])@ == self.keys()[j],
            decreases n - i,
        {
            r.push(self.key_at(i).duplicate());
            i = i + 1;
        }
        assert(views(r@) =~= self.keys());
        r
    }

    /// The values, in ascending key order.
    pub fn into_values(self) -> (r: Vec<V>)
        ensures
            r@.len() == self.keys().len(),
            forall|i: int| 0 <= i < r@.len() ==> (#[trigger] r@[i])@ == self@[self.keys()[i]],
    {
        proof {
            use_type_invariant(&self);
            self.lemma_names();
            assert forall|i: int| 0 <= i < self.values@.len() implies (#[trigger]
            self.values@[i])@ == self@[self.keys()[i]] by {
                assert(self.names@[i]@ == self.keys()[i]);
            }
        }
        self.values
    }

    /// Takes every entry out.
    pub fn clear(&mut self)
        ensures
            final(self)@ == Map::<K::V, V::V>::empty(),
    {
        *self = OrderedMap::new();
    }
}

/// `keys` sorted, each of them once.
pub open spec fn sorted_distinct(keys: Seq<Seq<char>>) -> Seq<Seq<char>> {
    ascending_keys::<String>(keys.to_set())
}

/// Sorting keeps the members, each of them once.
pub proof fn lemma_sorted_distinct(keys: Seq<Seq<char>>)
    ensures
        ascending::<String>(sorted_distinct(keys)),
        sorted_distinct(keys).no_duplicates(),
        sorted_distinct(keys).to_set() == keys.to_set(),
        sorted_distinct(keys).len() <= keys.len(),
        keys.len() > 0 ==> sorted_distinct(keys).len() > 0,
{
    vstd::seq_lib::seq_to_set_is_finite(keys);
    lemma_ascending_walk::<String>(keys.to_set());
    keys.lemma_cardinality_of_set();
    if keys.len() > 0 {
        assert(keys.to_set().contains(keys[0]));
        let sorted = sorted_distinct(keys);
        assert(sorted.to_set().contains(keys[0]));
    }
}

/// Sorts `keys` and drops repetitions.
pub fn sort_distinct(keys: &Vec<String>) -> (r: Vec<String>)
    ensures
        views(r@) == sorted_distinct(views(keys@)),
        ascending::<String>(views(r@)),
        views(r@).to_set() == views(keys@).to_set(),
        r@.len() <= keys@.len(),
        keys@.len() > 0 ==> r@.len() > 0,
{
    let mut seen: OrderedMap<String, bool> = OrderedMap::new();
    let mut i: usize = 0;
    let ghost all = views(keys@);
    assert(all.take(0).to_set() =~= Set::<Seq<char>>::empty());
    while i < keys.len()
        invariant
            i <= keys@.len(),
            all == views(keys@),
            seen@.dom() == all.take(i as int).to_set(),
            seen@.dom().finite(),
            seen@.dom().len() <= i,
            i > 0 ==> seen@.dom().len() > 0,
        decreases keys@.len() - i,
    {
        let key = keys[i].clone();
        proof {
            let before = all.take(i as int);
            assert(all.take(i + 1) =~= before.push(key@));
            before.lemma_push_to_set_commute(key@);
        }
        seen.insert(key, true);
        i = i + 1;
    }
    assert(all.take(i as int) =~= all);
    let _ = seen.len();
    seen.into_keys()
}

impl Clone for OrderedMap<String, u64> {
    fn clone(&self) -> (r: Self)
        ensures
            r@ == self@,
    {
        proof {
            use_type_invariant(self);
        }
        let names = self.names.clone();
        let values = self.values.clone();
        proof {
            assert(names@ =~= self.names@);
            assert(values@ =~= self.values@);
        }
        OrderedMap { names, values }
    }
}

} // verus!
