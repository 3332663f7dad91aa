//! Per-key FIFO queue of pending lock requests.
//!
//! Each key is unique within the queue: pushing a key that is already queued
//! changes nothing. A queued request can be taken out from anywhere in the
//! queue when its client times out or disconnects.

use crate::ordered_map;
use crate::ordered_map::OrderedKey;
use std::collections::VecDeque;
use vstd::prelude::*;

verus! {

/// FIFO queue keyed by `K`, head first.
#[derive(Debug)]
pub struct LinkedQueue<K: OrderedKey, V: View> {
    entries: VecDeque<(K, V)>,
}

/// Whether `key` is queued.
pub open spec fn queued<A, B>(s: Seq<(A, B)>, key: A) -> bool {
    exists|i: int| 0 <= i < s.len() && (#[trigger] s[i]).0 == key
}

/// No key is queued twice.
pub open spec fn unique_keys<A, B>(s: Seq<(A, B)>) -> bool {
    forall|i: int, j: int|
        0 <= i < s.len() && 0 <= j < s.len() && i != j ==> (#[trigger] s[i]).0 != (
        #[trigger] s[j]).0
}

/// The value queued under `key`.
pub open spec fn queued_value<A, B>(s: Seq<(A, B)>, key: A) -> B {
    s[choose|i: int| 0 <= i < s.len() && (#[trigger] s[i]).0 == key].1
}

/// The queue without `key`; everyone else keeps their place.
pub open spec fn without<A, B>(s: Seq<(A, B)>, key: A) -> Seq<(A, B)> {
    s.filter(|e: (A, B)| e.0 != key)
}

/// Membership after a push.
pub proof fn lemma_contains_push<A>(s: Seq<A>, x: A, y: A)
    ensures
        s.push(x).contains(y) <==> s.contains(y) || x == y,
{
    if s.contains(y) {
        let i = choose|i: int| 0 <= i < s.len() && s[i] == y;
        assert(s.push(x)[i] == y);
    }
    if x == y {
        assert(s.push(x)[s.len() as int] == y);
    }
}

/// A filter adds nothing.
pub proof fn lemma_filter_from<A>(s: Seq<A>, p: spec_fn(A) -> bool, x: A)
    requires
        s.filter(p).contains(x),
    ensures
        s.contains(x),
        p(x),
    decreases s.len(),
{
    reveal(Seq::filter);
    if s.len() > 0 {
        let rest = s.drop_last();
        assert(s =~= rest.push(s.last()));
        lemma_contains_push(rest, s.last(), x);
        if p(s.last()) {
            lemma_contains_push(rest.filter(p), s.last(), x);
        }
        if rest.filter(p).contains(x) {
            lemma_filter_from(rest, p, x);
        }
    }
}

/// A filter that nothing fails keeps the sequence.
pub proof fn lemma_filter_keeps_all<A>(s: Seq<A>, p: spec_fn(A) -> bool)
    requires
        forall|i: int| 0 <= i < s.len() ==> p(#[trigger] s[i]),
    ensures
        s.filter(p) == s,
    decreases s.len(),
{
    reveal(Seq::filter);
    if s.len() > 0 {
        lemma_filter_keeps_all(s.drop_last(), p);
        assert(s =~= s.drop_last().push(s.last()));
    }
}

/// Two filters in a row are one.
pub proof fn lemma_filter_twice<A>(
    s: Seq<A>,
    p: spec_fn(A) -> bool,
    q: spec_fn(A) -> bool,
    both: spec_fn(A) -> bool,
)
    requires
        forall|x: A| #[trigger] both(x) <==> p(x) && q(x),
    ensures
        s.filter(p).filter(q) == s.filter(both),
    decreases s.len(),
{
    reveal(Seq::filter);
    if s.len() > 0 {
        let rest = s.drop_last();
        lemma_filter_twice(rest, p, q, both);
        assert(both(s.last()) <==> p(s.last()) && q(s.last()));
        if p(s.last()) {
            assert(rest.filter(p).push(s.last()).drop_last() =~= rest.filter(p));
        }
    }
}

/// Filters that agree on the elements give the same.
pub proof fn lemma_filter_same<A>(s: Seq<A>, p: spec_fn(A) -> bool, q: spec_fn(A) -> bool)
    requires
        forall|i: int| 0 <= i < s.len() ==> p(#[trigger] s[i]) == q(s[i]),
    ensures
        s.filter(p) == s.filter(q),
    decreases s.len(),
{
    reveal(Seq::filter);
    if s.len() > 0 {
        let rest = s.drop_last();
        assert forall|i: int| 0 <= i < rest.len() implies p(#[trigger] rest[i]) == q(rest[i]) by {
            assert(rest[i] == s[i]);
        }
        lemma_filter_same(rest, p, q);
    }
}

/// `without` is a filter by key.
pub proof fn lemma_without_filter<A, B>(s: Seq<(A, B)>, key: A, q: spec_fn((A, B)) -> bool)
    requires
        forall|e: (A, B)| #[trigger] q(e) <==> e.0 != key,
    ensures
        without(s, key) == s.filter(q),
{
    lemma_filter_same(s, |e: (A, B)| e.0 != key, q);
}

/// Taking the one entry of `key` out by its position.
pub proof fn lemma_without_at<A, B>(s: Seq<(A, B)>, at: int)
    requires
        unique_keys(s),
        0 <= at < s.len(),
    ensures
        without(s, s[at].0) == s.remove(at),
{
    let key = s[at].0;
    let p = |e: (A, B)| e.0 != key;
    let head = s.take(at);
    let tail = s.skip(at + 1);
    assert(s =~= head + (seq![s[at]] + tail));
    Seq::filter_distributes_over_add(head, seq![s[at]] + tail, p);
    Seq::filter_distributes_over_add(seq![s[at]], tail, p);
    assert forall|i: int| 0 <= i < head.len() implies p(#[trigger] head[i]) by {
        assert(s[i].0 != s[at].0);
    }
    assert forall|i: int| 0 <= i < tail.len() implies p(#[trigger] tail[i]) by {
        assert(s[i + at + 1].0 != s[at].0);
    }
    lemma_filter_keeps_all(head, p);
    lemma_filter_keeps_all(tail, p);
    assert(seq![s[at]].filter(p) =~= Seq::empty()) by {
        reveal(Seq::filter);
        assert(seq![s[at]].drop_last() =~= Seq::empty());
        assert(!p(s[at]));
        assert(Seq::<(A, B)>::empty().filter(p) =~= Seq::empty());
    }
    assert(s.remove(at) =~= head + tail);
}

/// Taking a key out that is not queued changes nothing.
pub proof fn lemma_without_absent<A, B>(s: Seq<(A, B)>, key: A)
    requires
        !queued(s, key),
    ensures
        without(s, key) == s,
{
    lemma_filter_keeps_all(s, |e: (A, B)| e.0 != key);
}

spec fn shown<K: OrderedKey, V: View>(s: Seq<(K, V)>) -> Seq<(K::V, V::V)> {
    Seq::new(s.len(), |i: int| (s[i].0@, s[i].1@))
}

impl<K: OrderedKey, V: View> View for LinkedQueue<K, V> {
    type V = Seq<(K::V, V::V)>;

    closed spec fn view(&self) -> Seq<(K::V, V::V)> {
        shown(self.entries@)
    }
}

impl<K: OrderedKey, V: View> LinkedQueue<K, V> {
    #[verifier::type_invariant]
    closed spec fn distinct(&self) -> bool {
        unique_keys(self@)
    }

    /// The empty queue.
    pub fn new() -> (r: Self)
        ensures
            r@ == Seq::<(K::V, V::V)>::empty(),
    {
        let r = LinkedQueue { entries: VecDeque::new() };
        assert(r@ =~= Seq::<(K::V, V::V)>::empty());
        r
    }

    /// How many requests are queued.
    pub fn len(&self) -> (r: usize)
        ensures
            r == self@.len(),
            unique_keys(self@),
    {
        proof {
            use_type_invariant(self);
        }
        self.entries.len()
    }

    /// Whether nothing is queued.
    pub fn is_empty(&self) -> (r: bool)
        ensures
            r == (self@.len() == 0),
    {
        self.entries.len() == 0
    }

    fn position(&self, key: &K) -> (r: Option<usize>)
        ensures
            match r {
                Some(i) => i < self@.len() && self@[i as int].0 == key@,
                None => !queued(self@, key@),
            },
    {
        let mut i: usize = 0;
        while i < self.entries.len()
            invariant
                i <= self@.len(),
                self@.len() == self.entries@.len(),
                forall|j: int| 0 <= j < i ==> (#[trigger] self@[j]).0 != key@,
            decreases self.entries@.len() - i,
        {
            if self.entries[i].0.same(key) {
                return Some(i);
            }
            i = i + 1;
        }
        None
    }

    /// Whether `key` is queued.
    pub fn contains(&self, key: &K) -> (r: bool)
        ensures
            r == queued(self@, key@),
    {
        match self.position(key) {
            Some(at) => {
                assert(self@[at as int].0 == key@);
                true
            },
            None => false,
        }
    }

    /// The value queued under `key`.
    pub fn get(&self, key: &K) -> (r: Option<&V>)
        ensures
            match r {
                Some(v) => queued(self@, key@) && v@ == queued_value(self@, key@),
                None => !queued(self@, key@),
            },
    {
        proof {
            use_type_invariant(self);
        }
        match self.position(key) {
            Some(at) => {
                proof {
                    let i = choose|i: int| 0 <= i < self@.len() && (#[trigger] self@[i]).0 == key@;
                    assert(self@[at as int].0 == key@);
                    assert(i == at);
                }
                Some(&self.entries[at].1)
            },
            None => None,
        }
    }

    /// Appends at the tail. Refused, with `false`, if `key` is queued already.
    pub fn push_back(&mut self, key: K, value: V) -> (r: bool)
        ensures
            r == !queued(old(self)@, key@),
            final(self)@ == if queued(old(self)@, key@) {
                old(self)@
            } else {
                old(self)@.push((key@, value@))
            },
    {
        proof {
            use_type_invariant(&*self);
        }
        if self.contains(&key) {
            return false;
        }
        let ghost before = self@;
        let ghost added = (key@, value@);
        let mut whole: Self = LinkedQueue::new();
        std::mem::swap(&mut whole, self);
        let mut entries = whole.entries;
        entries.push_back((key, value));
        assert(shown(entries@) =~= before.push(added));
        *self = LinkedQueue { entries };
        true
    }

    /// Pushes at the head, ahead of everyone who is waiting. Refused, with
    /// `false`, if `key` is queued already.
    pub fn push_front(&mut self, key: K, value: V) -> (r: bool)
        ensures
            r == !queued(old(self)@, key@),
            final(self)@ == if queued(old(self)@, key@) {
                old(self)@
            } else {
                seq![(key@, value@)] + old(self)@
            },
    {
        proof {
            use_type_invariant(&*self);
        }
        if self.contains(&key) {
            return false;
        }
        let ghost before = self@;
        let ghost added = (key@, value@);
        let mut whole: Self = LinkedQueue::new();
        std::mem::swap(&mut whole, self);
        let mut entries = whole.entries;
        entries.push_front((key, value));
        assert(shown(entries@) =~= seq![added] + before);
        assert(unique_keys(seq![added] + before)) by {
            let all = seq![added] + before;
            assert forall|i: int, j: int|
                0 <= i < all.len() && 0 <= j < all.len() && i != j implies (#[trigger] all[i]).0
                != (#[trigger] all[j]).0 by {
                if i > 0 {
                    assert(all[i] == before[i - 1]);
                }
                if j > 0 {
                    assert(all[j] == before[j - 1]);
                }
            }
        }
        *self = LinkedQueue { entries };
        true
    }

    /// Takes the head out.
    pub fn pop_front(&mut self) -> (r: Option<(K, V)>)
        ensures
            match r {
                Some(e) => {
                    &&& old(self)@.len() > 0
                    &&& (e.0@, e.1@) == old(self)@[0]
                    &&& final(self)@ == old(self)@.drop_first()
                },
                None => old(self)@.len() == 0 && final(self)@ == old(self)@,
            },
    {
        proof {
            use_type_invariant(&*self);
        }
        let ghost before = self@;
        let mut whole: Self = LinkedQueue::new();
        std::mem::swap(&mut whole, self);
        let mut entries = whole.entries;
        let taken = entries.pop_front();
        proof {
            if taken is Some {
                assert(shown(entries@) =~= before.drop_first());
            } else {
                assert(shown(entries@) =~= before);
            }
        }
        *self = LinkedQueue { entries };
        taken
    }

    /// The head, left in place.
    pub fn front(&self) -> (r: Option<(&K, &V)>)
        ensures
            match r {
                Some(e) => self@.len() > 0 && (e.0@, e.1@) == self@[0],
                None => self@.len() == 0,
            },
    {
        if self.entries.len() == 0 {
            None
        } else {
            let head = &self.entries[0];
            Some((&head.0, &head.1))
        }
    }

    /// Takes the request of `key` out, wherever it stands.
    pub fn remove(&mut self, key: &K) -> (r: Option<V>)
        ensures
            final(self)@ == without(old(self)@, key@),
            match r {
                Some(v) => queued(old(self)@, key@) && v@ == queued_value(old(self)@, key@),
                None => !queued(old(self)@, key@),
            },
    {
        proof {
            use_type_invariant(&*self);
        }
        let ghost before = self@;
        match self.position(key) {
            None => {
                proof {
                    lemma_without_absent(before, key@);
                }
                None
            },
            Some(at) => {
                proof {
                    let i = choose|i: int| 0 <= i < before.len() && (#[trigger] before[i]).0 == key@;
                    assert(before[at as int].0 == key@);
                    assert(i == at);
                    lemma_without_at(before, at as int);
                }
                let mut whole: Self = LinkedQueue::new();
                std::mem::swap(&mut whole, self);
                let mut entries = whole.entries;
                let taken = entries.remove(at);
                assert(shown(entries@) =~= before.remove(at as int));
                *self = LinkedQueue { entries };
                match taken {
                    Some(e) => Some(e.1),
                    None => None,
                }
            },
        }
    }

    /// Takes the requests of all `gone` out.
    pub fn remove_all(&mut self, gone: &Vec<K>)
        ensures
            final(self)@ == old(self)@.filter(
                |e: (K::V, V::V)| !ordered_map::views(gone@).contains(e.0),
            ),
    {
        let ghost before = self@;
        let ghost names = ordered_map::views(gone@);
        let mut i: usize = 0;
        proof {
            lemma_filter_keeps_all(before, |e: (K::V, V::V)| !names.take(0).contains(e.0));
        }
        while i < gone.len()
            invariant
                i <= gone@.len(),
                names == ordered_map::views(gone@),
                self@ == before.filter(|e: (K::V, V::V)| !names.take(i as int).contains(e.0)),
            decreases gone@.len() - i,
        {
            proof {
                let done = names.take(i as int);
                let next = names.take(i + 1);
                let key = names[i as int];
                assert(next =~= done.push(key));
                let p = |e: (K::V, V::V)| !done.contains(e.0);
                let q = |e: (K::V, V::V)| e.0 != key;
                let r = |e: (K::V, V::V)| !next.contains(e.0);
                assert forall|e: (K::V, V::V)| #[trigger] r(e) <==> p(e) && q(e) by {
                    lemma_contains_push(done, key, e.0);
                }
                lemma_filter_twice(before, p, q, r);
                lemma_without_filter(self@, key, q);
            }
            let _ = self.remove(&gone[i]);
            i = i + 1;
        }
        assert(names.take(i as int) =~= names);
    }

    /// The request at place `i`, the head being place zero.
    pub fn entry_at(&self, i: usize) -> (r: (&K, &V))
        requires
            i < self@.len(),
        ensures
            (r.0@, r.1@) == self@[i as int],
    {
        let e = &self.entries[i];
        (&e.0, &e.1)
    }

    /// Every request, from head to tail.
    pub fn iter(&self) -> (r: Vec<(&K, &V)>)
        ensures
            r@.len() == self@.len(),
            forall|i: int| 0 <= i < r@.len() ==> ((#[trigger] r@[i]).0@, r@[i].1@) == self@[i],
    {
        let mut out: Vec<(&K, &V)> = Vec::new();
        let mut i: usize = 0;
        while i < self.entries.len()
            invariant
                i <= self@.len(),
                self@.len() == self.entries@.len(),
                out@.len() == i,
                forall|j: int| 0 <= j < i ==> ((#[trigger] out@[j]).0@, out@[j].1@) == self@[j],
            decreases self.entries@.len() - i,
        {
            out.push(self.entry_at(i));
            i = i + 1;
        }
        out
    }
}

impl<K: OrderedKey, V: View> Default for LinkedQueue<K, V> {
    fn default() -> (r: Self)
        ensures
            r@ == Seq::<(K::V, V::V)>::empty(),
    {
        LinkedQueue::new()
    }
}

} // verus!
