//! Sums over the values of a finite map.

use vstd::prelude::*;

verus! {

/// The sum of `f` over the values of a finite map.
pub open spec fn map_sum<K, V>(m: Map<K, V>, f: spec_fn(V) -> nat) -> nat
    decreases m.dom().len(),
    when m.dom().finite()
{
    if m.dom().len() == 0 {
        0
    } else {
        let k = m.dom().choose();
        map_sum(m.remove(k), f) + f(m[k])
    }
}

/// Any entry can be counted first.
pub proof fn lemma_sum_remove<K, V>(m: Map<K, V>, f: spec_fn(V) -> nat, k: K)
    requires
        m.dom().finite(),
        m.dom().contains(k),
    ensures
        map_sum(m, f) == map_sum(m.remove(k), f) + f(m[k]),
    decreases m.dom().len(),
{
    let c = m.dom().choose();
    assert(m.dom().contains(c));
    if c != k {
        lemma_sum_remove(m.remove(c), f, k);
        lemma_sum_remove(m.remove(k), f, c);
        assert(m.remove(c).remove(k) =~= m.remove(k).remove(c));
    }
}

/// What one entry adds to the sum.
pub open spec fn entry_weight<K, V>(m: Map<K, V>, f: spec_fn(V) -> nat, k: K) -> nat {
    if m.dom().contains(k) {
        f(m[k])
    } else {
        0
    }
}

/// Replacing one entry changes the sum by the difference of the two values.
pub proof fn lemma_sum_insert<K, V>(m: Map<K, V>, f: spec_fn(V) -> nat, k: K, v: V)
    requires
        m.dom().finite(),
    ensures
        map_sum(m.insert(k, v), f) + entry_weight(m, f, k) == map_sum(m, f) + f(v),
{
    lemma_sum_remove(m.insert(k, v), f, k);
    assert(m.insert(k, v).remove(k) =~= m.remove(k));
    if m.dom().contains(k) {
        lemma_sum_remove(m, f, k);
    } else {
        assert(m.remove(k) =~= m);
    }
}

/// Smaller values, on no more keys, make no larger sum.
pub proof fn lemma_sum_monotone<K, V>(a: Map<K, V>, b: Map<K, V>, f: spec_fn(V) -> nat)
    requires
        a.dom().finite(),
        b.dom().subset_of(a.dom()),
        forall|k: K| #[trigger] b.dom().contains(k) ==> f(b[k]) <= f(a[k]),
    ensures
        map_sum(b, f) <= map_sum(a, f),
    decreases a.dom().len(),
{
    vstd::set_lib::lemma_len_subset(b.dom(), a.dom());
    if a.dom().len() > 0 {
        let k = a.dom().choose();
        lemma_sum_remove(a, f, k);
        if b.dom().contains(k) {
            lemma_sum_remove(b, f, k);
        } else {
            assert(b.remove(k) =~= b);
        }
        lemma_sum_monotone(a.remove(k), b.remove(k), f);
    }
}

} // verus!
