//! Sequences of keyed entries in which no key stands twice: the model behind
//! the balance and stake tables and the image of the durable store.

use vstd::prelude::*;

verus! {

/// Entries in the order in which their keys first came.
pub type Keyed<V> = Seq<(Seq<char>, V)>;

/// No key stands twice.
pub open spec fn distinct_keys<V>(h: Keyed<V>) -> bool {
    forall|i: int, j: int| 0 <= i < j < h.len() ==> h[i].0 != h[j].0
}

/// Whether there is an entry for `k`.
pub open spec fn has_key<V>(h: Keyed<V>, k: Seq<char>) -> bool {
    exists|i: int| 0 <= i < h.len() && #[trigger] h[i].0 == k
}

/// The place of `k`'s entry, where there is one.
pub open spec fn slot_of<V>(h: Keyed<V>, k: Seq<char>) -> int {
    choose|i: int| 0 <= i < h.len() && #[trigger] h[i].0 == k
}

/// What stands for `k`, where it has an entry.
pub open spec fn value_of<V>(h: Keyed<V>, k: Seq<char>) -> V {
    h[slot_of(h, k)].1
}

/// The entries with `k` set to `v`: in place where `k` has an entry, at the
/// end where it has none.
pub open spec fn with_value<V>(h: Keyed<V>, k: Seq<char>, v: V) -> Keyed<V> {
    if has_key(h, k) {
        h.update(slot_of(h, k), (k, v))
    } else {
        h.push((k, v))
    }
}

/// The entries without the one for `k`, the others in their order.
pub open spec fn without<V>(h: Keyed<V>, k: Seq<char>) -> Keyed<V> {
    if has_key(h, k) {
        h.remove(slot_of(h, k))
    } else {
        h
    }
}

/// Where no key stands twice, a key found at `i` has its slot there.
pub proof fn lemma_slot<V>(h: Keyed<V>, k: Seq<char>, i: int)
    requires
        distinct_keys(h),
        0 <= i < h.len(),
        h[i].0 == k,
    ensures
        has_key(h, k),
        slot_of(h, k) == i,
        value_of(h, k) == h[i].1,
{
    let s = slot_of(h, k);
    assert(0 <= s < h.len() && h[s].0 == k);
    if s < i {
        assert(h[s].0 != h[i].0);
    } else if i < s {
        assert(h[i].0 != h[s].0);
    }
}

/// What setting a value does: no key stands twice afterwards, `k` then
/// holds `v`, and every other key has what it had.
pub proof fn lemma_with_value<V>(h: Keyed<V>, k: Seq<char>, v: V)
    requires
        distinct_keys(h),
    ensures
        distinct_keys(with_value(h, k, v)),
        has_key(with_value(h, k, v), k),
        value_of(with_value(h, k, v), k) == v,
        forall|b: Seq<char>| b != k ==> has_key(with_value(h, k, v), b) == has_key(h, b),
        forall|b: Seq<char>|
            b != k && has_key(h, b) ==> value_of(with_value(h, k, v), b) == value_of(h, b),
{
    let w = with_value(h, k, v);
    let s = if has_key(h, k) {
        slot_of(h, k)
    } else {
        h.len() as int
    };
    assert(w[s].0 == k);
    assert(distinct_keys(w)) by {
        assert forall|i: int, j: int| 0 <= i < j < w.len() implies w[i].0 != w[j].0 by {
            if j < h.len() {
                assert(h[i].0 != h[j].0);
            } else {
                assert(h[i].0 != k);
            }
        }
    }
    lemma_slot(w, k, s);
    assert forall|b: Seq<char>| b != k implies has_key(w, b) == has_key(h, b) && (has_key(h, b)
        ==> value_of(w, b) == value_of(h, b)) by {
        if has_key(h, b) {
            let t = slot_of(h, b);
            assert(w[t].0 == b);
            lemma_slot(w, b, t);
        } else if has_key(w, b) {
            let t = slot_of(w, b);
            assert(h[t].0 == b);
        }
    }
}

/// What taking an entry out does: no key stands twice afterwards, `k` has
/// no entry, and every other key has what it had.
pub proof fn lemma_without<V>(h: Keyed<V>, k: Seq<char>)
    requires
        distinct_keys(h),
    ensures
        distinct_keys(without(h, k)),
        !has_key(without(h, k), k),
        forall|b: Seq<char>| b != k ==> has_key(without(h, k), b) == has_key(h, b),
        forall|b: Seq<char>|
            b != k && has_key(h, b) ==> value_of(without(h, k), b) == value_of(h, b),
{
    let w = without(h, k);
    if has_key(h, k) {
        let s = slot_of(h, k);
        assert forall|i: int| 0 <= i < w.len() implies #[trigger] w[i] == h[if i < s {
            i
        } else {
            i + 1
        }] by {}
        assert(distinct_keys(w)) by {
            assert forall|i: int, j: int| 0 <= i < j < w.len() implies w[i].0 != w[j].0 by {
                let hi = if i < s {
                    i
                } else {
                    i + 1
                };
                let hj = if j < s {
                    j
                } else {
                    j + 1
                };
                assert(w[i] == h[hi] && w[j] == h[hj]);
                assert(h[hi].0 != h[hj].0);
            }
        }
        if has_key(w, k) {
            let t = slot_of(w, k);
            let ht = if t < s {
                t
            } else {
                t + 1
            };
            assert(w[t] == h[ht]);
            lemma_slot(h, k, ht);
        }
        assert forall|b: Seq<char>| b != k implies has_key(w, b) == has_key(h, b) && (has_key(
            h,
            b,
        ) ==> value_of(w, b) == value_of(h, b)) by {
            if has_key(h, b) {
                let t = slot_of(h, b);
                let wt = if t < s {
                    t
                } else {
                    t - 1
                };
                assert(w[wt] == h[t]);
                lemma_slot(w, b, wt);
            } else if has_key(w, b) {
                let t = slot_of(w, b);
                let ht = if t < s {
                    t
                } else {
                    t + 1
                };
                assert(w[t] == h[ht]);
                assert(h[ht].0 == b);
            }
        }
    }
}

} // verus!
