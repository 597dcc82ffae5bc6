//! Insertion-ordered association lists: the mathematical model of an ordered
//! map. An association list is a sequence of key/value pairs; a well-formed one
//! holds each key at most once.

use vstd::prelude::*;

verus! {

/// No key occurs at two positions of `s`.
pub open spec fn distinct_keys<K, V>(s: Seq<(K, V)>) -> bool {
    forall|i: int, j: int| 0 <= i < j < s.len() ==> (#[trigger] s[i]).0 != (#[trigger] s[j]).0
}

/// `k` is a key of `s`.
pub open spec fn has_key<K, V>(s: Seq<(K, V)>, k: K) -> bool {
    exists|i: int| 0 <= i < s.len() && (#[trigger] s[i]).0 == k
}

/// A position of `s` that holds `k`; the only one where the keys are distinct.
pub open spec fn position<K, V>(s: Seq<(K, V)>, k: K) -> int {
    choose|i: int| 0 <= i < s.len() && (#[trigger] s[i]).0 == k
}

/// The value that `s` gives to `k`.
pub open spec fn lookup<K, V>(s: Seq<(K, V)>, k: K) -> Option<V> {
    if has_key(s, k) {
        Some(s[position(s, k)].1)
    } else {
        None
    }
}

/// `s` after `k` is given the value `v`: a key that is present keeps its place
/// and takes the new value, a new key goes to the end.
pub open spec fn inserted<K, V>(s: Seq<(K, V)>, k: K, v: V) -> Seq<(K, V)> {
    if has_key(s, k) {
        s.update(position(s, k), (k, v))
    } else {
        s.push((k, v))
    }
}

/// `s` after `k` is removed by moving the last pair into its place.
pub open spec fn swap_removed<K, V>(s: Seq<(K, V)>, k: K) -> Seq<(K, V)> {
    if has_key(s, k) {
        let i = position(s, k);
        if i == s.len() - 1 {
            s.drop_last()
        } else {
            s.update(i, s.last()).drop_last()
        }
    } else {
        s
    }
}

/// `s` after every pair of `items` is inserted, first to last.
pub open spec fn inserted_all<K, V>(s: Seq<(K, V)>, items: Seq<(K, V)>) -> Seq<(K, V)>
    decreases items.len(),
{
    if items.len() == 0 {
        s
    } else {
        inserted(inserted_all(s, items.drop_last()), items.last().0, items.last().1)
    }
}

/// Where the keys are distinct, `position` finds the one index of each key.
pub proof fn lemma_position<K, V>(s: Seq<(K, V)>, i: int)
    requires
        distinct_keys(s),
        0 <= i < s.len(),
    ensures
        has_key(s, s[i].0),
        position(s, s[i].0) == i,
        lookup(s, s[i].0) == Some(s[i].1),
{
    let j = position(s, s[i].0);
    assert(0 <= j < s.len() && s[j].0 == s[i].0);
    if j < i {
        assert(s[j].0 != s[i].0);
    } else if i < j {
        assert(s[i].0 != s[j].0);
    }
}

/// Inserting keeps the keys distinct and changes the value of one key only.
pub proof fn lemma_inserted<K, V>(s: Seq<(K, V)>, k: K, v: V)
    requires
        distinct_keys(s),
    ensures
        distinct_keys(inserted(s, k, v)),
        lookup(inserted(s, k, v), k) == Some(v),
        forall|other: K| other != k ==> lookup(inserted(s, k, v), other) == lookup(s, other),
        forall|other: K| has_key(inserted(s, k, v), other) <==> (other == k || has_key(s, other)),
{
    let t = inserted(s, k, v);
    let p = if has_key(s, k) { position(s, k) } else { s.len() as int };
    assert(0 <= p < t.len() && t[p] == (k, v));
    assert(forall|i: int| 0 <= i < t.len() && i != p ==> t[i] == s[i]);
    assert(forall|i: int| 0 <= i < s.len() && i != p ==> s[i].0 != k) by {
        if has_key(s, k) {
            assert forall|i: int| 0 <= i < s.len() && i != p implies s[i].0 != k by {
                lemma_position(s, i);
            }
        }
    }
    assert(distinct_keys(t));
    lemma_position(t, p);
    assert forall|other: K| has_key(t, other) <==> (other == k || has_key(s, other)) by {
        if has_key(t, other) {
            let i = position(t, other);
            if i != p {
                assert(s[i].0 == other);
            }
        }
        if has_key(s, other) {
            let i = position(s, other);
            if i != p {
                assert(t[i].0 == other);
            } else {
                assert(other == k);
            }
        }
    }
    assert forall|other: K| other != k implies lookup(t, other) == lookup(s, other) by {
        if has_key(s, other) {
            let i = position(s, other);
            assert(i != p);
            assert(t[i] == s[i]);
            lemma_position(t, i);
        }
    }
}

/// Removing keeps the keys distinct, forgets one key and keeps the others.
pub proof fn lemma_swap_removed<K, V>(s: Seq<(K, V)>, k: K)
    requires
        distinct_keys(s),
    ensures
        distinct_keys(swap_removed(s, k)),
        !has_key(swap_removed(s, k), k),
        forall|other: K| other != k ==> lookup(swap_removed(s, k), other) == lookup(s, other),
        forall|other: K| has_key(swap_removed(s, k), other) <==> (other != k && has_key(s, other)),
        swap_removed(s, k).len() == if has_key(s, k) { s.len() - 1 } else { s.len() as int },
{
    let t = swap_removed(s, k);
    if has_key(s, k) {
        let p = position(s, k);
        let last = s.len() - 1;
        assert(forall|i: int| 0 <= i < t.len() && i != p ==> t[i] == s[i]);
        assert(p < last ==> t[p] == s[last]);
        assert forall|i: int, j: int| 0 <= i < j < t.len() implies t[i].0 != t[j].0 by {
            let si = if i == p { last } else { i };
            let sj = if j == p { last } else { j };
            assert(t[i] == s[si] && t[j] == s[sj]);
            if si < sj {
                assert(s[si].0 != s[sj].0);
            } else {
                assert(s[sj].0 != s[si].0);
            }
        }
        assert forall|i: int| 0 <= i < t.len() implies (#[trigger] t[i]).0 != k by {
            let si = if i == p { last } else { i };
            assert(t[i] == s[si]);
            lemma_position(s, si);
        }
        assert forall|other: K| other != k implies lookup(t, other) == lookup(s, other) by {
            if has_key(s, other) {
                let i = position(s, other);
                let ti = if i == last { p } else { i };
                assert(i != p);
                assert(t[ti] == s[i]);
                lemma_position(t, ti);
            } else if has_key(t, other) {
                let i = position(t, other);
                let si = if i == p { last } else { i };
                assert(s[si].0 == other);
            }
        }
        assert forall|other: K| has_key(t, other) <==> (other != k && has_key(s, other)) by {
            if has_key(t, other) {
                let i = position(t, other);
                let si = if i == p { last } else { i };
                assert(s[si].0 == other);
            }
            if other != k && has_key(s, other) {
                let i = position(s, other);
                let ti = if i == last { p } else { i };
                assert(t[ti] == s[i]);
            }
        }
    }
}

/// Inserting all of `items` keeps the keys distinct; the outcome holds the
/// keys of both, and each key of `items` with the value that `items` gives it.
pub proof fn lemma_inserted_all<K, V>(s: Seq<(K, V)>, items: Seq<(K, V)>)
    requires
        distinct_keys(s),
        distinct_keys(items),
    ensures
        distinct_keys(inserted_all(s, items)),
        forall|k: K| has_key(inserted_all(s, items), k) <==> (has_key(s, k) || has_key(items, k)),
        forall|k: K| has_key(items, k) ==> lookup(inserted_all(s, items), k) == lookup(items, k),
        forall|k: K| !has_key(items, k) ==> lookup(inserted_all(s, items), k) == lookup(s, k),
    decreases items.len(),
{
    if items.len() > 0 {
        let front = items.drop_last();
        let (key, value) = items.last();
        let before = inserted_all(s, front);
        lemma_inserted_all(s, front);
        lemma_inserted(before, key, value);
        let last = items.len() - 1;
        lemma_position(items, last);
        assert forall|k: K| has_key(items, k) <==> (k == key || has_key(front, k)) by {
            if has_key(items, k) {
                let i = position(items, k);
                if i != last {
                    assert(front[i].0 == k);
                }
            }
            if has_key(front, k) {
                let i = position(front, k);
                assert(items[i].0 == k);
            }
        }
        assert forall|k: K| has_key(front, k) implies lookup(front, k) == lookup(items, k) by {
            let i = position(front, k);
            lemma_position(front, i);
            assert(items[i] == front[i]);
            lemma_position(items, i);
        }
        assert(!has_key(front, key)) by {
            if has_key(front, key) {
                let i = position(front, key);
                assert(items[i].0 == items[last].0);
            }
        }
    }
}

/// A list without keys is empty.
pub proof fn lemma_no_keys<K, V>(s: Seq<(K, V)>)
    requires
        forall|k: K| !has_key(s, k),
    ensures
        s =~= Seq::<(K, V)>::empty(),
{
    if s.len() > 0 {
        assert(has_key(s, s[0].0));
    }
}

/// The last pair of a list with distinct keys: the pairs before it have
/// distinct keys and lack its key, and a lookup finds it or goes on before it.
pub proof fn lemma_last_pair<K, V>(s: Seq<(K, V)>)
    requires
        distinct_keys(s),
        s.len() > 0,
    ensures
        distinct_keys(s.drop_last()),
        !has_key(s.drop_last(), s.last().0),
        lookup(s, s.last().0) == Some(s.last().1),
        forall|k: K| k != s.last().0 ==> lookup(s, k) == lookup(s.drop_last(), k),
{
    let front = s.drop_last();
    let last = s.len() - 1;
    lemma_position(s, last);
    assert(!has_key(front, s.last().0)) by {
        if has_key(front, s.last().0) {
            let i = position(front, s.last().0);
            assert(s[i].0 == s[last].0);
        }
    }
    assert forall|k: K| k != s.last().0 implies lookup(s, k) == lookup(front, k) by {
        if has_key(s, k) {
            let i = position(s, k);
            assert(front[i] == s[i]);
            lemma_position(front, i);
            lemma_position(s, i);
        } else if has_key(front, k) {
            let i = position(front, k);
            assert(s[i].0 == k);
        }
    }
}

} // verus!
