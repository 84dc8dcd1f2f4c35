//! Finite maps keyed by `u128`, stored as vectors of `(key, value)` pairs whose
//! keys strictly increase. Such a vector is the unique representation of its map,
//! which lets the CRDTs compare states by their contents alone.
use vstd::prelude::*;

verus! {

/// Keys strictly increase along the sequence.
pub open spec fn sorted<V>(s: Seq<(u128, V)>) -> bool {
    forall|i: int, j: int| 0 <= i < j < s.len() ==> #[trigger] s[i].0 < #[trigger] s[j].0
}

/// Some entry of `s` carries the key `k`.
pub open spec fn has_key<V>(s: Seq<(u128, V)>, k: u128) -> bool {
    exists|i: int| 0 <= i < s.len() && #[trigger] s[i].0 == k
}

/// The map that the entries describe.
pub open spec fn to_map<V>(s: Seq<(u128, V)>) -> Map<u128, V> {
    Map::new(
        |k: u128| has_key(s, k),
        |k: u128| s[choose|i: int| 0 <= i < s.len() && #[trigger] s[i].0 == k].1,
    )
}

/// In a sorted sequence, the entry at `i` is what the map holds for its key.
pub proof fn lemma_to_map_index<V>(s: Seq<(u128, V)>, i: int)
    requires
        sorted(s),
        0 <= i < s.len(),
    ensures
        to_map(s).dom().contains(s[i].0),
        to_map(s)[s[i].0] == s[i].1,
{
    let k = s[i].0;
    assert(has_key(s, k));
    let j = choose|j: int| 0 <= j < s.len() && #[trigger] s[j].0 == k;
    if j < i {
        assert(s[j].0 < s[i].0);
    } else if i < j {
        assert(s[i].0 < s[j].0);
    }
}

/// Every entry of a sorted sequence is what the map holds for its key.
pub proof fn lemma_to_map_entries<V>(s: Seq<(u128, V)>)
    requires
        sorted(s),
    ensures
        forall|i: int|
            0 <= i < s.len() ==> to_map(s).dom().contains(#[trigger] s[i].0) && to_map(s)[s[i].0]
                == s[i].1,
{
    assert forall|i: int| 0 <= i < s.len() implies to_map(s).dom().contains(#[trigger] s[i].0)
        && to_map(s)[s[i].0] == s[i].1 by {
        lemma_to_map_index(s, i);
    }
}

/// Dropping the first entry of a sorted sequence removes its key from the map.
pub proof fn lemma_to_map_drop_first<V>(s: Seq<(u128, V)>)
    requires
        sorted(s),
        s.len() > 0,
    ensures
        sorted(s.drop_first()),
        to_map(s.drop_first()) == to_map(s).remove(s[0].0),
{
    let t = s.drop_first();
    lemma_to_map_entries(s);
    lemma_to_map_entries(t);
    assert forall|i: int, j: int| 0 <= i < j < t.len() implies #[trigger] t[i].0 < #[trigger] t[j].0 by {
        assert(t[i] == s[i + 1] && t[j] == s[j + 1]);
    }
    assert forall|k: u128| #[trigger] to_map(t).dom().contains(k) <==> to_map(s).remove(s[0].0).dom().contains(k) by {
        if to_map(t).dom().contains(k) {
            let i = choose|i: int| 0 <= i < t.len() && #[trigger] t[i].0 == k;
            assert(s[i + 1] == t[i]);
            assert(s[0].0 < s[i + 1].0);
        }
        if to_map(s).remove(s[0].0).dom().contains(k) {
            let i = choose|i: int| 0 <= i < s.len() && #[trigger] s[i].0 == k;
            assert(i != 0);
            assert(t[i - 1] == s[i]);
        }
    }
    assert forall|k: u128| #[trigger] to_map(t).dom().contains(k) implies to_map(t)[k] == to_map(s)[k] by {
        let i = choose|i: int| 0 <= i < t.len() && #[trigger] t[i].0 == k;
        assert(s[i + 1] == t[i]);
    }
    assert(to_map(t) =~= to_map(s).remove(s[0].0));
}

/// A sorted sequence is the only sorted representation of its map.
pub proof fn lemma_canonical<V>(s1: Seq<(u128, V)>, s2: Seq<(u128, V)>)
    requires
        sorted(s1),
        sorted(s2),
        to_map(s1) == to_map(s2),
    ensures
        s1 == s2,
    decreases s1.len(),
{
    lemma_to_map_entries(s1);
    lemma_to_map_entries(s2);
    if s1.len() == 0 {
        if s2.len() > 0 {
            assert(to_map(s2).dom().contains(s2[0].0));
        }
        assert(s1 =~= s2);
    } else if s2.len() == 0 {
        assert(to_map(s1).dom().contains(s1[0].0));
    } else {
        let k1 = s1[0].0;
        let k2 = s2[0].0;
        assert(to_map(s2).dom().contains(k1));
        let j = choose|j: int| 0 <= j < s2.len() && #[trigger] s2[j].0 == k1;
        if j > 0 {
            assert(s2[0].0 < s2[j].0);
        }
        assert(to_map(s1).dom().contains(k2));
        let i = choose|i: int| 0 <= i < s1.len() && #[trigger] s1[i].0 == k2;
        if i > 0 {
            assert(s1[0].0 < s1[i].0);
        }
        assert(k1 == k2);
        assert(s1[0].1 == to_map(s1)[k1]);
        assert(s1[0] == s2[0]);
        lemma_to_map_drop_first(s1);
        lemma_to_map_drop_first(s2);
        lemma_canonical(s1.drop_first(), s2.drop_first());
        assert(s1 =~= seq![s1[0]] + s1.drop_first());
        assert(s2 =~= seq![s2[0]] + s2.drop_first());
    }
}


/// A prefix of a sorted sequence is sorted.
pub proof fn lemma_sorted_take<V>(s: Seq<(u128, V)>, i: int)
    requires
        sorted(s),
        0 <= i <= s.len(),
    ensures
        sorted(s.take(i)),
{
    assert forall|a: int, b: int| 0 <= a < b < s.take(i).len() implies #[trigger] s.take(i)[a].0
        < #[trigger] s.take(i)[b].0 by {
        assert(s.take(i)[a] == s[a] && s.take(i)[b] == s[b]);
    }
}

/// Growing a prefix of a sorted sequence by one entry adds that entry's key to the map.
pub proof fn lemma_to_map_take_next<V>(s: Seq<(u128, V)>, i: int)
    requires
        sorted(s),
        0 <= i < s.len(),
    ensures
        !to_map(s.take(i)).dom().contains(s[i].0),
        to_map(s.take(i + 1)) == to_map(s.take(i)).insert(s[i].0, s[i].1),
{
    let a = s.take(i);
    let b = s.take(i + 1);
    lemma_sorted_take(s, i);
    lemma_sorted_take(s, i + 1);
    lemma_to_map_entries(a);
    lemma_to_map_entries(b);
    if to_map(a).dom().contains(s[i].0) {
        let j = choose|j: int| 0 <= j < a.len() && #[trigger] a[j].0 == s[i].0;
        assert(a[j] == s[j]);
        assert(s[j].0 < s[i].0);
    }
    assert forall|k: u128| #[trigger] to_map(b).dom().contains(k) <==> to_map(a).insert(s[i].0, s[i].1).dom().contains(k) by {
        if to_map(b).dom().contains(k) && k != s[i].0 {
            let j = choose|j: int| 0 <= j < b.len() && #[trigger] b[j].0 == k;
            assert(j != i);
            assert(a[j] == b[j]);
        }
        if to_map(a).dom().contains(k) {
            let j = choose|j: int| 0 <= j < a.len() && #[trigger] a[j].0 == k;
            assert(a[j] == b[j]);
        }
        assert(b[i] == s[i]);
    }
    assert forall|k: u128| #[trigger] to_map(b).dom().contains(k) implies to_map(b)[k] == to_map(a).insert(s[i].0, s[i].1)[k] by {
        let j = choose|j: int| 0 <= j < b.len() && #[trigger] b[j].0 == k;
        if j < i {
            assert(a[j] == b[j]);
        }
    }
    assert(to_map(b) =~= to_map(a).insert(s[i].0, s[i].1));
}

/// The map of an empty sequence is empty.
pub proof fn lemma_to_map_empty<V>(s: Seq<(u128, V)>)
    requires
        s.len() == 0,
    ensures
        to_map(s) == Map::<u128, V>::empty(),
{
    assert(to_map(s) =~= Map::<u128, V>::empty());
}

/// Position of the first entry whose key is not below `key`.
pub fn find_slot<V>(v: &Vec<(u128, V)>, key: u128) -> (r: usize)
    ensures
        r <= v.len(),
        forall|j: int| 0 <= j < r ==> (#[trigger] v@[j]).0 < key,
        r < v.len() ==> v@[r as int].0 >= key,
{
    let mut i: usize = 0;
    while i < v.len() && v[i].0 < key
        invariant
            i <= v.len(),
            forall|j: int| 0 <= j < i ==> (#[trigger] v@[j]).0 < key,
        decreases v.len() - i,
    {
        i = i + 1;
    }
    i
}

/// What the map holds for `key`, if anything.
pub fn sm_get<V: Copy>(v: &Vec<(u128, V)>, key: u128) -> (r: Option<V>)
    requires
        sorted(v@),
    ensures
        r == (if to_map(v@).dom().contains(key) {
            Some(to_map(v@)[key])
        } else {
            None
        }),
{
    let i = find_slot(v, key);
    proof {
        lemma_to_map_entries(v@);
    }
    if i < v.len() && v[i].0 == key {
        Some(v[i].1)
    } else {
        proof {
            if to_map(v@).dom().contains(key) {
                let j = choose|j: int| 0 <= j < v@.len() && #[trigger] v@[j].0 == key;
                if j > i {
                    assert(v@[i as int].0 < v@[j].0);
                }
            }
        }
        None
    }
}

/// Number of leading entries whose key is below `key`.
pub open spec fn slot<V>(s: Seq<(u128, V)>, key: u128) -> int
    decreases s.len(),
{
    if s.len() == 0 {
        0
    } else if s[0].0 >= key {
        0
    } else {
        1 + slot(s.drop_first(), key)
    }
}

/// Every entry before the slot of `key` has a smaller key, and the entry at the slot,
/// if there is one, does not.
pub proof fn lemma_slot<V>(s: Seq<(u128, V)>, key: u128)
    ensures
        0 <= slot(s, key) <= s.len(),
        forall|j: int| 0 <= j < slot(s, key) ==> (#[trigger] s[j]).0 < key,
        slot(s, key) < s.len() ==> s[slot(s, key)].0 >= key,
    decreases s.len(),
{
    if s.len() > 0 && s[0].0 < key {
        let t = s.drop_first();
        lemma_slot(t, key);
        assert forall|j: int| 0 <= j < slot(s, key) implies (#[trigger] s[j]).0 < key by {
            if j > 0 {
                assert(s[j] == t[j - 1]);
            }
        }
        if slot(s, key) < s.len() {
            assert(s[slot(s, key)] == t[slot(t, key)]);
        }
    }
}

/// Overwriting the entry for an existing key sets its value in the map.
pub proof fn lemma_update_at<V>(s: Seq<(u128, V)>, i: int, key: u128, val: V)
    requires
        sorted(s),
        0 <= i < s.len(),
        s[i].0 == key,
    ensures
        sorted(s.update(i, (key, val))),
        to_map(s.update(i, (key, val))) == to_map(s).insert(key, val),
{
    let t = s.update(i, (key, val));
    lemma_to_map_entries(s);
    assert forall|a: int, b: int| 0 <= a < b < t.len() implies #[trigger] t[a].0 < #[trigger] t[b].0 by {
        assert(s[a].0 < s[b].0);
    }
    lemma_to_map_entries(t);
    assert forall|k: u128| #[trigger] to_map(t).dom().contains(k) <==> to_map(s).insert(key, val).dom().contains(k) by {
        if to_map(t).dom().contains(k) {
            let j = choose|j: int| 0 <= j < t.len() && #[trigger] t[j].0 == k;
            assert(s[j].0 == t[j].0);
        }
        if to_map(s).dom().contains(k) {
            let j = choose|j: int| 0 <= j < s.len() && #[trigger] s[j].0 == k;
            assert(s[j].0 == t[j].0);
        }
    }
    assert forall|k: u128| #[trigger] to_map(t).dom().contains(k) implies to_map(t)[k] == to_map(s).insert(key, val)[k] by {
        let j = choose|j: int| 0 <= j < t.len() && #[trigger] t[j].0 == k;
        if j != i {
            assert(s[j] == t[j]);
        }
    }
    assert(to_map(t) =~= to_map(s).insert(key, val));
}

/// Inserting an entry for a new key at its slot adds the key to the map.
pub proof fn lemma_insert_at<V>(s: Seq<(u128, V)>, i: int, key: u128, val: V)
    requires
        sorted(s),
        0 <= i <= s.len(),
        forall|j: int| 0 <= j < i ==> (#[trigger] s[j]).0 < key,
        i < s.len() ==> s[i].0 > key,
    ensures
        sorted(s.insert(i, (key, val))),
        to_map(s.insert(i, (key, val))) == to_map(s).insert(key, val),
{
    let t = s.insert(i, (key, val));
    lemma_to_map_entries(s);
    assert forall|a: int, b: int| 0 <= a < b < t.len() implies #[trigger] t[a].0 < #[trigger] t[b].0 by {
        if b < i {
            assert(t[a] == s[a] && t[b] == s[b]);
        } else if b == i {
            assert(t[a] == s[a]);
        } else if a < i {
            assert(t[a] == s[a] && t[b] == s[b - 1]);
            if i < s.len() {
                assert(s[i].0 <= s[b - 1].0) by {
                    if i < b - 1 {
                        assert(s[i].0 < s[b - 1].0);
                    }
                }
            }
        } else if a == i {
            assert(t[b] == s[b - 1]);
            assert(s[i].0 <= s[b - 1].0) by {
                if i < b - 1 {
                    assert(s[i].0 < s[b - 1].0);
                }
            }
        } else {
            assert(t[a] == s[a - 1] && t[b] == s[b - 1]);
        }
    }
    lemma_to_map_entries(t);
    assert forall|k: u128| #[trigger] to_map(t).dom().contains(k) <==> to_map(s).insert(key, val).dom().contains(k) by {
        if to_map(t).dom().contains(k) && k != key {
            let j = choose|j: int| 0 <= j < t.len() && #[trigger] t[j].0 == k;
            if j < i {
                assert(s[j] == t[j]);
            } else if j > i {
                assert(s[j - 1] == t[j]);
            }
        }
        if to_map(s).dom().contains(k) {
            let j = choose|j: int| 0 <= j < s.len() && #[trigger] s[j].0 == k;
            if j < i {
                assert(s[j] == t[j]);
            } else {
                assert(s[j] == t[j + 1]);
            }
        }
        if k == key {
            assert(t[i].0 == key);
        }
    }
    assert forall|k: u128| #[trigger] to_map(t).dom().contains(k) implies to_map(t)[k] == to_map(s).insert(key, val)[k] by {
        let j = choose|j: int| 0 <= j < t.len() && #[trigger] t[j].0 == k;
        if j < i {
            assert(s[j] == t[j]);
        } else if j > i {
            assert(s[j - 1] == t[j]);
        }
    }
    assert(to_map(t) =~= to_map(s).insert(key, val));
}

/// Sets the value for `key`, adding the key where it is missing.
pub fn sm_insert<V: Copy>(v: &mut Vec<(u128, V)>, key: u128, val: V)
    requires
        sorted(old(v)@),
    ensures
        sorted(final(v)@),
        to_map(final(v)@) == to_map(old(v)@).insert(key, val),
{
    let i = find_slot(v, key);
    let ghost s = v@;
    if i < v.len() && v[i].0 == key {
        v.set(i, (key, val));
        proof {
            lemma_update_at(s, i as int, key, val);
            assert(v@ =~= s.update(i as int, (key, val)));
        }
    } else {
        v.insert(i, (key, val));
        proof {
            lemma_insert_at(s, i as int, key, val);
        }
    }
}

/// Removes `key` from the map, if it is there.
pub fn sm_remove<V: Copy>(v: &mut Vec<(u128, V)>, key: u128)
    requires
        sorted(old(v)@),
    ensures
        sorted(final(v)@),
        to_map(final(v)@) == to_map(old(v)@).remove(key),
{
    let i = find_slot(v, key);
    let ghost s = v@;
    proof {
        lemma_to_map_entries(s);
    }
    if i < v.len() && v[i].0 == key {
        v.remove(i);
        let ghost t = v@;
        assert forall|a: int, b: int| 0 <= a < b < t.len() implies #[trigger] t[a].0 < #[trigger] t[b].0 by {
            if b < i {
                assert(t[a] == s[a] && t[b] == s[b]);
            } else if a < i {
                assert(t[a] == s[a] && t[b] == s[b + 1]);
            } else {
                assert(t[a] == s[a + 1] && t[b] == s[b + 1]);
            }
        }
        proof {
            lemma_to_map_entries(t);
            assert forall|k: u128| #[trigger] to_map(t).dom().contains(k) <==> to_map(s).remove(key).dom().contains(k) by {
                if to_map(t).dom().contains(k) {
                    let j = choose|j: int| 0 <= j < t.len() && #[trigger] t[j].0 == k;
                    if j < i {
                        assert(s[j] == t[j]);
                    } else {
                        assert(s[j + 1] == t[j]);
                        assert(s[i as int].0 < s[j + 1].0);
                    }
                }
                if to_map(s).remove(key).dom().contains(k) {
                    let j = choose|j: int| 0 <= j < s.len() && #[trigger] s[j].0 == k;
                    if j < i {
                        assert(s[j] == t[j]);
                    } else {
                        assert(j != i);
                        assert(s[j] == t[j - 1]);
                    }
                }
            }
            assert forall|k: u128| #[trigger] to_map(t).dom().contains(k) implies to_map(t)[k] == to_map(s).remove(key)[k] by {
                let j = choose|j: int| 0 <= j < t.len() && #[trigger] t[j].0 == k;
                if j < i {
                    assert(s[j] == t[j]);
                } else {
                    assert(s[j + 1] == t[j]);
                }
            }
            assert(to_map(t) =~= to_map(s).remove(key));
        }
    } else {
        proof {
            if to_map(s).dom().contains(key) {
                let j = choose|j: int| 0 <= j < s.len() && #[trigger] s[j].0 == key;
                if j > i {
                    assert(s[i as int].0 < s[j].0);
                }
            }
            assert(to_map(s) =~= to_map(s).remove(key));
        }
    }
}

} // verus!
